use priority_queue::sorted::{ScanOutcome, ScanResume};
use priority_queue::{CriticalSection, CsToken, Mutex, NoopCs, Node, PreemptionPoint, Sorted};

/// Drives a paused scan to completion, counting the resumed steps.
fn finish_scan(sorted: &mut Sorted, paused: ScanOutcome) -> usize {
    let mut sc = match paused {
        ScanOutcome::Paused(sc) => sc,
        ScanOutcome::Inserted => return 0,
        ScanOutcome::Full => panic!("scan refused: no free slot"),
    };
    let mut steps = 1;
    loop {
        match sorted.scan_step(sc) {
            ScanResume::Inserted => return steps,
            ScanResume::Paused(sc2) => {
                sc = sc2;
                steps += 1;
            },
        }
    }
}

#[test]
fn preempted_scan_survives_concurrent_pop_of_its_node() {
    let mut sorted = Sorted::new(4);
    sorted.insert(10).unwrap();
    sorted.insert(20).unwrap();
    sorted.insert(30).unwrap();

    // Begin inserting 25: the scan pauses holding a reader claim on the
    // head node (value 10).
    let paused = sorted.scan_begin(25);
    assert!(matches!(paused, ScanOutcome::Paused(_)));

    // A pop runs while the scan is paused. It removes the head, but the
    // head is claimed by the reader, so its slot is only marked for
    // deletion, not reclaimed: the free list does not grow yet.
    assert_eq!(sorted.free_ptr(), Some(3));
    assert_eq!(sorted.pop(), Some(10));
    assert_eq!(sorted.free_ptr(), Some(3));
    assert_eq!(sorted.peek(), Some(20));

    // On resuming, the scan detects the mark, garbage-collects the slot,
    // and continues from the stored successor until 25 is inserted.
    finish_scan(&mut sorted, paused);

    // The final state is exactly as if pop and insert had run serially.
    assert_eq!(sorted.pop(), Some(20));
    assert_eq!(sorted.pop(), Some(25));
    assert_eq!(sorted.pop(), Some(30));
    assert_eq!(sorted.pop(), None);
}

#[test]
fn preempted_scan_survives_pop_of_an_unclaimed_node() {
    let mut sorted = Sorted::new(5);
    sorted.insert(10).unwrap();
    sorted.insert(20).unwrap();
    sorted.insert(30).unwrap();

    // Begin inserting 35 and advance the scan past the head.
    let mut sc = match sorted.scan_begin(35) {
        ScanOutcome::Paused(sc) => sc,
        _ => panic!("expected the scan to pause"),
    };
    sc = match sorted.scan_step(sc) {
        ScanResume::Paused(sc) => sc,
        ScanResume::Inserted => panic!("expected the scan to pause again"),
    };

    // The pop removes the head (value 10), which no reader claims: its
    // slot is reclaimed immediately.
    assert_eq!(sorted.pop(), Some(10));
    assert_eq!(sorted.free_ptr(), Some(0));

    // The scan resumes unharmed and finishes the insertion.
    loop {
        match sorted.scan_step(sc) {
            ScanResume::Inserted => break,
            ScanResume::Paused(sc2) => sc = sc2,
        }
    }
    assert_eq!(sorted.pop(), Some(20));
    assert_eq!(sorted.pop(), Some(30));
    assert_eq!(sorted.pop(), Some(35));
    assert_eq!(sorted.pop(), None);
}

#[test]
fn scan_on_full_list_reports_full() {
    let mut sorted = Sorted::new(1);
    sorted.insert(5).unwrap();
    assert!(matches!(sorted.scan_begin(6), ScanOutcome::Full));
    assert_eq!(sorted.peek(), Some(5));
}

#[test]
fn scan_into_emptied_list_inserts_at_front() {
    let mut sorted = Sorted::new(2);
    sorted.insert(10).unwrap();

    // Pause the scan on the only node, then pop it away.
    let paused = sorted.scan_begin(15);
    assert!(matches!(paused, ScanOutcome::Paused(_)));
    assert_eq!(sorted.pop(), Some(10));
    assert_eq!(sorted.peek(), None);

    // The resumed scan reclaims the marked slot and inserts into the now
    // empty list.
    finish_scan(&mut sorted, paused);
    assert_eq!(sorted.peek(), Some(15));
    assert_eq!(sorted.pop(), Some(15));
    assert_eq!(sorted.pop(), None);
}

#[test]
fn node_deletion_mark_round_trip() {
    let mut node: Node<i64> = Node::new(42, Some(3));
    assert!(!node.is_marked_for_deletion());
    assert!(!node.is_being_read());

    node.mark_for_deletion();
    assert!(node.is_marked_for_deletion());
    assert!(!node.is_being_read());

    node.mark_ready();
    assert!(!node.is_marked_for_deletion());
}

#[test]
fn node_reader_count_round_trip() {
    let mut node: Node<i64> = Node::new_empty();
    assert!(!node.is_being_read());

    node.inc_readers();
    assert!(node.is_being_read());
    node.inc_readers();
    assert!(node.is_being_read());

    // The deletion mark and the reader count live in one word without
    // disturbing each other.
    node.mark_for_deletion();
    assert!(node.is_being_read());
    assert!(node.is_marked_for_deletion());

    node.dec_readers();
    assert!(node.is_being_read());
    node.dec_readers();
    assert!(!node.is_being_read());
    assert!(node.is_marked_for_deletion());
}

#[test]
fn node_constructors() {
    let filled: Node<i64> = Node::new(7, None);
    assert_eq!(filled.value, Some(7));
    assert_eq!(filled.next, None);
    assert_eq!(filled.rc, 0);

    let uninit: Node<i64> = Node::new_uninit(Some(1));
    assert_eq!(uninit.value, None);
    assert_eq!(uninit.next, Some(1));

    let empty: Node<i64> = Node::new_empty();
    assert_eq!(empty.value, None);
    assert_eq!(empty.next, None);
}

#[test]
fn mutex_round_trip() {
    let m = Mutex::new(11);
    assert_eq!(m.into_inner(), 11);
}

#[test]
fn noop_critical_section_runs() {
    let cs = NoopCs;
    let mut token: CsToken<()> = cs.enter();
    NoopCs::preemption_point(&mut token);
    let other = CsToken::new(());
    let _ = other;
}
