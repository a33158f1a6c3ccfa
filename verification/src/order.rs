//! Spec-level vocabulary for the ordering engine: the minimum of a value
//! sequence, sortedness, and the position at which a sorted insert lands.

use vstd::prelude::*;

verus! {

/// The least value of a non-empty sequence.
pub open spec fn seq_min(s: Seq<i64>) -> i64
    recommends
        s.len() > 0,
    decreases s.len(),
{
    if s.len() <= 1 {
        s[0]
    } else if s.last() < seq_min(s.drop_last()) {
        s.last()
    } else {
        seq_min(s.drop_last())
    }
}

/// Whether the minimum value of `s` occurs at two distinct positions.
pub open spec fn min_is_repeated(s: Seq<i64>) -> bool {
    exists|i: int, j: int|
        0 <= i < s.len() && 0 <= j < s.len() && i != j && s[i] == seq_min(s) && s[j] == seq_min(s)
}

/// Ascending order, duplicates allowed.
pub open spec fn is_sorted(s: Seq<i64>) -> bool {
    forall|i: int, j: int| 0 <= i <= j < s.len() ==> s[i] <= s[j]
}

/// No value occurs twice.
pub open spec fn all_distinct(s: Seq<i64>) -> bool {
    forall|i: int, j: int| 0 <= i < j < s.len() ==> s[i] != s[j]
}

/// The position at which a sorted insert of `v` lands: just before the
/// first element strictly greater than `v`, so a duplicate goes after the
/// copies already present.
pub open spec fn insert_pos(s: Seq<i64>, v: i64) -> int
    decreases s.len(),
{
    if s.len() == 0 {
        0
    } else if v < s[0] {
        0
    } else {
        1 + insert_pos(s.drop_first(), v)
    }
}

/// The minimum is no larger than any element.
pub proof fn lemma_seq_min_is_lower_bound(s: Seq<i64>)
    requires
        s.len() > 0,
    ensures
        forall|i: int| 0 <= i < s.len() ==> seq_min(s) <= #[trigger] s[i],
    decreases s.len(),
{
    if s.len() > 1 {
        lemma_seq_min_is_lower_bound(s.drop_last());
        assert forall|i: int| 0 <= i < s.len() implies seq_min(s) <= #[trigger] s[i] by {
            if i < s.len() - 1 {
                assert(seq_min(s.drop_last()) <= s.drop_last()[i]);
                assert(s.drop_last()[i] == s[i]);
            }
        }
    }
}

/// The minimum is attained by some element.
pub proof fn lemma_seq_min_is_attained(s: Seq<i64>)
    requires
        s.len() > 0,
    ensures
        exists|i: int| 0 <= i < s.len() && s[i] == seq_min(s),
    decreases s.len(),
{
    if s.len() <= 1 {
        assert(s[0] == seq_min(s));
    } else {
        lemma_seq_min_is_attained(s.drop_last());
        if s.last() < seq_min(s.drop_last()) {
            assert(s[s.len() - 1] == seq_min(s));
        } else {
            let i = choose|i: int|
                0 <= i < s.drop_last().len() && s.drop_last()[i] == seq_min(s.drop_last());
            assert(s.drop_last()[i] == s[i]);
            assert(s[i] == seq_min(s));
        }
    }
}

/// The insert position is pinned down by its bounding conditions: every
/// element before it is at most `v`, and the element at it (if any) is
/// strictly greater.
pub proof fn lemma_insert_pos_of(s: Seq<i64>, v: i64, p: int)
    requires
        0 <= p <= s.len(),
        forall|j: int| 0 <= j < p ==> #[trigger] s[j] <= v,
        p < s.len() ==> v < s[p],
    ensures
        insert_pos(s, v) == p,
    decreases s.len(),
{
    if s.len() == 0 {
    } else if v < s[0] {
        assert(p == 0);
    } else {
        assert(p >= 1);
        let d = s.drop_first();
        assert forall|j: int| 0 <= j < p - 1 implies #[trigger] d[j] <= v by {
            assert(d[j] == s[j + 1]);
        }
        if p - 1 < d.len() {
            assert(d[p - 1] == s[p]);
        }
        lemma_insert_pos_of(d, v, p - 1);
    }
}

/// Inserting at a position with those bounding conditions preserves
/// sortedness.
pub proof fn lemma_sorted_insert(s: Seq<i64>, v: i64, p: int)
    requires
        is_sorted(s),
        0 <= p <= s.len(),
        forall|j: int| 0 <= j < p ==> #[trigger] s[j] <= v,
        p < s.len() ==> v < s[p],
    ensures
        is_sorted(s.insert(p, v)),
{
    let t = s.insert(p, v);
    s.insert_ensures(p, v);
    assert forall|i: int, j: int| 0 <= i <= j < t.len() implies t[i] <= t[j] by {
        let ti = if i < p {
            s[i]
        } else if i == p {
            v
        } else {
            s[i - 1]
        };
        let tj = if j < p {
            s[j]
        } else if j == p {
            v
        } else {
            s[j - 1]
        };
        assert(t[i] == ti && t[j] == tj);
        if i == p && j > p {
            assert(s[p] <= s[j - 1]);
        }
    }
}

/// A position whose value is a lower bound of the whole sequence attains
/// the minimum.
pub proof fn lemma_min_at_position(s: Seq<i64>, p: int)
    requires
        0 <= p < s.len(),
        forall|j: int| 0 <= j < s.len() ==> s[p] <= #[trigger] s[j],
    ensures
        seq_min(s) == s[p],
{
    lemma_seq_min_is_lower_bound(s);
    lemma_seq_min_is_attained(s);
    let a = choose|a: int| 0 <= a < s.len() && s[a] == seq_min(s);
    assert(s[p] <= s[a]);
}

/// Appending one value moves the minimum down exactly when the new value
/// is strictly smaller.
pub proof fn lemma_seq_min_push(s: Seq<i64>, v: i64)
    ensures
        seq_min(s.push(v)) == if s.len() == 0 || v < seq_min(s) {
            v
        } else {
            seq_min(s)
        },
{
    let t = s.push(v);
    assert(t.drop_last() =~= s);
    assert(t.last() == v);
}

} // verus!
