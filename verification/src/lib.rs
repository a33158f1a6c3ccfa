//! Fixed-capacity, arena-backed priority queues for no-allocation
//! environments.
//!
//! Storage is a fixed array of node slots addressed by small integer
//! indices; a free list and a live list are threaded through the same
//! `next` fields, so no operation ever allocates. Two ordering policies
//! are offered behind the same arena engine:
//!
//! * [`PriorityQueue`]: O(1) append on insert with a cached minimum
//!   index, and a single-pass O(n) extract-minimum scan.
//! * [`Sorted`]: the list is kept sorted ascending, so extraction is
//!   O(1) and insertion performs the O(n) positional scan. The scan can
//!   pause at preemption points; per-slot reader counts and deletion
//!   flags keep a concurrent pop from reclaiming a slot the paused scan
//!   still references.

pub mod cs;
pub mod cs_mutex;
pub mod node;
pub mod order;
pub mod queue;
pub mod sorted;

pub use cs::{CriticalSection, CsToken, NoopCs, PreemptionPoint};
pub use cs_mutex::Mutex;
pub use node::Node;
pub use queue::{Error, PriorityQueue};
pub use sorted::Sorted;
