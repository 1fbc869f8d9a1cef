//! The aggregation-and-persistence core of a distributed Monte-Carlo
//! experiment: worker batches of frequency counters, their exact element-wise
//! merge into one running total, and the crash-safe textual snapshot that
//! preserves every counter's magnitude across restarts.
//!
//! `compute` simulates trials into a local batch; `database` owns the
//! canonical counters and their merge; `codec` turns counters into decimal
//! digit strings and whole snapshots into their canonical document and back.

use vstd::prelude::*;

pub mod codec;
pub mod compute;
pub mod database;

verus! {

/// Sum of a sequence of integers, folded from the right.
pub open spec fn seq_sum(s: Seq<int>) -> int
    decreases s.len(),
{
    if s.len() == 0 {
        0
    } else {
        seq_sum(s.drop_last()) + s.last()
    }
}

} // verus!
