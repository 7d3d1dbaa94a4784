//! The score combiner's verified side.
//!
//! Combining one bucket's values into a score is floating-point work
//! and lives with the boundary; what is verified here is the step
//! that feeds it: turning a bucket's gathered contributions into the
//! (value, weight) pairs the combiner takes, in their gathered order.

use crate::round::ScoreGroup;
use crate::store::SnapshotValue;
use vstd::prelude::*;

verus! {

/// A handle for the score-combination step.
#[derive(Debug, PartialEq)]
pub struct ScoreCalculator;

/// The pair a contribution hands the combiner: its value, and its
/// weight wherever one was resolved.
pub open spec fn calc_pairs(g: ScoreGroup) -> Seq<(SnapshotValue, Option<SnapshotValue>)> {
    g.entries@.map_values(
        |t: crate::round::TripleEntry| (t.value, Option::Some(t.weight)),
    )
}

impl ScoreCalculator {
    /// A fresh combiner handle.
    pub fn new() -> (r: ScoreCalculator)
        ensures
            r == ScoreCalculator,
    {
        ScoreCalculator
    }

    /// One bucket's combination inputs: each contribution's value
    /// with its weight, in gathered order.
    pub fn inputs(&self, group: &ScoreGroup) -> (r: Vec<(SnapshotValue, Option<SnapshotValue>)>)
        ensures
            r@ == calc_pairs(*group),
    {
        let mut r: Vec<(SnapshotValue, Option<SnapshotValue>)> = Vec::new();
        let entries = &group.entries;
        let mut i: usize = 0;
        while i < entries.len()
            invariant
                0 <= i <= entries@.len(),
                *entries == group.entries,
                r@ == calc_pairs(*group).take(i as int),
            decreases entries@.len() - i,
        {
            let e = &entries[i];
            r.push((e.value, Some(e.weight)));
            proof {
                assert(r@ =~= calc_pairs(*group).take(i + 1));
            }
            i = i + 1;
        }
        proof {
            assert(calc_pairs(*group).take(entries@.len() as int) =~= calc_pairs(*group));
        }
        r
    }
}

} // verus!
