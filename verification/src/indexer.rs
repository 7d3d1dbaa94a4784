//! The indexer's whole state and its guarded operations.
//!
//! Configuration and registry mutation demand the controller check;
//! starting a round demands the proxy check.  A failed check aborts
//! the call with `Unauthorized` before anything is touched.  A round
//! runs between `begin_round` and `commit_round`; a second round
//! cannot start while one is under way, and a failed round is closed
//! with `abort_round`, leaving every store as it was.

use crate::config::{spec_duration_seconds, spec_max_count, ConfigStore};
use crate::ident::{id_value, is_valid_id, SnapshotId};
use crate::round::ScoreGroup;
use crate::store::{
    retained, snaps_eqv, window_filter, AggregationKey, ScoreEntry, Snapshot, SnapshotStore,
    SnapshotValue,
};
use crate::task::{task_eqv, task_get, Task, TaskStore};
use crate::Error;
use vstd::prelude::*;

verus! {

/// Nanoseconds in one millisecond.
pub const NANOS_PER_MILLIS: u64 = 1_000_000;

/// A query window, in optional nanosecond timestamps; a missing bound
/// reads as zero.
#[derive(Clone, Copy, Debug)]
pub struct QueryOption {
    pub from_timestamp: Option<i64>,
    pub to_timestamp: Option<i64>,
}

/// A window bound in milliseconds: the nanosecond bound, or zero
/// where none was given, cut down to the identifier's unit.
pub open spec fn bound_ms(o: Option<i64>) -> int {
    (match o {
        Option::Some(x) => x as int,
        Option::None => 0,
    }) / (NANOS_PER_MILLIS as int)
}

/// What one round works on: the lookback window's length and the
/// registry as it stood when the round began.
pub struct RoundPlan {
    pub duration_seconds: u64,
    pub tasks: Vec<Task>,
}

/// The indexer: the snapshot log, the task registry, the
/// configuration, and the flag that keeps rounds from overlapping.
pub struct RatingIndexer {
    pub snapshots: SnapshotStore,
    pub tasks: TaskStore,
    pub configs: ConfigStore,
    pub round_in_progress: bool,
}

impl RatingIndexer {
    /// Every part holds its own shape invariant.
    pub open spec fn wf(&self) -> bool {
        &&& self.snapshots.wf()
        &&& self.tasks.wf()
        &&& self.configs.wf()
    }

    /// A fresh indexer: nothing stored, nothing registered, every
    /// setting at its default, no round under way.
    pub fn new() -> (s: Self)
        ensures
            s.wf(),
            s.snapshots@.len() == 0,
            s.tasks@.len() == 0,
            s.configs@.len() == 0,
            !s.round_in_progress,
    {
        RatingIndexer {
            snapshots: SnapshotStore::new(),
            tasks: TaskStore::new(),
            configs: ConfigStore::new(),
            round_in_progress: false,
        }
    }

    /// Register a task; only a controller may.
    pub fn add_task(&mut self, is_controller: bool, task: Task) -> (r: Result<(), Error>)
        requires
            old(self).wf(),
        ensures
            final(self).wf(),
            !is_controller ==> r == Err::<(), Error>(Error::Unauthorized) && *final(self) == *old(
                self,
            ),
            is_controller ==> r == Ok::<(), Error>(()) && task_get(final(self).tasks@, task.id@)
                == Some(task) && (forall|k: Seq<char>|
                k != task.id@ ==> task_get(final(self).tasks@, k) == task_get(
                    old(self).tasks@,
                    k,
                )) && final(self).snapshots == old(self).snapshots && final(self).configs == old(
                self,
            ).configs && final(self).round_in_progress == old(self).round_in_progress,
    {
        if !is_controller {
            return Err(Error::Unauthorized);
        }
        self.tasks.add_task(task);
        Ok(())
    }

    /// Strike a task from the registry; only a controller may.
    pub fn remove_task(&mut self, is_controller: bool, id: &str) -> (r: Result<(), Error>)
        requires
            old(self).wf(),
        ensures
            final(self).wf(),
            !is_controller ==> r == Err::<(), Error>(Error::Unauthorized) && *final(self) == *old(
                self,
            ),
            is_controller ==> r == Ok::<(), Error>(()) && task_get(final(self).tasks@, id@)
                is None && (forall|k: Seq<char>|
                k != id@ ==> task_get(final(self).tasks@, k) == task_get(old(self).tasks@, k))
                && final(self).snapshots == old(self).snapshots && final(self).configs == old(
                self,
            ).configs && final(self).round_in_progress == old(self).round_in_progress,
    {
        if !is_controller {
            return Err(Error::Unauthorized);
        }
        self.tasks.remove_task(id);
        Ok(())
    }

    /// Copies of all registered tasks.
    pub fn tasks(&self) -> (r: Vec<Task>)
        ensures
            r@.len() == self.tasks@.len(),
            forall|i: int| 0 <= i < self.tasks@.len() ==> task_eqv(#[trigger] r@[i], self.tasks@[i]),
    {
        self.tasks.tasks()
    }

    /// The configured retention bound, or its default.
    pub fn max_count(&self) -> (r: u64)
        requires
            self.wf(),
        ensures
            r == spec_max_count(self.configs@),
    {
        self.configs.max_count()
    }

    /// The configured lookback window in seconds, or its default.
    pub fn duration_seconds(&self) -> (r: u64)
        requires
            self.wf(),
        ensures
            r == spec_duration_seconds(self.configs@),
    {
        self.configs.duration_seconds()
    }

    /// Store a new retention bound; only a controller may.
    pub fn update_max_count(&mut self, is_controller: bool, count: u64) -> (r: Result<(), Error>)
        requires
            old(self).wf(),
        ensures
            final(self).wf(),
            !is_controller ==> r == Err::<(), Error>(Error::Unauthorized) && *final(self) == *old(
                self,
            ),
            is_controller ==> r == Ok::<(), Error>(()) && spec_max_count(final(self).configs@)
                == count && spec_duration_seconds(final(self).configs@) == spec_duration_seconds(
                old(self).configs@,
            ) && final(self).snapshots == old(self).snapshots && final(self).tasks == old(
                self,
            ).tasks && final(self).round_in_progress == old(self).round_in_progress,
    {
        if !is_controller {
            return Err(Error::Unauthorized);
        }
        self.configs.update_max_count(count);
        Ok(())
    }

    /// Store a new lookback window; only a controller may.
    pub fn update_duration_seconds(&mut self, is_controller: bool, duration_seconds: u64) -> (r:
        Result<(), Error>)
        requires
            old(self).wf(),
        ensures
            final(self).wf(),
            !is_controller ==> r == Err::<(), Error>(Error::Unauthorized) && *final(self) == *old(
                self,
            ),
            is_controller ==> r == Ok::<(), Error>(()) && spec_duration_seconds(
                final(self).configs@,
            ) == duration_seconds && spec_max_count(final(self).configs@) == spec_max_count(
                old(self).configs@,
            ) && final(self).snapshots == old(self).snapshots && final(self).tasks == old(
                self,
            ).tasks && final(self).round_in_progress == old(self).round_in_progress,
    {
        if !is_controller {
            return Err(Error::Unauthorized);
        }
        self.configs.update_duration_seconds(duration_seconds);
        Ok(())
    }

    /// The latest committed snapshot, or `NoData` while the store is
    /// empty.
    pub fn get_last_snapshot(&self) -> (r: Result<&Snapshot, Error>)
        requires
            self.wf(),
        ensures
            r is Ok <==> self.snapshots@.len() > 0,
            r matches Ok(s) ==> *s == self.snapshots@.last(),
            r matches Err(e) ==> e == Error::NoData,
    {
        match self.snapshots.get_last_snapshot() {
            Some(s) => Ok(s),
            None => Err(Error::NoData),
        }
    }

    /// The latest snapshot's value map, or `NoData` while the store
    /// is empty.
    pub fn get_last_snapshot_value(&self) -> (r: Result<
        Vec<(AggregationKey, SnapshotValue)>,
        Error,
    >)
        requires
            self.wf(),
        ensures
            r is Ok <==> self.snapshots@.len() > 0,
            r matches Ok(v) ==> v@ == self.snapshots@.last().value@,
            r matches Err(e) ==> e == Error::NoData,
    {
        match self.snapshots.get_last_snapshot_value() {
            Some(v) => Ok(v),
            None => Err(Error::NoData),
        }
    }

    /// How many snapshots are retained.
    pub fn snapshots_len(&self) -> (n: u64)
        requires
            self.wf(),
        ensures
            n == self.snapshots@.len(),
    {
        self.snapshots.snapshots_len()
    }

    /// All snapshots whose timestamp lies in the queried window,
    /// newest first.  Bounds arrive in nanoseconds and are cut down
    /// to the identifier's milliseconds; a missing bound reads as
    /// zero.
    pub fn query_between(&self, opt: QueryOption) -> (r: Vec<Snapshot>)
        requires
            self.wf(),
            opt.from_timestamp matches Some(x) ==> x >= 0,
            opt.to_timestamp matches Some(x) ==> x >= 0,
        ensures
            snaps_eqv(
                r@,
                window_filter(
                    self.snapshots@,
                    bound_ms(opt.from_timestamp) as u64,
                    bound_ms(opt.to_timestamp) as u64,
                ).reverse(),
            ),
    {
        let from_ns: i64 = match opt.from_timestamp {
            Some(x) => x,
            None => 0,
        };
        let to_ns: i64 = match opt.to_timestamp {
            Some(x) => x,
            None => 0,
        };
        let from_ms = (from_ns as u64) / NANOS_PER_MILLIS;
        let to_ms = (to_ns as u64) / NANOS_PER_MILLIS;
        self.snapshots.snapshots_between(from_ms, to_ms)
    }

    /// Open a round: only a proxy may, and only while no other round
    /// is under way.  The plan fixes the lookback window and the
    /// registry as they stand now; nothing else changes until the
    /// round commits or is aborted.
    pub fn begin_round(&mut self, is_proxy: bool) -> (r: Result<RoundPlan, Error>)
        requires
            old(self).wf(),
        ensures
            final(self).wf(),
            !is_proxy ==> (r matches Err(e) && e == Error::Unauthorized) && *final(self) == *old(
                self,
            ),
            is_proxy && old(self).round_in_progress ==> (r matches Err(e) && e
                == Error::RoundInProgress) && *final(self) == *old(self),
            is_proxy && !old(self).round_in_progress ==> r is Ok && final(self).round_in_progress
                && final(self).snapshots == old(self).snapshots && final(self).tasks == old(
                self,
            ).tasks && final(self).configs == old(self).configs,
            r matches Ok(plan) ==> plan.duration_seconds == spec_duration_seconds(
                old(self).configs@,
            ) && plan.tasks@.len() == old(self).tasks@.len() && (forall|i: int|
                0 <= i < old(self).tasks@.len() ==> task_eqv(
                    #[trigger] plan.tasks@[i],
                    old(self).tasks@[i],
                )),
    {
        if !is_proxy {
            return Err(Error::Unauthorized);
        }
        if self.round_in_progress {
            return Err(Error::RoundInProgress);
        }
        let duration_seconds = self.configs.duration_seconds();
        let tasks = self.tasks.tasks();
        self.round_in_progress = true;
        Ok(RoundPlan { duration_seconds, tasks })
    }

    /// Close a failed round: the flag clears and every store is left
    /// exactly as it was.  The previously latest snapshot, if any,
    /// stays latest.
    pub fn abort_round(&mut self)
        requires
            old(self).wf(),
        ensures
            final(self).wf(),
            !final(self).round_in_progress,
            final(self).snapshots == old(self).snapshots,
            final(self).tasks == old(self).tasks,
            final(self).configs == old(self).configs,
    {
        self.round_in_progress = false;
    }

    /// Commit a finished round: append its snapshot, evict down to
    /// the retention bound, and close the round.  The caller hands
    /// snapshots in identifier order, which the generator makes
    /// chronological.
    pub fn commit_round(&mut self, snapshot: Snapshot)
        requires
            old(self).wf(),
            is_valid_id(snapshot.id@),
            old(self).snapshots@.len() > 0 ==> id_value(old(self).snapshots@.last().id@)
                < id_value(snapshot.id@),
        ensures
            final(self).wf(),
            final(self).snapshots@ == retained(
                old(self).snapshots@.push(snapshot),
                spec_max_count(old(self).configs@) as int,
            ),
            final(self).snapshots@.len() <= spec_max_count(old(self).configs@),
            !final(self).round_in_progress,
            final(self).tasks == old(self).tasks,
            final(self).configs == old(self).configs,
    {
        let max_count = self.configs.max_count();
        self.snapshots.add_snapshot(snapshot, max_count);
        self.round_in_progress = false;
    }
}

/// The committed value map a round's groups and their combined
/// scores give: one pair per bucket, in the groups' order.
pub open spec fn value_pairs_of(gs: Seq<ScoreGroup>, scores: Seq<SnapshotValue>) -> Seq<
    (AggregationKey, SnapshotValue),
> {
    Seq::new(gs.len(), |g: int| (gs[g].key, scores[g]))
}

/// The audit listing a round's groups leave on the snapshot: every
/// contribution's bucket, task and raw value, group by group.
pub open spec fn audit_of(gs: Seq<ScoreGroup>) -> Seq<ScoreEntry>
    decreases gs.len(),
{
    if gs.len() == 0 {
        Seq::empty()
    } else {
        audit_of(gs.drop_last()) + gs.last().entries@.map_values(
            |t: crate::round::TripleEntry| ScoreEntry { key: t.key, task_id: t.task_id, value: t.value },
        )
    }
}

/// Taking one more group appends exactly that group's audit entries.
proof fn lemma_audit_take_step(gs: Seq<ScoreGroup>, i: int)
    requires
        0 <= i < gs.len(),
    ensures
        audit_of(gs.take(i + 1)) == audit_of(gs.take(i)) + gs[i].entries@.map_values(
            |t: crate::round::TripleEntry| ScoreEntry { key: t.key, task_id: t.task_id, value: t.value },
        ),
{
    assert(gs.take(i + 1).drop_last() =~= gs.take(i));
    assert(gs.take(i + 1).last() == gs[i]);
}

/// Assemble one round's snapshot: the fresh identifier, one combined
/// value per bucket, and the audit listing of raw contributions.
pub fn build_snapshot(
    id: SnapshotId,
    groups: &Vec<ScoreGroup>,
    group_scores: &Vec<SnapshotValue>,
) -> (s: Snapshot)
    requires
        groups@.len() == group_scores@.len(),
    ensures
        s.id == id,
        s.value@ == value_pairs_of(groups@, group_scores@),
        s.scores@ == audit_of(groups@),
{
    let n = groups.len();
    let mut value: Vec<(AggregationKey, SnapshotValue)> = Vec::new();
    let mut scores: Vec<ScoreEntry> = Vec::new();
    proof {
        assert(groups@.take(0).len() == 0);
        assert(value@ =~= value_pairs_of(groups@.take(0), group_scores@.take(0)));
        assert(scores@ =~= audit_of(groups@.take(0)));
    }
    let mut g: usize = 0;
    while g < n
        invariant
            groups@.len() == group_scores@.len(),
            n == groups@.len(),
            0 <= g <= n,
            value@ == value_pairs_of(groups@.take(g as int), group_scores@.take(g as int)),
            scores@ == audit_of(groups@.take(g as int)),
        decreases n - g,
    {
        value.push((groups[g].key.clone(), group_scores[g]));
        proof {
            assert(value@ =~= value_pairs_of(groups@.take(g + 1), group_scores@.take(g + 1)));
        }
        let entries = &groups[g].entries;
        let ghost scores_before = scores@;
        let ghost mapped = entries@.map_values(
            |t: crate::round::TripleEntry| ScoreEntry { key: t.key, task_id: t.task_id, value: t.value },
        );
        let mut j: usize = 0;
        while j < entries.len()
            invariant
                0 <= j <= entries@.len(),
                0 <= g < groups@.len(),
                *entries == groups@[g as int].entries,
                mapped == entries@.map_values(
                    |t: crate::round::TripleEntry| ScoreEntry {
                        key: t.key,
                        task_id: t.task_id,
                        value: t.value,
                    },
                ),
                scores@ == scores_before + mapped.take(j as int),
            decreases entries@.len() - j,
        {
            let e = &entries[j];
            scores.push(ScoreEntry { key: e.key.clone(), task_id: e.task_id.clone(), value: e.value });
            proof {
                assert(scores@ =~= scores_before + mapped.take(j + 1));
            }
            j = j + 1;
        }
        proof {
            assert(mapped.take(entries@.len() as int) =~= mapped);
            lemma_audit_take_step(groups@, g as int);
            assert(scores@ =~= audit_of(groups@.take(g + 1)));
        }
        g = g + 1;
    }
    proof {
        assert(groups@.take(n as int) =~= groups@);
        assert(group_scores@.take(n as int) =~= group_scores@);
    }
    Snapshot { id, value, scores }
}

} // verus!
