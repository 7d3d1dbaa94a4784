//! The bounded-retention snapshot log.
//!
//! Snapshots are kept in insertion order, which the identifiers keep
//! chronological; a keyed lookup, the latest entry and range queries
//! are answered from the same sequence.  After every append the store
//! holds at most `max_count` entries, the oldest evicted first.

use crate::ident::{id_eq, id_timestamp, id_value, is_valid_id, SnapshotId, RAND_SPAN};
use vstd::arithmetic::div_mod::lemma_div_is_ordered;
use vstd::prelude::*;

verus! {

/// The label under which several tasks' results are combined.
pub type AggregationKey = String;

/// The stable name of a registered task.
pub type TaskId = String;

/// A committed measurement, carried as the caller's 64-bit encoding.
/// The store only moves these values; their numeric reading belongs to
/// the boundary that produced them.
pub type SnapshotValue = u64;

/// One task's raw contribution to one aggregation bucket, kept on the
/// snapshot for audit.
#[derive(Debug, PartialEq)]
pub struct ScoreEntry {
    pub key: AggregationKey,
    pub task_id: TaskId,
    pub value: SnapshotValue,
}

impl Clone for ScoreEntry {
    fn clone(&self) -> (r: Self)
        ensures
            r == *self,
    {
        ScoreEntry { key: self.key.clone(), task_id: self.task_id.clone(), value: self.value }
    }
}

/// One immutable result of an indexing round: the combined value per
/// aggregation bucket, and the raw per-task contributions kept for
/// audit.
#[derive(Debug, PartialEq)]
pub struct Snapshot {
    pub id: SnapshotId,
    pub value: Vec<(AggregationKey, SnapshotValue)>,
    pub scores: Vec<ScoreEntry>,
}

/// Two snapshots with the same identifier and the same listed
/// contents.  A copy of a snapshot is equivalent to its original,
/// though the copied vectors are distinct values.
pub open spec fn snap_eqv(a: Snapshot, b: Snapshot) -> bool {
    &&& a.id == b.id
    &&& a.value@ == b.value@
    &&& a.scores@ == b.scores@
}

/// The ordered identifier column of the store.
#[derive(Debug)]
pub struct SnapshotIds {
    pub ids: Vec<SnapshotId>,
}

/// Copy a bucket-to-value listing.
pub fn clone_value_map(v: &Vec<(AggregationKey, SnapshotValue)>) -> (r: Vec<
    (AggregationKey, SnapshotValue),
>)
    ensures
        r@ == v@,
{
    let mut r: Vec<(AggregationKey, SnapshotValue)> = Vec::new();
    let mut i: usize = 0;
    while i < v.len()
        invariant
            0 <= i <= v@.len(),
            r@ == v@.take(i as int),
        decreases v@.len() - i,
    {
        let pair = &v[i];
        r.push((pair.0.clone(), pair.1));
        proof {
            assert(v@.take(i + 1) =~= v@.take(i as int).push(v@[i as int]));
        }
        i = i + 1;
    }
    proof {
        assert(v@.take(v@.len() as int) =~= v@);
    }
    r
}

/// Copy a listing of per-task contributions.
pub fn clone_score_entries(v: &Vec<ScoreEntry>) -> (r: Vec<ScoreEntry>)
    ensures
        r@ == v@,
{
    let mut r: Vec<ScoreEntry> = Vec::new();
    let mut i: usize = 0;
    while i < v.len()
        invariant
            0 <= i <= v@.len(),
            r@ == v@.take(i as int),
        decreases v@.len() - i,
    {
        r.push(v[i].clone());
        proof {
            assert(v@.take(i + 1) =~= v@.take(i as int).push(v@[i as int]));
        }
        i = i + 1;
    }
    proof {
        assert(v@.take(v@.len() as int) =~= v@);
    }
    r
}

impl Clone for Snapshot {
    fn clone(&self) -> (r: Self)
        ensures
            snap_eqv(r, *self),
    {
        Snapshot {
            id: self.id.clone(),
            value: clone_value_map(&self.value),
            scores: clone_score_entries(&self.scores),
        }
    }
}

/// Identifiers strictly increase along the sequence, so insertion
/// order is chronological order.
pub open spec fn ids_sorted(s: Seq<Snapshot>) -> bool {
    forall|i: int, j: int|
        0 <= i < j < s.len() ==> id_value(#[trigger] s[i].id@) < id_value(#[trigger] s[j].id@)
}

/// Every entry carries a well-formed identifier.
pub open spec fn ids_valid(s: Seq<Snapshot>) -> bool {
    forall|i: int| 0 <= i < s.len() ==> is_valid_id(#[trigger] s[i].id@)
}

/// What a sequence of entries shrinks to under the retention bound:
/// the `max` most recent, all of them if they already fit.
pub open spec fn retained(s: Seq<Snapshot>, max: int) -> Seq<Snapshot> {
    if s.len() <= max {
        s
    } else {
        s.skip(s.len() - max)
    }
}

/// Appending an entry with a strictly greater identifier keeps the
/// sequence well formed.
proof fn lemma_push_keeps_order(s_old: Seq<Snapshot>, snap: Snapshot)
    requires
        ids_valid(s_old),
        ids_sorted(s_old),
        is_valid_id(snap.id@),
        s_old.len() > 0 ==> id_value(s_old.last().id@) < id_value(snap.id@),
    ensures
        ids_valid(s_old.push(snap)),
        ids_sorted(s_old.push(snap)),
{
    let s = s_old.push(snap);
    assert forall|i: int| 0 <= i < s.len() implies is_valid_id(#[trigger] s[i].id@) by {
        if i < s.len() - 1 {
            assert(s[i] == s_old[i]);
        } else {
            assert(s[i] == snap);
        }
    }
    assert forall|i: int, j: int| 0 <= i < j < s.len() implies id_value(#[trigger] s[i].id@)
        < id_value(#[trigger] s[j].id@) by {
        if j < s.len() - 1 {
            assert(s[i] == s_old[i]);
            assert(s[j] == s_old[j]);
            assert(id_value(s_old[i].id@) < id_value(s_old[j].id@));
        } else {
            assert(s[j] == snap);
            assert(s[i] == s_old[i]);
            assert(id_value(s_old.last().id@) < id_value(snap.id@));
            if i < s_old.len() - 1 {
                assert(id_value(s_old[i].id@) < id_value(s_old[s_old.len() - 1].id@));
                assert(s_old[s_old.len() - 1] == s_old.last());
            } else {
                assert(s_old[i] == s_old.last());
            }
        }
    }
}

/// The bounded, time-ordered log of snapshots.
pub struct SnapshotStore {
    pub ids: SnapshotIds,
    pub snapshots: Vec<Snapshot>,
}

impl View for SnapshotStore {
    type V = Seq<Snapshot>;

    open spec fn view(&self) -> Seq<Snapshot> {
        self.snapshots@
    }
}

impl SnapshotStore {
    /// The store's shape invariant: the identifier column mirrors the
    /// entries, and the entries are strictly ordered by identifier.
    pub open spec fn wf(&self) -> bool {
        &&& self.ids.ids@.len() == self.snapshots@.len()
        &&& forall|i: int|
            0 <= i < self.snapshots@.len() ==> (#[trigger] self.ids.ids@[i])@
                == self.snapshots@[i].id@
        &&& ids_valid(self.snapshots@)
        &&& ids_sorted(self.snapshots@)
    }

    /// An empty store.
    pub fn new() -> (s: Self)
        ensures
            s.wf(),
            s@.len() == 0,
    {
        SnapshotStore { ids: SnapshotIds { ids: Vec::new() }, snapshots: Vec::new() }
    }

    /// How many snapshots are retained.
    pub fn snapshots_len(&self) -> (n: u64)
        requires
            self.wf(),
        ensures
            n == self@.len(),
    {
        self.snapshots.len() as u64
    }

    /// Drop the `size` oldest entries; the surviving tail moves down
    /// to the front and the vacated slots are dropped.  Asking for
    /// more than the store holds empties it.
    pub fn delete(&mut self, size: usize)
        requires
            old(self).wf(),
        ensures
            final(self).wf(),
            final(self)@ == old(self)@.skip(
                if size <= old(self)@.len() {
                    size as int
                } else {
                    old(self)@.len() as int
                },
            ),
    {
        if size == 0 {
            proof {
                assert(old(self)@.skip(0) =~= old(self)@);
            }
            return ;
        }
        let len = self.snapshots.len();
        let at = if size <= len {
            size
        } else {
            len
        };
        let tail = self.snapshots.split_off(at);
        self.snapshots = tail;
        let id_tail = self.ids.ids.split_off(at);
        self.ids.ids = id_tail;
        proof {
            assert(self@ =~= old(self)@.skip(at as int));
            assert(self.ids.ids@ =~= old(self).ids.ids@.skip(at as int));
            assert forall|i: int| 0 <= i < self@.len() implies (#[trigger] self.ids.ids@[i])@
                == self@[i].id@ by {
                assert(self.ids.ids@[i] == old(self).ids.ids@[at + i]);
                assert(self@[i] == old(self)@[at + i]);
            }
            assert forall|i: int| 0 <= i < self@.len() implies is_valid_id(
                #[trigger] self@[i].id@,
            ) by {
                assert(self@[i] == old(self)@[at + i]);
            }
            assert forall|i: int, j: int| 0 <= i < j < self@.len() implies id_value(
                #[trigger] self@[i].id@,
            ) < id_value(#[trigger] self@[j].id@) by {
                assert(self@[i] == old(self)@[at + i]);
                assert(self@[j] == old(self)@[at + j]);
            }
        }
    }

    /// Evict until at most `max_count` entries remain.
    pub fn delete_excess(&mut self, max_count: u64)
        requires
            old(self).wf(),
        ensures
            final(self).wf(),
            final(self)@ == retained(old(self)@, max_count as int),
            final(self)@.len() <= max_count,
    {
        let len = self.snapshots.len();
        if len as u64 <= max_count {
            return ;
        }
        self.delete(len - max_count as usize);
    }

    /// Append one snapshot, then evict the oldest entries until the
    /// retention bound holds again.  The caller hands snapshots in
    /// identifier order, which the generator makes chronological.
    pub fn add_snapshot(&mut self, snapshot: Snapshot, max_count: u64)
        requires
            old(self).wf(),
            is_valid_id(snapshot.id@),
            old(self)@.len() > 0 ==> id_value(old(self)@.last().id@) < id_value(snapshot.id@),
        ensures
            final(self).wf(),
            final(self)@ == retained(old(self)@.push(snapshot), max_count as int),
            final(self)@.len() <= max_count,
    {
        let ghost snap0 = snapshot;
        let id_copy = snapshot.id.clone();
        self.ids.ids.push(id_copy);
        self.snapshots.push(snapshot);
        proof {
            lemma_push_keeps_order(old(self)@, snap0);
            assert(self@ == old(self)@.push(snap0));
            assert forall|i: int| 0 <= i < self@.len() implies (#[trigger] self.ids.ids@[i])@
                == self@[i].id@ by {
                if i < self@.len() - 1 {
                    assert(self.ids.ids@[i] == old(self).ids.ids@[i]);
                    assert(self@[i] == old(self)@[i]);
                } else {
                    assert(self@[i] == snap0);
                    assert(self.ids.ids@[i] == id_copy);
                }
            }
        }
        self.delete_excess(max_count);
    }

    /// The snapshot with the greatest identifier, or nothing while the
    /// store is empty.
    pub fn get_last_snapshot(&self) -> (r: Option<&Snapshot>)
        requires
            self.wf(),
        ensures
            r is Some <==> self@.len() > 0,
            r matches Some(s) ==> *s == self@.last(),
            r matches Some(s) ==> forall|i: int|
                0 <= i < self@.len() ==> id_value(#[trigger] self@[i].id@) <= id_value(s.id@),
    {
        let n = self.snapshots.len();
        if n == 0 {
            None
        } else {
            let s = &self.snapshots[n - 1];
            proof {
                assert forall|i: int| 0 <= i < self@.len() implies id_value(
                    #[trigger] self@[i].id@,
                ) <= id_value(self@.last().id@) by {
                    if i < self@.len() - 1 {
                        assert(id_value(self@[i].id@) < id_value(self@[self@.len() - 1].id@));
                    }
                }
            }
            Some(s)
        }
    }

    /// The combined value map of the latest snapshot, or nothing while
    /// the store is empty.
    pub fn get_last_snapshot_value(&self) -> (r: Option<Vec<(AggregationKey, SnapshotValue)>>)
        requires
            self.wf(),
        ensures
            r is Some <==> self@.len() > 0,
            r matches Some(v) ==> v@ == self@.last().value@,
    {
        match self.get_last_snapshot() {
            Some(s) => Some(clone_value_map(&s.value)),
            None => None,
        }
    }

    /// Look a snapshot up by its identifier; identifiers compare by
    /// their decoded pairs.
    pub fn get_snapshot(&self, id: &SnapshotId) -> (r: Option<&Snapshot>)
        requires
            self.wf(),
            is_valid_id(id@),
        ensures
            r matches Some(s) ==> exists|i: int|
                0 <= i < self@.len() && self@[i] == *s && id_eq(#[trigger] self@[i].id@, id@),
            r is None ==> forall|i: int|
                0 <= i < self@.len() ==> !id_eq(#[trigger] self@[i].id@, id@),
    {
        let n = self.snapshots.len();
        let mut i: usize = 0;
        while i < n
            invariant
                self.wf(),
                is_valid_id(id@),
                n == self@.len(),
                0 <= i <= n,
                forall|j: int| 0 <= j < i ==> !id_eq(#[trigger] self@[j].id@, id@),
            decreases n - i,
        {
            let s = &self.snapshots[i];
            if matches!(s.id.compare(id), core::cmp::Ordering::Equal) {
                return Some(s);
            }
            i = i + 1;
        }
        None
    }

    /// All snapshots whose identifier timestamp lies in the inclusive
    /// millisecond window, newest first.  An empty window yields an
    /// empty result, never an error.
    ///
    /// The scan walks the ordered sequence from the newest entry
    /// backward and stops at the first entry older than the window:
    /// everything before it is older still.
    pub fn snapshots_between(&self, from: u64, to: u64) -> (r: Vec<Snapshot>)
        requires
            self.wf(),
        ensures
            snaps_eqv(r@, window_filter(self@, from, to).reverse()),
    {
        let ghost pred = |x: Snapshot| in_window(x, from, to);
        let mut out: Vec<Snapshot> = Vec::new();
        let mut idx: usize = self.snapshots.len();
        proof {
            assert(self@.subrange(idx as int, self@.len() as int) =~= Seq::<Snapshot>::empty());
            reveal(Seq::filter);
        }
        loop
            invariant
                self.wf(),
                0 <= idx <= self@.len(),
                pred == (|x: Snapshot| in_window(x, from, to)),
                snaps_eqv(
                    out@,
                    self@.subrange(idx as int, self@.len() as int).filter(pred).reverse(),
                ),
            ensures
                snaps_eqv(out@, self@.filter(pred).reverse()),
            decreases idx,
        {
            if idx == 0 {
                proof {
                    assert(self@.subrange(0, self@.len() as int) =~= self@);
                }
                break ;
            }
            let i = idx - 1;
            let ts = self.snapshots[i].id.timestamp_ms();
            let ghost tail = self@.subrange(idx as int, self@.len() as int);
            if ts < from {
                proof {
                    let head = self@.subrange(0, idx as int);
                    assert forall|j: int| 0 <= j < head.len() implies !pred(
                        #[trigger] head[j],
                    ) by {
                        assert(head[j] == self@[j]);
                        lemma_ts_monotone(self@, j, i as int);
                    }
                    lemma_filter_none(head, pred);
                    Seq::filter_distributes_over_add(head, tail, pred);
                    assert(head + tail =~= self@);
                }
                break ;
            }
            if ts <= to {
                out.push(self.snapshots[i].clone());
            }
            proof {
                let tail2 = self@.subrange(i as int, self@.len() as int);
                assert(tail2 =~= seq![self@[i as int]] + tail);
                Seq::filter_distributes_over_add(seq![self@[i as int]], tail, pred);
                lemma_filter_singleton(self@[i as int], pred);
                if pred(self@[i as int]) {
                    assert(tail2.filter(pred) == seq![self@[i as int]] + tail.filter(pred));
                    assert(tail2.filter(pred).reverse() =~= tail.filter(pred).reverse().push(
                        self@[i as int],
                    ));
                } else {
                    assert(tail2.filter(pred) == tail.filter(pred));
                }
            }
            idx = i;
        }
        out
    }

    /// The `top` newest snapshots, newest first; fewer if the store
    /// holds fewer.
    pub fn get_top_snapshots(&self, top: u64) -> (r: Vec<Snapshot>)
        requires
            self.wf(),
        ensures
            r@.len() == if top <= self@.len() {
                top as int
            } else {
                self@.len() as int
            },
            forall|m: int|
                0 <= m < r@.len() ==> snap_eqv(#[trigger] r@[m], self@[self@.len() - 1 - m]),
    {
        let n = self.snapshots.len();
        let mut out: Vec<Snapshot> = Vec::new();
        let mut taken: usize = 0;
        while taken < n && (taken as u64) < top
            invariant
                self.wf(),
                n == self@.len(),
                0 <= taken <= n,
                taken as u64 <= top,
                out@.len() == taken,
                forall|m: int|
                    0 <= m < taken ==> snap_eqv(#[trigger] out@[m], self@[self@.len() - 1 - m]),
            decreases n - taken,
        {
            out.push(self.snapshots[n - 1 - taken].clone());
            taken = taken + 1;
        }
        out
    }

    /// The value maps of the `top` newest snapshots, newest first.
    pub fn get_top_snapshot_values(&self, top: u64) -> (r: Vec<
        Vec<(AggregationKey, SnapshotValue)>,
    >)
        requires
            self.wf(),
        ensures
            r@.len() == if top <= self@.len() {
                top as int
            } else {
                self@.len() as int
            },
            forall|m: int|
                0 <= m < r@.len() ==> (#[trigger] r@[m])@ == self@[self@.len() - 1 - m].value@,
    {
        let snaps = self.get_top_snapshots(top);
        let mut out: Vec<Vec<(AggregationKey, SnapshotValue)>> = Vec::new();
        let mut i: usize = 0;
        while i < snaps.len()
            invariant
                0 <= i <= snaps@.len(),
                out@.len() == i,
                forall|m: int| 0 <= m < i ==> (#[trigger] out@[m])@ == snaps@[m].value@,
            decreases snaps@.len() - i,
        {
            out.push(clone_value_map(&snaps[i].value));
            i = i + 1;
        }
        out
    }
}

/// The millisecond timestamp embedded in a snapshot's identifier.
pub open spec fn snap_ts(s: Snapshot) -> int {
    id_timestamp(s.id@)
}

/// Whether a snapshot's timestamp lies in the inclusive window.
pub open spec fn in_window(s: Snapshot, from: u64, to: u64) -> bool {
    from <= snap_ts(s) <= to
}

/// The entries of a sequence whose timestamps lie in the window, in
/// their stored order.
pub open spec fn window_filter(s: Seq<Snapshot>, from: u64, to: u64) -> Seq<Snapshot> {
    s.filter(|x: Snapshot| in_window(x, from, to))
}

/// Pointwise equivalent sequences of snapshots.
pub open spec fn snaps_eqv(a: Seq<Snapshot>, b: Seq<Snapshot>) -> bool {
    &&& a.len() == b.len()
    &&& forall|i: int| 0 <= i < a.len() ==> snap_eqv(#[trigger] a[i], b[i])
}

/// In an ordered sequence, timestamps never decrease.
proof fn lemma_ts_monotone(s: Seq<Snapshot>, i: int, j: int)
    requires
        ids_sorted(s),
        0 <= i <= j < s.len(),
    ensures
        snap_ts(s[i]) <= snap_ts(s[j]),
{
    if i < j {
        assert(id_value(s[i].id@) < id_value(s[j].id@));
        lemma_div_is_ordered(id_value(s[i].id@), id_value(s[j].id@), RAND_SPAN as int);
    }
}

/// Filtering a sequence none of whose entries pass leaves nothing.
proof fn lemma_filter_none(s: Seq<Snapshot>, pred: spec_fn(Snapshot) -> bool)
    requires
        forall|i: int| 0 <= i < s.len() ==> !pred(#[trigger] s[i]),
    ensures
        s.filter(pred) == Seq::<Snapshot>::empty(),
    decreases s.len(),
{
    reveal(Seq::filter);
    if s.len() > 0 {
        assert(forall|i: int|
            0 <= i < s.drop_last().len() ==> !pred(#[trigger] s.drop_last()[i]));
        lemma_filter_none(s.drop_last(), pred);
        assert(!pred(s.last()));
    }
}

/// Filtering a single entry keeps it exactly when it passes.
proof fn lemma_filter_singleton(e: Snapshot, pred: spec_fn(Snapshot) -> bool)
    ensures
        seq![e].filter(pred) == if pred(e) {
            seq![e]
        } else {
            Seq::<Snapshot>::empty()
        },
{
    reveal(Seq::filter);
    assert(seq![e].drop_last() =~= Seq::<Snapshot>::empty());
    assert(seq![e].last() == e);
    assert(Seq::<Snapshot>::empty().filter(pred) == Seq::<Snapshot>::empty());
}

/// What a whole history of appends leaves behind: folding the appends
/// one by one, with eviction after each.
pub open spec fn store_after_appends(start: Seq<Snapshot>, appended: Seq<Snapshot>, max: int) -> Seq<
    Snapshot,
>
    decreases appended.len(),
{
    if appended.len() == 0 {
        start
    } else {
        retained(store_after_appends(start, appended.drop_last(), max).push(appended.last()), max)
    }
}

/// After any sequence of appends the store holds at most `max`
/// entries, and they are exactly the most recent tail of everything
/// ever appended: eviction is oldest-first and loses nothing else.
pub proof fn lemma_retention(start: Seq<Snapshot>, appended: Seq<Snapshot>, max: int)
    requires
        max >= 0,
        appended.len() >= 1,
        start.len() <= max,
    ensures
        store_after_appends(start, appended, max) == retained(start + appended, max),
        store_after_appends(start, appended, max).len() <= max,
    decreases appended.len(),
{
    let all = start + appended;
    let a = appended.last();
    if appended.len() == 1 {
        assert(store_after_appends(start, appended.drop_last(), max) == start);
        assert(start.push(a) =~= all);
    } else {
        lemma_retention(start, appended.drop_last(), max);
        let all_prev = start + appended.drop_last();
        let prev = retained(all_prev, max);
        assert(all_prev.push(a) =~= all);
        if all_prev.len() <= max {
            assert(prev.push(a) =~= all);
        } else {
            let k = all_prev.len() - max;
            assert(prev.push(a) =~= all.skip(k));
            assert(all.skip(k).len() == max + 1);
            assert(retained(all.skip(k), max) =~= all.skip(k).skip(1));
            assert(all.skip(k).skip(1) =~= all.skip(all.len() - max));
            assert(retained(all, max) =~= all.skip(all.len() - max));
        }
    }
}

} // verus!
