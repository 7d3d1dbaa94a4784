//! Daily completion of a source's raw history.
//!
//! A lens reads a window of raw snapshots from a source service and
//! scores one value per day.  Sources skip days without activity, so
//! before scoring, the read history is completed: every day of the
//! window gets an entry, the day's last snapshot where one exists and
//! an empty one where none does.

use vstd::prelude::*;

verus! {

/// The day a nanosecond timestamp falls on, counted from the epoch:
/// seconds, minutes, hours, then days.
pub open spec fn date_of_nanos(n: int) -> int {
    (((n / 1_000_000_000) / 60) / 60) / 24
}

/// A calendar day, counted from the epoch.
#[derive(Clone, Copy, PartialEq, Eq, Structural, PartialOrd, Ord, Hash, Debug)]
pub struct Date {
    pub inner: i64,
}

impl Date {
    /// The day a nanosecond timestamp falls on.
    pub fn new(nanosecs: i64) -> (r: Date)
        requires
            nanosecs >= 0,
        ensures
            r.inner == date_of_nanos(nanosecs as int),
    {
        let seconds = (nanosecs as u64) / 1_000_000_000;
        let minutes = seconds / 60;
        let hours = minutes / 60;
        let days = hours / 24;
        proof {
            vstd::arithmetic::div_mod::lemma_div_is_ordered_by_denominator(nanosecs as int, 1, 1_000_000_000);
            vstd::arithmetic::div_mod::lemma_div_is_ordered_by_denominator(seconds as int, 1, 60);
            vstd::arithmetic::div_mod::lemma_div_is_ordered_by_denominator(minutes as int, 1, 60);
            vstd::arithmetic::div_mod::lemma_div_is_ordered_by_denominator(hours as int, 1, 24);
        }
        Date { inner: days as i64 }
    }

    /// The following day.
    pub fn next(&self) -> (r: Date)
        requires
            self.inner < i64::MAX,
        ensures
            r.inner == self.inner + 1,
    {
        Date { inner: self.inner + 1 }
    }
}

/// A raw snapshot's identifier at the source.
#[derive(Debug, PartialEq)]
pub struct SnapshotId {
    pub id: String,
}

impl Clone for SnapshotId {
    fn clone(&self) -> (r: Self)
        ensures
            r == *self,
    {
        SnapshotId { id: self.id.clone() }
    }
}

/// A raw snapshot's payload: bytes whose decoding belongs to the
/// boundary that scores them.
#[derive(Debug, PartialEq)]
pub struct SnapshotValue {
    pub raw: Vec<u8>,
}

impl Clone for SnapshotValue {
    fn clone(&self) -> (r: Self)
        ensures
            r.raw@ == self.raw@,
    {
        SnapshotValue { raw: clone_bytes(&self.raw) }
    }
}

/// Copy a byte listing.
pub fn clone_bytes(v: &Vec<u8>) -> (r: Vec<u8>)
    ensures
        r@ == v@,
{
    let mut r: Vec<u8> = Vec::new();
    let mut i: usize = 0;
    while i < v.len()
        invariant
            0 <= i <= v@.len(),
            r@ == v@.take(i as int),
        decreases v@.len() - i,
    {
        r.push(v[i]);
        proof {
            assert(v@.take(i + 1) =~= v@.take(i as int).push(v@[i as int]));
        }
        i = i + 1;
    }
    proof {
        assert(v@.take(v@.len() as int) =~= v@);
    }
    r
}

/// One raw snapshot read from a source.
#[derive(Debug, PartialEq)]
pub struct Snapshot {
    pub id: SnapshotId,
    pub value: SnapshotValue,
    pub timestamp: u64,
}

impl Clone for Snapshot {
    fn clone(&self) -> (r: Self)
        ensures
            source_snap_eqv(r, *self),
    {
        Snapshot {
            id: self.id.clone(),
            value: self.value.clone(),
            timestamp: self.timestamp,
        }
    }
}

impl Default for Snapshot {
    /// An empty snapshot, standing in for a day without activity.
    fn default() -> (r: Self)
        ensures
            is_default_snapshot(r),
    {
        Snapshot {
            id: SnapshotId { id: String::new() },
            value: SnapshotValue { raw: Vec::new() },
            timestamp: 0,
        }
    }
}

/// Two raw snapshots with the same identifier, payload and time.
pub open spec fn source_snap_eqv(a: Snapshot, b: Snapshot) -> bool {
    &&& a.id == b.id
    &&& a.value.raw@ == b.value.raw@
    &&& a.timestamp == b.timestamp
}

/// An empty snapshot: no identifier, no payload, time zero.
pub open spec fn is_default_snapshot(s: Snapshot) -> bool {
    &&& s.id.id@ == Seq::<char>::empty()
    &&& s.value.raw@ == Seq::<u8>::empty()
    &&& s.timestamp == 0
}

/// The last read snapshot falling on a day, if any: later reads of
/// one day replace earlier ones.
pub open spec fn last_for_date(ds: Seq<Snapshot>, d: int) -> Option<Snapshot>
    decreases ds.len(),
{
    if ds.len() == 0 {
        None
    } else if date_of_nanos(ds.last().timestamp as int) == d {
        Some(ds.last())
    } else {
        last_for_date(ds.drop_last(), d)
    }
}

/// Complete a window of read snapshots to one entry per day, in day
/// order: a day's last read snapshot, or an empty one for a day the
/// source skipped.
pub fn complement_datasets(datasets: Vec<Snapshot>, ts_first: u64, ts_last: u64) -> (r: Vec<
    Snapshot,
>)
    requires
        ts_first <= ts_last,
        ts_last <= i64::MAX,
        forall|i: int| 0 <= i < datasets@.len() ==> (#[trigger] datasets@[i]).timestamp <= i64::MAX,
        forall|i: int|
            0 <= i < datasets@.len() ==> date_of_nanos(ts_first as int) <= date_of_nanos(
                (#[trigger] datasets@[i]).timestamp as int,
            ) <= date_of_nanos(ts_last as int),
    ensures
        r@.len() == date_of_nanos(ts_last as int) - date_of_nanos(ts_first as int) + 1,
        forall|k: int|
            0 <= k < r@.len() ==> match last_for_date(
                datasets@,
                date_of_nanos(ts_first as int) + k,
            ) {
                Option::Some(s) => source_snap_eqv(#[trigger] r@[k], s),
                Option::None => is_default_snapshot(#[trigger] r@[k]),
            },
{
    let date_from = Date::new(ts_first as i64);
    let date_to = Date::new(ts_last as i64);
    proof {
        vstd::arithmetic::div_mod::lemma_div_is_ordered(
            ts_first as int,
            ts_last as int,
            1_000_000_000,
        );
        vstd::arithmetic::div_mod::lemma_div_is_ordered(
            (ts_first as int) / 1_000_000_000,
            (ts_last as int) / 1_000_000_000,
            60,
        );
        vstd::arithmetic::div_mod::lemma_div_is_ordered(
            ((ts_first as int) / 1_000_000_000) / 60,
            ((ts_last as int) / 1_000_000_000) / 60,
            60,
        );
        vstd::arithmetic::div_mod::lemma_div_is_ordered(
            (((ts_first as int) / 1_000_000_000) / 60) / 60,
            (((ts_last as int) / 1_000_000_000) / 60) / 60,
            24,
        );
        vstd::arithmetic::div_mod::lemma_div_is_ordered(
            ts_last as int,
            i64::MAX as int,
            1_000_000_000,
        );
        vstd::arithmetic::div_mod::lemma_div_is_ordered(
            (ts_last as int) / 1_000_000_000,
            (i64::MAX as int) / 1_000_000_000,
            60,
        );
        vstd::arithmetic::div_mod::lemma_div_is_ordered(
            ((ts_last as int) / 1_000_000_000) / 60,
            ((i64::MAX as int) / 1_000_000_000) / 60,
            60,
        );
        vstd::arithmetic::div_mod::lemma_div_is_ordered(
            (((ts_last as int) / 1_000_000_000) / 60) / 60,
            (((i64::MAX as int) / 1_000_000_000) / 60) / 60,
            24,
        );
        assert(date_of_nanos(ts_last as int) <= 200_000);
    }
    let span = (date_to.inner - date_from.inner) as u64 + 1;
    let mut r: Vec<Snapshot> = Vec::new();
    let mut k: u64 = 0;
    while k < span
        invariant
            0 <= date_from.inner <= date_to.inner <= 200_000,
            span == date_to.inner - date_from.inner + 1,
            0 <= k <= span,
            r@.len() == k,
            forall|i: int|
                0 <= i < datasets@.len() ==> (#[trigger] datasets@[i]).timestamp <= i64::MAX,
            forall|i: int|
                0 <= i < k ==> match last_for_date(datasets@, date_from.inner + i) {
                    Option::Some(s) => source_snap_eqv(#[trigger] r@[i], s),
                    Option::None => is_default_snapshot(#[trigger] r@[i]),
                },
        decreases span - k,
    {
        let day = date_from.inner + k as i64;
        let entry = find_last_for_day(&datasets, day);
        r.push(entry);
        k = k + 1;
    }
    r
}

/// The last read snapshot of one day, or an empty one.
fn find_last_for_day(datasets: &Vec<Snapshot>, day: i64) -> (r: Snapshot)
    requires
        forall|i: int| 0 <= i < datasets@.len() ==> (#[trigger] datasets@[i]).timestamp <= i64::MAX,
    ensures
        match last_for_date(datasets@, day as int) {
            Option::Some(s) => source_snap_eqv(r, s),
            Option::None => is_default_snapshot(r),
        },
{
    let mut j: usize = datasets.len();
    proof {
        assert(datasets@.take(datasets@.len() as int) =~= datasets@);
    }
    while j > 0
        invariant
            0 <= j <= datasets@.len(),
            forall|i: int|
                0 <= i < datasets@.len() ==> (#[trigger] datasets@[i]).timestamp <= i64::MAX,
            last_for_date(datasets@, day as int) == last_for_date(
                datasets@.take(j as int),
                day as int,
            ),
        decreases j,
    {
        let i = j - 1;
        let s = &datasets[i];
        proof {
            assert(datasets@.take(j as int).last() == datasets@[i as int]);
            assert(datasets@.take(j as int).drop_last() =~= datasets@.take(i as int));
        }
        let ts = s.timestamp;
        let d = Date::new(ts as i64);
        if d.inner == day {
            return s.clone();
        }
        j = i;
    }
    proof {
        assert(datasets@.take(0).len() == 0);
    }
    Snapshot {
        id: SnapshotId { id: String::new() },
        value: SnapshotValue { raw: Vec::new() },
        timestamp: 0,
    }
}

} // verus!
