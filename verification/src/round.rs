//! One indexing round's pure middle: turning the tasks' replies into
//! weighted, bucketed contributions.
//!
//! The boundary fans the lens calls out and hands every reply back as
//! plain pairs; this module resolves each fetched identifier's bucket
//! and weight, groups the contributions by bucket, and leaves the
//! combining of each bucket's values to the caller.

use crate::config::str_eq;
use crate::store::{AggregationKey, SnapshotValue, TaskId};
use crate::task::{find_agg_key, find_weight, option_agg_key, option_weight, Task};
use crate::Error;
use vstd::prelude::*;

verus! {

/// One task's reply: each fetched identifier's value, where the
/// source had one.
pub type LensReply = Vec<(String, Option<SnapshotValue>)>;

/// One resolved contribution: a task's value for one fetched
/// identifier, with the bucket and weight its options assign.
#[derive(Debug, PartialEq)]
pub struct TripleEntry {
    pub key: AggregationKey,
    pub task_id: TaskId,
    pub value: SnapshotValue,
    pub weight: SnapshotValue,
}

impl Clone for TripleEntry {
    fn clone(&self) -> (r: Self)
        ensures
            r == *self,
    {
        TripleEntry {
            key: self.key.clone(),
            task_id: self.task_id.clone(),
            value: self.value,
            weight: self.weight,
        }
    }
}

/// A contribution reduced to text and numbers.
pub type TripleV = (Seq<char>, Seq<char>, SnapshotValue, SnapshotValue);

/// The view of one contribution.
pub open spec fn triple_view(t: TripleEntry) -> TripleV {
    (t.key@, t.task_id@, t.value, t.weight)
}

/// The views of a listing of contributions.
pub open spec fn triples_view(s: Seq<TripleEntry>) -> Seq<TripleV> {
    s.map_values(|t: TripleEntry| triple_view(t))
}

/// A missing value counts as zero.
pub open spec fn value_or_zero(v: Option<SnapshotValue>) -> SnapshotValue {
    match v {
        Option::Some(x) => x,
        Option::None => 0,
    }
}

/// The contribution a task derives from one reply pair.
pub open spec fn mk_triple(t: Task, pair: (String, Option<SnapshotValue>)) -> TripleV {
    (
        find_agg_key(t.options.options@, pair.0@),
        t.id@,
        value_or_zero(pair.1),
        find_weight(t.options.options@, pair.0@),
    )
}

/// All contributions a task derives from its reply, in reply order.
pub open spec fn task_triples(t: Task, reply: Seq<(String, Option<SnapshotValue>)>) -> Seq<
    TripleV,
> {
    Seq::new(reply.len(), |j: int| mk_triple(t, reply[j]))
}

/// All tasks' contributions, task by task in registration order.
pub open spec fn flat_triples(
    tasks: Seq<Task>,
    replies: Seq<Seq<(String, Option<SnapshotValue>)>>,
) -> Seq<TripleV>
    decreases tasks.len(),
{
    if tasks.len() == 0 || replies.len() == 0 {
        Seq::empty()
    } else {
        flat_triples(tasks.drop_last(), replies.drop_last()) + task_triples(
            tasks.last(),
            replies.last(),
        )
    }
}

/// The views of a listing of replies.
pub open spec fn replies_view(rs: Seq<LensReply>) -> Seq<Seq<(String, Option<SnapshotValue>)>> {
    rs.map_values(|r: LensReply| r@)
}

/// Keep a round only when every source answered: a single failed call
/// invalidates the whole round, and nothing of it is committed.
pub fn collect_round(outcomes: Vec<Option<LensReply>>) -> (r: Result<Vec<LensReply>, Error>)
    ensures
        r is Ok <==> (forall|i: int| 0 <= i < outcomes@.len() ==> (#[trigger] outcomes@[i]) is Some),
        r matches Ok(rs) ==> rs@.len() == outcomes@.len() && forall|i: int|
            0 <= i < outcomes@.len() ==> #[trigger] outcomes@[i] == Some(rs@[i]),
        r matches Err(e) ==> e == Error::TransportError,
{
    let mut rest = outcomes;
    let mut rs: Vec<LensReply> = Vec::new();
    let ghost all = rest@;
    let ghost mut i: int = 0;
    while rest.len() > 0
        invariant
            all == outcomes@,
            0 <= i,
            i + rest@.len() == all.len(),
            rest@ == all.skip(i),
            rs@.len() == i,
            forall|j: int| 0 <= j < i ==> #[trigger] all[j] == Some(rs@[j]),
        decreases rest@.len(),
    {
        let reply = rest.remove(0);
        proof {
            assert(all.skip(i)[0] == all[i]);
            assert(all.skip(i).remove(0) =~= all.skip(i + 1));
        }
        match reply {
            Some(v) => {
                rs.push(v);
            },
            None => {
                proof {
                    assert(all[i] is None);
                }
                return Err(Error::TransportError);
            },
        }
        proof {
            i = i + 1;
        }
    }
    proof {
        assert(all.skip(i).len() == 0);
    }
    Ok(rs)
}

/// Resolve every reply pair to its contribution, task by task.
pub fn resolve_triples(tasks: &Vec<Task>, replies: &Vec<LensReply>) -> (r: Vec<TripleEntry>)
    requires
        tasks@.len() == replies@.len(),
    ensures
        triples_view(r@) == flat_triples(tasks@, replies_view(replies@)),
{
    let mut out: Vec<TripleEntry> = Vec::new();
    let n = tasks.len();
    proof {
        lemma_flat_triples_take(tasks@, replies_view(replies@), 0);
        assert(triples_view(out@) =~= flat_triples(
            tasks@.take(0),
            replies_view(replies@).take(0),
        ));
    }
    let mut ti: usize = 0;
    while ti < n
        invariant
            tasks@.len() == replies@.len(),
            n == tasks@.len(),
            0 <= ti <= n,
            triples_view(out@) == flat_triples(
                tasks@.take(ti as int),
                replies_view(replies@).take(ti as int),
            ),
        decreases n - ti,
    {
        let t = &tasks[ti];
        let reply = &replies[ti];
        let mut j: usize = 0;
        proof {
            assert(task_triples(*t, reply@.take(0)) =~= Seq::<TripleV>::empty());
            assert(triples_view(out@) + task_triples(*t, reply@.take(0)) =~= triples_view(out@));
        }
        let ghost out_before = out@;
        while j < reply.len()
            invariant
                tasks@.len() == replies@.len(),
                n == tasks@.len(),
                0 <= ti < n,
                0 <= j <= reply@.len(),
                *t == tasks@[ti as int],
                *reply == replies@[ti as int],
                triples_view(out@) == triples_view(out_before) + task_triples(
                    *t,
                    reply@.take(j as int),
                ),
            decreases reply@.len() - j,
        {
            let pair = &reply[j];
            let key = option_agg_key(t, pair.0.as_str());
            let weight = option_weight(t, pair.0.as_str());
            let value = match pair.1 {
                Some(v) => v,
                None => 0,
            };
            let entry = TripleEntry { key, task_id: t.id.clone(), value, weight };
            let ghost ge = entry;
            let ghost prev = out@;
            proof {
                assert(triple_view(ge) == mk_triple(*t, reply@[j as int]));
            }
            out.push(entry);
            proof {
                assert(out@ == prev.push(ge));
                assert(triples_view(out@) =~= triples_view(prev).push(triple_view(ge)));
                assert(task_triples(*t, reply@.take(j + 1)) =~= task_triples(
                    *t,
                    reply@.take(j as int),
                ).push(mk_triple(*t, reply@[j as int])));
                assert(triples_view(out@) =~= triples_view(out_before) + task_triples(
                    *t,
                    reply@.take(j + 1),
                ));
            }
            j = j + 1;
        }
        proof {
            assert(reply@.take(reply@.len() as int) =~= reply@);
            lemma_flat_triples_take(tasks@, replies_view(replies@), ti as int + 1);
            assert(replies_view(replies@)[ti as int] == replies@[ti as int]@);
            assert(triples_view(out@) =~= flat_triples(
                tasks@.take(ti + 1),
                replies_view(replies@).take(ti + 1),
            ));
        }
        ti = ti + 1;
    }
    proof {
        assert(tasks@.take(n as int) =~= tasks@);
        assert(replies_view(replies@).take(n as int) =~= replies_view(replies@));
    }
    out
}

/// A bucket's gathered contributions, in arrival order.
#[derive(Debug, PartialEq)]
pub struct ScoreGroup {
    pub key: AggregationKey,
    pub entries: Vec<TripleEntry>,
}

/// The distinct bucket keys of a listing of contributions, each in
/// the order its bucket first appears.
pub open spec fn group_keys(ts: Seq<TripleV>) -> Seq<Seq<char>>
    decreases ts.len(),
{
    if ts.len() == 0 {
        Seq::empty()
    } else {
        let ks = group_keys(ts.drop_last());
        if ks.contains(ts.last().0) {
            ks
        } else {
            ks.push(ts.last().0)
        }
    }
}

/// The contributions that fall into one bucket, in arrival order.
pub open spec fn key_filter(ts: Seq<TripleV>, k: Seq<char>) -> Seq<TripleV> {
    ts.filter(|t: TripleV| t.0 == k)
}

/// The views of a listing of bucket keys.
pub open spec fn keys_view(s: Seq<AggregationKey>) -> Seq<Seq<char>> {
    s.map_values(|k: AggregationKey| k@)
}

/// The position of a key in a listing, if it is there.
fn key_index(keys: &Vec<AggregationKey>, k: &str) -> (r: Option<usize>)
    ensures
        r matches Some(idx) ==> idx < keys@.len() && (keys@[idx as int])@ == k@,
        r is None ==> forall|j: int| 0 <= j < keys@.len() ==> (#[trigger] keys@[j])@ != k@,
{
    let mut i: usize = 0;
    while i < keys.len()
        invariant
            0 <= i <= keys@.len(),
            forall|j: int| 0 <= j < i ==> (#[trigger] keys@[j])@ != k@,
        decreases keys@.len() - i,
    {
        if str_eq(keys[i].as_str(), k) {
            return Some(i);
        }
        i = i + 1;
    }
    None
}

/// Taking one more contribution keeps the key listing, or appends the
/// contribution's key when its bucket is new.
proof fn lemma_group_keys_take_step(ts: Seq<TripleV>, j: int)
    requires
        0 <= j < ts.len(),
    ensures
        group_keys(ts.take(j + 1)) == (if group_keys(ts.take(j)).contains(ts[j].0) {
            group_keys(ts.take(j))
        } else {
            group_keys(ts.take(j)).push(ts[j].0)
        }),
{
    assert(ts.take(j + 1).drop_last() =~= ts.take(j));
    assert(ts.take(j + 1).last() == ts[j]);
}

/// Filtering one more contribution keeps the bucket's listing, or
/// appends the contribution when it falls into the bucket.
proof fn lemma_key_filter_take_step(ts: Seq<TripleV>, j: int, k: Seq<char>)
    requires
        0 <= j < ts.len(),
    ensures
        key_filter(ts.take(j + 1), k) == (if ts[j].0 == k {
            key_filter(ts.take(j), k).push(ts[j])
        } else {
            key_filter(ts.take(j), k)
        }),
{
    reveal(Seq::filter);
    assert(ts.take(j + 1).drop_last() =~= ts.take(j));
    assert(ts.take(j + 1).last() == ts[j]);
}

/// Gather the contributions bucket by bucket: one group per distinct
/// key, in first-appearance order; each group lists its bucket's
/// contributions in arrival order.
pub fn group_triples(triples: &Vec<TripleEntry>) -> (r: Vec<ScoreGroup>)
    ensures
        ({
            let tv = triples_view(triples@);
            &&& r@.len() == group_keys(tv).len()
            &&& forall|g: int| 0 <= g < r@.len() ==> (#[trigger] r@[g]).key@ == group_keys(tv)[g]
            &&& forall|g: int|
                0 <= g < r@.len() ==> triples_view((#[trigger] r@[g]).entries@) == key_filter(
                    tv,
                    group_keys(tv)[g],
                )
        }),
{
    let ghost tv = triples_view(triples@);
    let n = triples.len();
    let mut keys: Vec<AggregationKey> = Vec::new();
    proof {
        assert(tv.take(0).len() == 0);
        assert(keys_view(keys@) =~= group_keys(tv.take(0)));
    }
    let mut j: usize = 0;
    while j < n
        invariant
            tv == triples_view(triples@),
            n == triples@.len(),
            n == tv.len(),
            0 <= j <= n,
            keys_view(keys@) == group_keys(tv.take(j as int)),
        decreases n - j,
    {
        let idx = key_index(&keys, triples[j].key.as_str());
        proof {
            assert(tv[j as int] == triple_view(triples@[j as int]));
            lemma_group_keys_take_step(tv, j as int);
            match idx {
                Option::Some(g) => {
                    assert(keys_view(keys@)[g as int] == tv[j as int].0);
                    assert(group_keys(tv.take(j as int)).contains(tv[j as int].0));
                },
                Option::None => {
                    if group_keys(tv.take(j as int)).contains(tv[j as int].0) {
                        let w = choose|w: int|
                            0 <= w < group_keys(tv.take(j as int)).len() && group_keys(
                                tv.take(j as int),
                            )[w] == tv[j as int].0;
                        assert((keys@[w])@ == tv[j as int].0);
                    }
                },
            }
        }
        if idx.is_none() {
            let ghost prev = keys@;
            keys.push(triples[j].key.clone());
            proof {
                assert(keys_view(keys@) =~= keys_view(prev).push(tv[j as int].0));
            }
        }
        j = j + 1;
    }
    proof {
        assert(tv.take(n as int) =~= tv);
    }
    let mut r: Vec<ScoreGroup> = Vec::new();
    let mut g: usize = 0;
    while g < keys.len()
        invariant
            tv == triples_view(triples@),
            n == triples@.len(),
            n == tv.len(),
            keys_view(keys@) == group_keys(tv),
            0 <= g <= keys@.len(),
            r@.len() == g,
            forall|h: int| 0 <= h < g ==> (#[trigger] r@[h]).key@ == group_keys(tv)[h],
            forall|h: int|
                0 <= h < g ==> triples_view((#[trigger] r@[h]).entries@) == key_filter(
                    tv,
                    group_keys(tv)[h],
                ),
        decreases keys@.len() - g,
    {
        let key = &keys[g];
        let mut entries: Vec<TripleEntry> = Vec::new();
        proof {
            assert(tv.take(0).len() == 0);
            reveal(Seq::filter);
            assert(triples_view(entries@) =~= key_filter(tv.take(0), key@));
        }
        let mut j: usize = 0;
        while j < n
            invariant
                tv == triples_view(triples@),
                n == triples@.len(),
                n == tv.len(),
                0 <= j <= n,
                *key == keys@[g as int],
                0 <= g < keys@.len(),
                triples_view(entries@) == key_filter(tv.take(j as int), key@),
            decreases n - j,
        {
            let matches_key = str_eq(triples[j].key.as_str(), key.as_str());
            proof {
                assert(tv[j as int] == triple_view(triples@[j as int]));
                lemma_key_filter_take_step(tv, j as int, key@);
            }
            if matches_key {
                let ghost prev = entries@;
                entries.push(triples[j].clone());
                proof {
                    assert(triples_view(entries@) =~= triples_view(prev).push(tv[j as int]));
                }
            }
            j = j + 1;
        }
        proof {
            assert(tv.take(n as int) =~= tv);
            assert(key@ == keys_view(keys@)[g as int]);
        }
        r.push(ScoreGroup { key: key.clone(), entries });
        g = g + 1;
    }
    r
}

/// Taking one more task appends exactly that task's contributions.
proof fn lemma_flat_triples_take(
    tasks: Seq<Task>,
    replies: Seq<Seq<(String, Option<SnapshotValue>)>>,
    i: int,
)
    requires
        tasks.len() == replies.len(),
        0 <= i <= tasks.len(),
    ensures
        i == 0 ==> flat_triples(tasks.take(0), replies.take(0)) == Seq::<TripleV>::empty(),
        i > 0 ==> flat_triples(tasks.take(i), replies.take(i)) == flat_triples(
            tasks.take(i - 1),
            replies.take(i - 1),
        ) + task_triples(tasks[i - 1], replies[i - 1]),
{
    if i == 0 {
        assert(tasks.take(0).len() == 0);
    } else {
        let ta = tasks.take(i);
        let re = replies.take(i);
        assert(ta.len() == i);
        assert(re.len() == i);
        assert(ta.drop_last() =~= tasks.take(i - 1));
        assert(re.drop_last() =~= replies.take(i - 1));
        assert(ta.last() == tasks[i - 1]);
        assert(re.last() == replies[i - 1]);
    }
}

} // verus!
