//! The task registry: the units of work an indexing round fans out to.
//!
//! A task names a lens service to call and a source service for
//! context, and carries fetch options that assign each fetched
//! identifier an aggregation bucket and a weight.  Options left
//! unnamed fall back to the default weight and the global bucket.

use crate::config::{str_eq, Key};
use crate::store::{AggregationKey, SnapshotValue, TaskId};
use vstd::prelude::*;

verus! {

/// The stored encoding of the default weight of one, used wherever a
/// task names no weight for a fetched identifier.
pub const DEFAULT_WEIGHT: SnapshotValue = 0x3FF0_0000_0000_0000;

/// Nanoseconds in one second.
pub const NANOS_PER_SEC: u64 = 1_000_000_000;

/// The identifiers a task asks its lens for.
#[derive(Debug, PartialEq)]
pub struct TaskArgs {
    pub id: String,
    pub ids: Vec<String>,
}

/// Copy a listing of strings.
pub fn clone_string_vec(v: &Vec<String>) -> (r: Vec<String>)
    ensures
        r@ == v@,
{
    let mut r: Vec<String> = Vec::new();
    let mut i: usize = 0;
    while i < v.len()
        invariant
            0 <= i <= v@.len(),
            r@ == v@.take(i as int),
        decreases v@.len() - i,
    {
        r.push(v[i].clone());
        proof {
            assert(v@.take(i + 1) =~= v@.take(i as int).push(v@[i as int]));
        }
        i = i + 1;
    }
    proof {
        assert(v@.take(v@.len() as int) =~= v@);
    }
    r
}

impl Clone for TaskArgs {
    fn clone(&self) -> (r: Self)
        ensures
            r.id == self.id,
            r.ids@ == self.ids@,
    {
        TaskArgs { id: self.id.clone(), ids: clone_string_vec(&self.ids) }
    }
}

/// How a fetched value is weighted when scores are combined.
#[derive(Debug, PartialEq)]
pub struct CalculationStragety {
    pub weight: SnapshotValue,
}

impl Clone for CalculationStragety {
    fn clone(&self) -> (r: Self)
        ensures
            r == *self,
    {
        CalculationStragety { weight: self.weight }
    }
}

impl Default for CalculationStragety {
    fn default() -> (r: Self)
        ensures
            r.weight == DEFAULT_WEIGHT,
    {
        CalculationStragety { weight: DEFAULT_WEIGHT }
    }
}

/// One fetched identifier's aggregation bucket and weight.
#[derive(Debug, PartialEq)]
pub struct FetchOption {
    pub id_to_fetch: String,
    pub aggregation_key: AggregationKey,
    pub strategy: CalculationStragety,
}

impl Clone for FetchOption {
    fn clone(&self) -> (r: Self)
        ensures
            r == *self,
    {
        FetchOption {
            id_to_fetch: self.id_to_fetch.clone(),
            aggregation_key: self.aggregation_key.clone(),
            strategy: self.strategy.clone(),
        }
    }
}

/// A task's fetch options, scanned first match wins.
#[derive(Debug, PartialEq)]
pub struct TaskOptions {
    pub options: Vec<FetchOption>,
}

/// Copy a listing of fetch options.
pub fn clone_options(v: &Vec<FetchOption>) -> (r: Vec<FetchOption>)
    ensures
        r@ == v@,
{
    let mut r: Vec<FetchOption> = Vec::new();
    let mut i: usize = 0;
    while i < v.len()
        invariant
            0 <= i <= v@.len(),
            r@ == v@.take(i as int),
        decreases v@.len() - i,
    {
        r.push(v[i].clone());
        proof {
            assert(v@.take(i + 1) =~= v@.take(i as int).push(v@[i as int]));
        }
        i = i + 1;
    }
    proof {
        assert(v@.take(v@.len() as int) =~= v@);
    }
    r
}

impl Clone for TaskOptions {
    fn clone(&self) -> (r: Self)
        ensures
            r.options@ == self.options@,
    {
        TaskOptions { options: clone_options(&self.options) }
    }
}

/// A registered unit of work.  The lens and source services are
/// carried by their textual principals; only the boundary that makes
/// the remote call gives them any other form.
#[derive(Debug, PartialEq)]
pub struct Task {
    pub id: TaskId,
    pub lens: String,
    pub args: TaskArgs,
    pub source: String,
    pub strategy: CalculationStragety,
    pub options: TaskOptions,
}

/// Two tasks with the same name, services and listed options.
pub open spec fn task_eqv(a: Task, b: Task) -> bool {
    &&& a.id == b.id
    &&& a.lens == b.lens
    &&& a.source == b.source
    &&& a.args.id == b.args.id
    &&& a.args.ids@ == b.args.ids@
    &&& a.strategy == b.strategy
    &&& a.options.options@ == b.options.options@
}

impl Clone for Task {
    fn clone(&self) -> (r: Self)
        ensures
            task_eqv(r, *self),
    {
        Task {
            id: self.id.clone(),
            lens: self.lens.clone(),
            args: self.args.clone(),
            source: self.source.clone(),
            strategy: self.strategy.clone(),
            options: self.options.clone(),
        }
    }
}

/// The window and identifiers handed to a lens service for one call.
#[derive(Debug, PartialEq)]
pub struct Args {
    pub id: String,
    pub ids: Vec<String>,
    pub from: Option<i64>,
    pub to: Option<i64>,
}

/// A lens call: its arguments and the source services for context.
#[derive(Debug, PartialEq)]
pub struct LensArgs {
    pub args: Args,
    pub targets: Vec<String>,
}

impl Task {
    /// The lens call a task makes over the lookback window ending
    /// now.  The window's ends are nanosecond timestamps.
    pub fn to_lens_args(&self, duration_secs: u64, now_ns: u64) -> (r: LensArgs)
        requires
            duration_secs * NANOS_PER_SEC <= now_ns,
            now_ns <= i64::MAX,
        ensures
            r.args.from == Some((now_ns - duration_secs * NANOS_PER_SEC) as i64),
            r.args.to == Some(now_ns as i64),
            r.args.id == self.args.id,
            r.args.ids@ == self.args.ids@,
            r.targets@ == seq![self.source],
    {
        let duration_nanosecs = duration_secs * NANOS_PER_SEC;
        let from = (now_ns - duration_nanosecs) as i64;
        let mut targets: Vec<String> = Vec::new();
        targets.push(self.source.clone());
        proof {
            assert(targets@ =~= seq![self.source]);
        }
        LensArgs {
            args: Args {
                id: self.args.id.clone(),
                ids: clone_string_vec(&self.args.ids),
                from: Some(from),
                to: Some(now_ns as i64),
            },
            targets,
        }
    }
}

/// The weight a task's options give a fetched identifier: the first
/// matching option's weight, or the default where none matches.
pub open spec fn find_weight(opts: Seq<FetchOption>, fetch: Seq<char>) -> SnapshotValue
    decreases opts.len(),
{
    if opts.len() == 0 {
        DEFAULT_WEIGHT
    } else if opts[0].id_to_fetch@ == fetch {
        opts[0].strategy.weight
    } else {
        find_weight(opts.skip(1), fetch)
    }
}

/// The bucket a task's options give a fetched identifier: the first
/// matching option's key, or the global empty bucket.
pub open spec fn find_agg_key(opts: Seq<FetchOption>, fetch: Seq<char>) -> Seq<char>
    decreases opts.len(),
{
    if opts.len() == 0 {
        Seq::empty()
    } else if opts[0].id_to_fetch@ == fetch {
        opts[0].aggregation_key@
    } else {
        find_agg_key(opts.skip(1), fetch)
    }
}

/// The weight a task gives a fetched identifier, first match wins.
pub fn option_weight(t: &Task, fetch_key: &str) -> (w: SnapshotValue)
    ensures
        w == find_weight(t.options.options@, fetch_key@),
{
    let opts = &t.options.options;
    proof {
        assert(opts@.skip(0) =~= opts@);
    }
    let mut i: usize = 0;
    while i < opts.len()
        invariant
            0 <= i <= opts@.len(),
            opts@ == t.options.options@,
            find_weight(opts@, fetch_key@) == find_weight(opts@.skip(i as int), fetch_key@),
        decreases opts@.len() - i,
    {
        let found = str_eq(opts[i].id_to_fetch.as_str(), fetch_key);
        proof {
            assert(opts@.skip(i as int)[0] == opts@[i as int]);
            assert(opts@.skip(i as int).skip(1) =~= opts@.skip(i + 1));
        }
        if found {
            return opts[i].strategy.weight;
        }
        i = i + 1;
    }
    proof {
        assert(opts@.skip(opts@.len() as int).len() == 0);
    }
    DEFAULT_WEIGHT
}

/// The bucket a task gives a fetched identifier, first match wins.
pub fn option_agg_key(t: &Task, id_to_fetch: &str) -> (k: AggregationKey)
    ensures
        k@ == find_agg_key(t.options.options@, id_to_fetch@),
{
    let opts = &t.options.options;
    proof {
        assert(opts@.skip(0) =~= opts@);
    }
    let mut i: usize = 0;
    while i < opts.len()
        invariant
            0 <= i <= opts@.len(),
            opts@ == t.options.options@,
            find_agg_key(opts@, id_to_fetch@) == find_agg_key(opts@.skip(i as int), id_to_fetch@),
        decreases opts@.len() - i,
    {
        let found = str_eq(opts[i].id_to_fetch.as_str(), id_to_fetch);
        proof {
            assert(opts@.skip(i as int)[0] == opts@[i as int]);
            assert(opts@.skip(i as int).skip(1) =~= opts@.skip(i + 1));
        }
        if found {
            return opts[i].aggregation_key.clone();
        }
        i = i + 1;
    }
    proof {
        assert(opts@.skip(opts@.len() as int).len() == 0);
    }
    String::new()
}

/// The registered task under a name, if any.
pub open spec fn task_get(s: Seq<Task>, id: Seq<char>) -> Option<Task> {
    if exists|i: int| 0 <= i < s.len() && (#[trigger] s[i]).id@ == id {
        let i = choose|i: int| 0 <= i < s.len() && (#[trigger] s[i]).id@ == id;
        Some(s[i])
    } else {
        None
    }
}

/// The task registry, keyed by task name.
pub struct TaskStore {
    pub tasks: Vec<Task>,
}

impl View for TaskStore {
    type V = Seq<Task>;

    open spec fn view(&self) -> Seq<Task> {
        self.tasks@
    }
}

impl TaskStore {
    /// Task names are registered at most once.
    pub open spec fn wf(&self) -> bool {
        forall|i: int, j: int|
            0 <= i < j < self@.len() ==> (#[trigger] self@[i]).id@ != (#[trigger] self@[j]).id@
    }

    /// An empty registry.
    pub fn new() -> (s: Self)
        ensures
            s.wf(),
            s@.len() == 0,
    {
        TaskStore { tasks: Vec::new() }
    }

    /// Register a task, replacing any task of the same name.  Every
    /// other registration is untouched.
    pub fn add_task(&mut self, task: Task)
        requires
            old(self).wf(),
        ensures
            final(self).wf(),
            task_get(final(self)@, task.id@) == Some(task),
            forall|k: Seq<char>| k != task.id@ ==> task_get(final(self)@, k) == task_get(old(self)@, k),
    {
        let ghost gt = task;
        let n = self.tasks.len();
        let mut i: usize = 0;
        while i < n
            invariant
                self.wf(),
                self@ == old(self)@,
                n == self@.len(),
                0 <= i <= n,
                gt == task,
                forall|j: int| 0 <= j < i ==> (#[trigger] self@[j]).id@ != gt.id@,
        decreases n - i,
        {
            let found = str_eq(self.tasks[i].id.as_str(), task.id.as_str());
            if found {
                proof {
                    assert(self@[i as int].id@ == gt.id@);
                }
                self.tasks.remove(i);
                self.tasks.insert(i, task);
                proof {
                    assert(self@ =~= old(self)@.remove(i as int).insert(i as int, gt));
                    assert(self@ =~= old(self)@.update(i as int, gt));
                    assert(old(self)@[i as int].id@ == gt.id@);
                    lemma_task_get_update(old(self)@, self@, i as int, gt);
                }
                return ;
            }
            i = i + 1;
        }
        self.tasks.push(task);
        proof {
            assert(self@ =~= old(self)@.push(gt));
            lemma_task_get_push(old(self)@, self@, gt);
        }
    }

    /// Strike a task from the registry; a name not registered is left
    /// as it is.  Every other registration is untouched.
    pub fn remove_task(&mut self, id: &str)
        requires
            old(self).wf(),
        ensures
            final(self).wf(),
            task_get(final(self)@, id@) is None,
            forall|k: Seq<char>| k != id@ ==> task_get(final(self)@, k) == task_get(old(self)@, k),
    {
        let n = self.tasks.len();
        let mut i: usize = 0;
        while i < n
            invariant
                self.wf(),
                self@ == old(self)@,
                n == self@.len(),
                0 <= i <= n,
                forall|j: int| 0 <= j < i ==> (#[trigger] self@[j]).id@ != id@,
        decreases n - i,
        {
            let found = str_eq(self.tasks[i].id.as_str(), id);
            if found {
                self.tasks.remove(i);
                proof {
                    lemma_task_get_remove(old(self)@, self@, i as int, id@);
                }
                return ;
            }
            i = i + 1;
        }
        proof {
            assert forall|k: Seq<char>| true implies task_get(self@, k) == task_get(
                old(self)@,
                k,
            ) by {
                assert(self@ == old(self)@);
            }
        }
    }

    /// Copies of all registered tasks, in registration order.
    pub fn tasks(&self) -> (r: Vec<Task>)
        ensures
            r@.len() == self@.len(),
            forall|i: int| 0 <= i < self@.len() ==> task_eqv(#[trigger] r@[i], self@[i]),
    {
        let mut r: Vec<Task> = Vec::new();
        let mut i: usize = 0;
        while i < self.tasks.len()
            invariant
                0 <= i <= self@.len(),
                r@.len() == i,
                forall|j: int| 0 <= j < i ==> task_eqv(#[trigger] r@[j], self@[j]),
            decreases self@.len() - i,
        {
            r.push(self.tasks[i].clone());
            i = i + 1;
        }
        r
    }

    /// The weight the named task gives a fetched identifier; the
    /// default where the task or a matching option is missing.
    pub fn weight(&self, key: &Key, fetch_key: &str) -> (w: SnapshotValue)
        requires
            self.wf(),
        ensures
            w == match task_get(self@, key.id@) {
                Option::Some(t) => find_weight(t.options.options@, fetch_key@),
                Option::None => DEFAULT_WEIGHT,
            },
    {
        match self.find_task(key) {
            Some(t) => option_weight(t, fetch_key),
            None => DEFAULT_WEIGHT,
        }
    }

    /// The bucket the named task gives a fetched identifier; the
    /// global empty bucket where the task or a matching option is
    /// missing.
    pub fn aggregation_key(&self, key: &Key, id_to_fetch: &str) -> (k: AggregationKey)
        requires
            self.wf(),
        ensures
            k@ == match task_get(self@, key.id@) {
                Option::Some(t) => find_agg_key(t.options.options@, id_to_fetch@),
                Option::None => Seq::<char>::empty(),
            },
    {
        match self.find_task(key) {
            Some(t) => option_agg_key(t, id_to_fetch),
            None => String::new(),
        }
    }

    /// The registered task under a key, if any.
    pub fn find_task(&self, key: &Key) -> (r: Option<&Task>)
        requires
            self.wf(),
        ensures
            r matches Some(t) ==> task_get(self@, key.id@) == Some(*t),
            r is None ==> task_get(self@, key.id@) is None,
    {
        let n = self.tasks.len();
        let mut i: usize = 0;
        while i < n
            invariant
                self.wf(),
                n == self@.len(),
                0 <= i <= n,
                forall|j: int| 0 <= j < i ==> (#[trigger] self@[j]).id@ != key.id@,
            decreases n - i,
        {
            let t = &self.tasks[i];
            if str_eq(t.id.as_str(), key.id.as_str()) {
                proof {
                    let w = choose|w: int| 0 <= w < self@.len() && (#[trigger] self@[w]).id@ == key.id@;
                    if w != i {
                        assert((self@[w]).id@ != (self@[i as int]).id@);
                    }
                }
                return Some(t);
            }
            i = i + 1;
        }
        None
    }
}

/// Replacing the task under one name changes no other name's lookup.
proof fn lemma_task_get_update(s_old: Seq<Task>, s_new: Seq<Task>, at: int, task: Task)
    requires
        0 <= at < s_old.len(),
        s_new.len() == s_old.len(),
        s_old[at].id@ == task.id@,
        s_new[at] == task,
        forall|j: int| 0 <= j < s_new.len() && j != at ==> #[trigger] s_new[j] == s_old[j],
        forall|i: int, j: int|
            0 <= i < j < s_old.len() ==> (#[trigger] s_old[i]).id@ != (#[trigger] s_old[j]).id@,
    ensures
        forall|i: int, j: int|
            0 <= i < j < s_new.len() ==> (#[trigger] s_new[i]).id@ != (#[trigger] s_new[j]).id@,
        task_get(s_new, task.id@) == Some(task),
        forall|k: Seq<char>| k != task.id@ ==> task_get(s_new, k) == task_get(s_old, k),
{
    assert forall|i: int, j: int| 0 <= i < j < s_new.len() implies (#[trigger] s_new[i]).id@ != (
    #[trigger] s_new[j]).id@ by {
        assert(s_new[i].id@ == s_old[i].id@);
        assert(s_new[j].id@ == s_old[j].id@);
    }
    let w = choose|w: int| 0 <= w < s_new.len() && (#[trigger] s_new[w]).id@ == task.id@;
    if w != at {
        assert(s_new[w].id@ != s_new[at].id@);
    }
    assert forall|k: Seq<char>| k != task.id@ implies task_get(s_new, k) == task_get(s_old, k) by {
        if exists|i: int| 0 <= i < s_old.len() && (#[trigger] s_old[i]).id@ == k {
            let i = choose|i: int| 0 <= i < s_old.len() && (#[trigger] s_old[i]).id@ == k;
            assert(i != at);
            assert(s_new[i].id@ == k);
            let j = choose|j: int| 0 <= j < s_new.len() && (#[trigger] s_new[j]).id@ == k;
            if j != i {
                assert(s_new[i].id@ != s_new[j].id@);
            }
            assert(task_get(s_new, k) == Some(s_new[j]));
            assert(task_get(s_old, k) == Some(s_old[i]));
        } else {
            assert forall|i: int| 0 <= i < s_new.len() implies (#[trigger] s_new[i]).id@ != k by {
                assert(s_new[i].id@ == s_old[i].id@);
            }
        }
    }
}

/// Registering a fresh name changes no other name's lookup.
proof fn lemma_task_get_push(s_old: Seq<Task>, s_new: Seq<Task>, task: Task)
    requires
        s_new.len() == s_old.len() + 1,
        forall|j: int| 0 <= j < s_old.len() ==> #[trigger] s_new[j] == s_old[j],
        s_new[s_old.len() as int] == task,
        forall|j: int| 0 <= j < s_old.len() ==> (#[trigger] s_old[j]).id@ != task.id@,
        forall|i: int, j: int|
            0 <= i < j < s_old.len() ==> (#[trigger] s_old[i]).id@ != (#[trigger] s_old[j]).id@,
    ensures
        forall|i: int, j: int|
            0 <= i < j < s_new.len() ==> (#[trigger] s_new[i]).id@ != (#[trigger] s_new[j]).id@,
        task_get(s_new, task.id@) == Some(task),
        forall|k: Seq<char>| k != task.id@ ==> task_get(s_new, k) == task_get(s_old, k),
{
    let at = s_old.len() as int;
    assert forall|i: int, j: int| 0 <= i < j < s_new.len() implies (#[trigger] s_new[i]).id@ != (
    #[trigger] s_new[j]).id@ by {
        if j < at {
            assert(s_new[i] == s_old[i]);
            assert(s_new[j] == s_old[j]);
        } else {
            assert(s_new[i] == s_old[i]);
            assert(s_old[i].id@ != task.id@);
        }
    }
    let w = choose|w: int| 0 <= w < s_new.len() && (#[trigger] s_new[w]).id@ == task.id@;
    if w != at {
        assert(s_new[w] == s_old[w]);
    }
    assert forall|k: Seq<char>| k != task.id@ implies task_get(s_new, k) == task_get(s_old, k) by {
        if exists|i: int| 0 <= i < s_old.len() && (#[trigger] s_old[i]).id@ == k {
            let i = choose|i: int| 0 <= i < s_old.len() && (#[trigger] s_old[i]).id@ == k;
            assert(s_new[i].id@ == k);
            let j = choose|j: int| 0 <= j < s_new.len() && (#[trigger] s_new[j]).id@ == k;
            if j < at && j != i {
                assert(s_new[i].id@ != s_new[j].id@);
            }
            assert(j != at);
            assert(task_get(s_new, k) == Some(s_new[j]));
        } else {
            if exists|i: int| 0 <= i < s_new.len() && (#[trigger] s_new[i]).id@ == k {
                let i = choose|i: int| 0 <= i < s_new.len() && (#[trigger] s_new[i]).id@ == k;
                assert(i == at);
            }
        }
    }
}

/// Striking a name leaves it unregistered and every other lookup as
/// it was.
proof fn lemma_task_get_remove(s_old: Seq<Task>, s_new: Seq<Task>, at: int, id: Seq<char>)
    requires
        0 <= at < s_old.len(),
        s_new == s_old.remove(at),
        s_old[at].id@ == id,
        forall|i: int, j: int|
            0 <= i < j < s_old.len() ==> (#[trigger] s_old[i]).id@ != (#[trigger] s_old[j]).id@,
    ensures
        forall|i: int, j: int|
            0 <= i < j < s_new.len() ==> (#[trigger] s_new[i]).id@ != (#[trigger] s_new[j]).id@,
        task_get(s_new, id) is None,
        forall|k: Seq<char>| k != id ==> task_get(s_new, k) == task_get(s_old, k),
{
    assert(s_new.len() == s_old.len() - 1);
    assert forall|j: int| 0 <= j < s_new.len() implies #[trigger] s_new[j] == (if j < at {
        s_old[j]
    } else {
        s_old[j + 1]
    }) by {}
    assert forall|i: int, j: int| 0 <= i < j < s_new.len() implies (#[trigger] s_new[i]).id@ != (
    #[trigger] s_new[j]).id@ by {
        let oi = if i < at { i } else { i + 1 };
        let oj = if j < at { j } else { j + 1 };
        assert(s_new[i] == s_old[oi]);
        assert(s_new[j] == s_old[oj]);
        assert(s_old[oi].id@ != s_old[oj].id@);
    }
    assert forall|i: int| 0 <= i < s_new.len() implies (#[trigger] s_new[i]).id@ != id by {
        let oi = if i < at { i } else { i + 1 };
        assert(s_new[i] == s_old[oi]);
        if oi != at {
            assert(s_old[oi].id@ != s_old[at].id@);
        }
    }
    assert forall|k: Seq<char>| k != id implies task_get(s_new, k) == task_get(s_old, k) by {
        if exists|i: int| 0 <= i < s_old.len() && (#[trigger] s_old[i]).id@ == k {
            let i = choose|i: int| 0 <= i < s_old.len() && (#[trigger] s_old[i]).id@ == k;
            assert(i != at);
            let ni = if i < at { i } else { i - 1 };
            assert(s_new[ni] == s_old[i]);
            let j = choose|j: int| 0 <= j < s_new.len() && (#[trigger] s_new[j]).id@ == k;
            if j != ni {
                assert(s_new[ni].id@ != s_new[j].id@);
            }
            assert(task_get(s_new, k) == Some(s_new[j]));
            assert(task_get(s_old, k) == Some(s_old[i]));
        } else {
            assert forall|i: int| 0 <= i < s_new.len() implies (#[trigger] s_new[i]).id@ != k by {
                let oi = if i < at { i } else { i + 1 };
                assert(s_new[i] == s_old[oi]);
            }
        }
    }
}

} // verus!
