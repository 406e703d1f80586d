//! Registry of task groups arranged in a tree.
//!
//! Groups are created lazily, the first time a task is registered under a
//! key; at that moment the externally supplied parent-resolution function is
//! consulted once and the new key is recorded under its parent in the
//! adjacency index. Stopping a group removes it and every descendant group
//! from the registry, fires each removed group's stop signal, and hands back
//! the drained tasks so the driving layer can await their completion.
//!
//! Group keys and task ids are plain `u64` values: the driving layer maps
//! its own key and task types onto them. Each registered task is represented
//! here by a fresh id; the future bound to that id, and the channel through
//! which its outcome is reported, live with the driving layer.

use std::collections::HashMap;
use vstd::prelude::*;
use vstd::set_lib::lemma_len_subset;

use crate::signal::{
    emitted, initial_signal, minted, SignalState, StopBroadcaster, StopListener,
};

verus! {

broadcast use
    vstd::std_specs::hash::group_hash_axioms,
    vstd::seq_lib::group_seq_properties,
    vstd::seq_lib::seq_to_set_is_finite;

/// Abstract state of one group: its stop-signal state and the ids of the
/// tasks registered under it, in registration order.
pub ghost struct GroupModel {
    pub signal: SignalState,
    pub tasks: Seq<u64>,
}

/// Abstract state of the registry: the live groups, and the parent-to-child
/// adjacency index. The adjacency index outlives group removal: a stopped
/// key keeps its recorded children, exactly as it keeps its recorded parent.
pub ghost struct ManagerModel {
    pub groups: Map<u64, GroupModel>,
    pub children: Map<u64, Set<u64>>,
}

/// A fresh group: no listeners ever issued, no tasks registered.
pub open spec fn fresh_group() -> GroupModel {
    GroupModel { signal: initial_signal(), tasks: Seq::empty() }
}

/// `c` is recorded as a direct child of `p` in the adjacency index.
pub open spec fn kin_step(children: Map<u64, Set<u64>>, p: u64, c: u64) -> bool {
    children.contains_key(p) && children[p].contains(c)
}

/// `k` is reachable from `root` through the adjacency index in at most `n`
/// steps.
pub open spec fn reaches_within(children: Map<u64, Set<u64>>, root: u64, k: u64, n: nat) -> bool
    decreases n,
{
    k == root || (n > 0 && exists|m: u64|
        #[trigger] kin_step(children, m, k) && reaches_within(children, root, m, (n - 1) as nat))
}

/// `k` belongs to the descendant closure of `root`: it is `root` itself or
/// transitively reachable from it through the adjacency index, whether or
/// not any of the keys on the way currently has a live group.
pub open spec fn descendant(children: Map<u64, Set<u64>>, root: u64, k: u64) -> bool {
    exists|n: nat| reaches_within(children, root, k, n)
}

/// The recorded children of `p`, empty if `p` has no entry.
pub open spec fn child_set(children: Map<u64, Set<u64>>, p: u64) -> Set<u64> {
    if children.contains_key(p) {
        children[p]
    } else {
        Set::empty()
    }
}

/// Number of registered, not-yet-drained tasks under `key`; zero when no
/// group exists for it.
pub open spec fn spec_num_tasks(m: ManagerModel, key: u64) -> nat {
    if m.groups.contains_key(key) {
        m.groups[key].tasks.len()
    } else {
        0
    }
}

/// The registry after making sure a group exists for `key`: if one is
/// already there, nothing changes; otherwise a fresh group is created and,
/// when a parent was resolved for `key`, `key` is recorded in that parent's
/// child set.
pub open spec fn with_group(m: ManagerModel, key: u64, parent: Option<u64>) -> ManagerModel {
    if m.groups.contains_key(key) {
        m
    } else {
        ManagerModel {
            groups: m.groups.insert(key, fresh_group()),
            children: match parent {
                Some(p) => m.children.insert(p, child_set(m.children, p).insert(key)),
                None => m.children,
            },
        }
    }
}

/// The registry after registering task `id` under the existing group for
/// `key`: the task is appended and one more listener is live on the group's
/// broadcaster.
pub open spec fn with_task(m: ManagerModel, key: u64, id: u64) -> ManagerModel
    recommends
        m.groups.contains_key(key),
{
    ManagerModel {
        groups: m.groups.insert(
            key,
            GroupModel {
                signal: minted(m.groups[key].signal),
                tasks: m.groups[key].tasks.push(id),
            },
        ),
        children: m.children,
    }
}

/// One group as removed by a stop pass: its key, its stop-signal state at
/// removal (signal fired), and the tasks drained from it.
pub ghost struct StoppedModel {
    pub key: u64,
    pub signal: SignalState,
    pub tasks: Seq<u64>,
}

/// `s` with the first occurrence of `x` removed, `s` itself if there is
/// none.
pub open spec fn remove_first(s: Seq<u64>, x: u64) -> Seq<u64> {
    match s.index_of_first(x) {
        Some(i) => s.remove(i),
        None => s,
    }
}

/// Every task drained by a stop pass has completed: its aggregate future
/// would resolve.
pub open spec fn all_drained(s: Seq<StoppedModel>) -> bool {
    forall|i: int| 0 <= i < s.len() ==> s[i].tasks.len() == 0
}

/// A drained task tagged `(key, task)` has not completed yet.
pub open spec fn pending(s: Seq<StoppedModel>, key: u64, task: u64) -> bool {
    exists|i: int| 0 <= i < s.len() && s[i].key == key && s[i].tasks.contains(task)
}

/// What one stop pass does, relating the registry before (`pre`) and after
/// (`post`) and the removed groups (`stopped`): the adjacency index is kept;
/// exactly the registered descendants of `key` leave the registry, each
/// appearing once in `stopped` with its signal fired and its tasks drained
/// unchanged; every other group is untouched.
pub open spec fn stop_effect(
    pre: ManagerModel,
    key: u64,
    post: ManagerModel,
    stopped: Seq<StoppedModel>,
) -> bool {
    &&& post.children == pre.children
    &&& forall|k: u64|
        #![trigger post.groups.contains_key(k)]
        post.groups.contains_key(k) <==> (pre.groups.contains_key(k) && !descendant(
            pre.children,
            key,
            k,
        ))
    &&& forall|k: u64|
        #[trigger] post.groups.contains_key(k) ==> post.groups[k] == pre.groups[k]
    &&& forall|i: int|
        #![trigger stopped[i]]
        0 <= i < stopped.len() ==> {
            &&& pre.groups.contains_key(stopped[i].key)
            &&& descendant(pre.children, key, stopped[i].key)
            &&& stopped[i].tasks == pre.groups[stopped[i].key].tasks
            &&& stopped[i].signal == emitted(pre.groups[stopped[i].key].signal)
        }
    &&& forall|k: u64|
        pre.groups.contains_key(k) && #[trigger] descendant(pre.children, key, k)
            ==> exists|i: int| 0 <= i < stopped.len() && stopped[i].key == k
    &&& forall|i: int, j: int| 0 <= i < j < stopped.len() ==> stopped[i].key != stopped[j].key
}

/// The descendant closure always contains the queried key, and is closed
/// under the adjacency relation at every depth.
pub proof fn lemma_descendant_closure(children: Map<u64, Set<u64>>, root: u64)
    ensures
        descendant(children, root, root),
        forall|k: u64, c: u64|
            descendant(children, root, k) && #[trigger] kin_step(children, k, c)
                ==> descendant(children, root, c),
{
    assert(reaches_within(children, root, root, 0));
    assert forall|k: u64, c: u64|
        descendant(children, root, k) && #[trigger] kin_step(children, k, c)
        implies descendant(children, root, c) by {
        let n = choose|n: nat| reaches_within(children, root, k, n);
        assert(reaches_within(children, root, c, n + 1));
    }
}

/// Any set that contains `root` and is closed under the adjacency relation
/// contains the whole descendant closure of `root`.
proof fn lemma_closed_set_covers_within(
    children: Map<u64, Set<u64>>,
    root: u64,
    s: Set<u64>,
    k: u64,
    n: nat,
)
    requires
        s.contains(root),
        forall|p: u64, c: u64|
            s.contains(p) && #[trigger] kin_step(children, p, c) ==> s.contains(c),
        reaches_within(children, root, k, n),
    ensures
        s.contains(k),
    decreases n,
{
    if k != root {
        let m = choose|m: u64|
            #[trigger] kin_step(children, m, k) && reaches_within(children, root, m, (n - 1) as nat);
        lemma_closed_set_covers_within(children, root, s, m, (n - 1) as nat);
    }
}

proof fn lemma_closed_set_covers(children: Map<u64, Set<u64>>, root: u64, s: Set<u64>)
    requires
        s.contains(root),
        forall|p: u64, c: u64|
            s.contains(p) && #[trigger] kin_step(children, p, c) ==> s.contains(c),
    ensures
        forall|k: u64| descendant(children, root, k) ==> s.contains(k),
{
    assert forall|k: u64| descendant(children, root, k) implies s.contains(k) by {
        let n = choose|n: nat| reaches_within(children, root, k, n);
        lemma_closed_set_covers_within(children, root, s, k, n);
    }
}

/// One group in the registry: its stop broadcaster and the ids of the tasks
/// registered under it.
pub struct TaskGroup {
    stopper: StopBroadcaster,
    tasks: Vec<u64>,
}

impl View for TaskGroup {
    type V = GroupModel;

    closed spec fn view(&self) -> GroupModel {
        GroupModel { signal: self.stopper@, tasks: self.tasks@ }
    }
}

impl TaskGroup {
    /// A fresh group with its own broadcaster and no tasks.
    pub fn new() -> (g: Self)
        ensures
            g@ == fresh_group(),
    {
        let g = TaskGroup { stopper: StopBroadcaster::new(), tasks: Vec::new() };
        proof {
            assert(g@.tasks =~= fresh_group().tasks);
        }
        g
    }
}

/// The registry of task groups, keyed by `u64` group keys, together with
/// the adjacency index and the parent-resolution function supplied at
/// construction. Task ids are minted from a counter so that every
/// registered task gets a fresh one.
pub struct TaskManager<F: Fn(u64) -> Option<u64>> {
    groups: HashMap<u64, TaskGroup>,
    children: HashMap<u64, Vec<u64>>,
    parent_map: F,
    next_task: u64,
    kin_log: Ghost<Seq<u64>>,
}

impl<F: Fn(u64) -> Option<u64>> View for TaskManager<F> {
    type V = ManagerModel;

    closed spec fn view(&self) -> ManagerModel {
        ManagerModel {
            groups: Map::new(
                |k: u64| self.groups@.contains_key(k),
                |k: u64| self.groups@[k]@,
            ),
            children: Map::new(
                |k: u64| self.children@.contains_key(k),
                |k: u64| self.children@[k]@.to_set(),
            ),
        }
    }
}

impl<F: Fn(u64) -> Option<u64>> TaskManager<F> {
    /// The parent-resolution function supplied at construction.
    pub closed spec fn parent_fn(&self) -> F {
        self.parent_map
    }

    /// The id the next registered task will get.
    pub closed spec fn task_counter(&self) -> u64 {
        self.next_task
    }

    /// Internal consistency: every key recorded as somebody's child appears
    /// in the creation journal (which bounds the descendant traversal), and
    /// task ids are below the counter and pairwise distinct.
    pub closed spec fn wf(&self) -> bool {
        &&& forall|p: u64, c: u64|
            #[trigger] kin_step(self@.children, p, c) ==> self.kin_log@.contains(c)
        &&& forall|k: u64, i: int|
            self.groups@.contains_key(k) && 0 <= i < self.groups@[k]@.tasks.len()
                ==> #[trigger] self.groups@[k]@.tasks[i] < self.next_task
        &&& forall|k1: u64, i1: int, k2: u64, i2: int|
            self.groups@.contains_key(k1) && 0 <= i1 < self.groups@[k1]@.tasks.len()
                && self.groups@.contains_key(k2) && 0 <= i2 < self.groups@[k2]@.tasks.len()
                && (k1 != k2 || i1 != i2)
                ==> #[trigger] self.groups@[k1]@.tasks[i1] != #[trigger] self.groups@[k2]@.tasks[i2]
    }

    /// An empty registry around the given parent-resolution function.
    pub fn new(parent_map: F) -> (m: Self)
        ensures
            m.wf(),
            m@.groups == Map::<u64, GroupModel>::empty(),
            m@.children == Map::<u64, Set<u64>>::empty(),
            m.parent_fn() == parent_map,
            m.task_counter() == 0,
    {
        let m = TaskManager {
            groups: HashMap::new(),
            children: HashMap::new(),
            parent_map,
            next_task: 0,
            kin_log: Ghost(Seq::empty()),
        };
        proof {
            assert(m@.groups =~= Map::<u64, GroupModel>::empty());
            assert(m@.children =~= Map::<u64, Set<u64>>::empty());
        }
        m
    }

    /// Number of registered, not-yet-drained tasks under `key`; zero when
    /// no group exists for it.
    pub fn num_tasks(&self, key: u64) -> (n: usize)
        ensures
            n == spec_num_tasks(self@, key),
    {
        match self.groups.get(&key) {
            Some(g) => g.tasks.len(),
            None => 0,
        }
    }

    /// Whether a group is currently registered under `key`.
    pub fn contains_group(&self, key: u64) -> (r: bool)
        ensures
            r == self@.groups.contains_key(key),
    {
        self.groups.contains_key(&key)
    }

    /// Compute the descendant closure of `key`: `key` itself plus every key
    /// transitively reachable through the adjacency index, whether or not a
    /// group currently exists for any of them.
    pub fn descendants(&self, key: u64) -> (r: Vec<u64>)
        requires
            self.wf(),
        ensures
            forall|k: u64| r@.contains(k) <==> descendant(self@.children, key, k),
            r@.no_duplicates(),
    {
        let mut found: Vec<u64> = Vec::new();
        let mut queue: Vec<u64> = Vec::new();
        found.push(key);
        queue.push(key);
        let ghost uni: Set<u64> = self.kin_log@.to_set().insert(key);
        proof {
            broadcast use vstd::seq_lib::seq_to_set_is_finite;

            lemma_descendant_closure(self@.children, key);
            found@.unique_seq_to_set();
            lemma_len_subset(found@.to_set(), uni);
        }
        while queue.len() != 0
            invariant
                self.wf(),
                uni == self.kin_log@.to_set().insert(key),
                uni.finite(),
                found@.to_set().subset_of(uni),
                found@.len() <= uni.len(),
                found@.no_duplicates(),
                queue@.no_duplicates(),
                forall|k: u64| queue@.contains(k) ==> found@.contains(k),
                found@.contains(key),
                forall|k: u64| found@.contains(k) ==> descendant(self@.children, key, k),
                forall|p: u64, c: u64|
                    found@.contains(p) && !queue@.contains(p)
                        && #[trigger] kin_step(self@.children, p, c) ==> found@.contains(c),
            decreases uni.len() - found@.len(), queue@.len(),
        {
            let ghost qpre = queue@;
            let k = queue.pop().unwrap();
            proof {
                assert(qpre[qpre.len() - 1] == k);
                assert(!queue@.contains(k)) by {
                    if queue@.contains(k) {
                        let i = choose|i: int| 0 <= i < queue@.len() && queue@[i] == k;
                        assert(qpre[i] == k);
                    }
                }
                assert forall|p: u64| queue@.contains(p) implies qpre.contains(p) by {
                    let i = choose|i: int| 0 <= i < queue@.len() && queue@[i] == p;
                    assert(qpre[i] == p);
                }
                assert(qpre.contains(k));
            }
            match self.children.get(&k) {
                None => {
                    proof {
                        assert(!self@.children.contains_key(k));
                    }
                }
                Some(kids) => {
                    let ghost found0 = found@;
                    let ghost queue0 = queue@;
                    let mut idx: usize = 0;
                    while idx < kids.len()
                        invariant
                            self.wf(),
                            uni == self.kin_log@.to_set().insert(key),
                            uni.finite(),
                            self@.children.contains_key(k),
                            self@.children[k] == kids@.to_set(),
                            idx <= kids@.len(),
                            found@.contains(k),
                            found@.to_set().subset_of(uni),
                            found@.len() <= uni.len(),
                            found@.no_duplicates(),
                            queue@.no_duplicates(),
                            forall|k2: u64| queue@.contains(k2) ==> found@.contains(k2),
                            found@.contains(key),
                            forall|k2: u64|
                                found@.contains(k2) ==> descendant(self@.children, key, k2),
                            forall|p: u64, c: u64|
                                p != k && found@.contains(p) && !queue@.contains(p)
                                    && #[trigger] kin_step(self@.children, p, c)
                                    ==> found@.contains(c),
                            forall|j: int| 0 <= j < idx ==> found@.contains(kids@[j]),
                            found0.is_prefix_of(found@),
                            found@.len() - found0.len() == queue@.len() - queue0.len(),
                        decreases kids@.len() - idx,
                    {
                        let c = kids[idx];
                        if !vec_contains(&found, c) {
                            proof {
                                broadcast use vstd::seq_lib::seq_to_set_is_finite;

                                assert(kin_step(self@.children, k, c));
                                assert(uni.contains(c));
                                lemma_descendant_closure(self@.children, key);
                                assert(descendant(self@.children, key, c));
                                assert(found@.push(c).to_set() =~= found@.to_set().insert(c));
                                found@.push(c).unique_seq_to_set();
                                lemma_len_subset(found@.push(c).to_set(), uni);
                            }
                            found.push(c);
                            queue.push(c);
                            proof {
                                lemma_descendant_closure(self@.children, key);
                            }
                        }
                        idx += 1;
                    }
                    proof {
                        assert forall|c: u64| kin_step(self@.children, k, c)
                            implies found@.contains(c) by {
                            let j = choose|j: int| 0 <= j < kids@.len() && kids@[j] == c;
                            assert(found@.contains(kids@[j]));
                        }
                    }
                }
            }
        }
        proof {
            assert forall|k: u64| descendant(self@.children, key, k)
                implies found@.contains(k) by {
                lemma_closed_set_covers(self@.children, key, found@.to_set());
                assert(found@.to_set().contains(k));
            }
        }
        found
    }

    /// Make sure a group exists for `key`: if none is registered, create a
    /// fresh one and, when a parent was resolved for `key`, record `key` in
    /// that parent's child set. An existing group is left untouched.
    pub fn ensure_group(&mut self, key: u64, parent: Option<u64>)
        requires
            old(self).wf(),
        ensures
            final(self).wf(),
            final(self)@ == with_group(old(self)@, key, parent),
            final(self).parent_fn() == old(self).parent_fn(),
            final(self).task_counter() == old(self).task_counter(),
    {
        if self.groups.contains_key(&key) {
            return;
        }
        let ghost pre = self@;
        let ghost target = with_group(pre, key, parent);
        match parent {
            Some(p) => {
                let mut kids = match self.children.remove(&p) {
                    Some(v) => v,
                    None => Vec::new(),
                };
                if !vec_contains(&kids, key) {
                    kids.push(key);
                }
                self.children.insert(p, kids);
                self.kin_log = Ghost(self.kin_log@.push(key));
                proof {
                    assert(kids@.to_set() =~= child_set(pre.children, p).insert(key));
                    assert(self@.children =~~= target.children);
                }
            }
            None => {
                proof {
                    assert(self@.children =~~= target.children);
                }
            }
        }
        self.groups.insert(key, TaskGroup::new());
        proof {
            assert(self@.groups =~~= target.groups);
            assert forall|p2: u64, c: u64| #[trigger] kin_step(self@.children, p2, c)
                implies self.kin_log@.contains(c) by {
                if !kin_step(pre.children, p2, c) {
                    assert(parent == Some(p2) && c == key || c == key);
                }
            }
        }
    }

    /// Register one task under `key`, creating the group for it on first
    /// use: a group is made if none is registered, consulting the
    /// parent-resolution function exactly once to record the new key's
    /// parent linkage. A listener is minted from the group's broadcaster
    /// and a fresh task id is appended to the group. The driving layer
    /// invokes the task factory exactly once with the listener and binds
    /// the resulting future to the returned id.
    pub fn add_task(&mut self, key: u64) -> (r: (u64, StopListener))
        requires
            old(self).wf(),
            old(self).task_counter() < u64::MAX,
            old(self)@.groups.contains_key(key)
                ==> old(self)@.groups[key].signal.live < u32::MAX,
            !old(self)@.groups.contains_key(key)
                ==> call_requires(old(self).parent_fn(), (key,)),
        ensures
            final(self).wf(),
            final(self).parent_fn() == old(self).parent_fn(),
            final(self).task_counter() == old(self).task_counter() + 1,
            r.0 == old(self).task_counter(),
            old(self)@.groups.contains_key(key)
                ==> final(self)@ == with_task(old(self)@, key, r.0),
            !old(self)@.groups.contains_key(key)
                ==> exists|p: Option<u64>|
                    #[trigger] call_ensures(old(self).parent_fn(), (key,), p)
                        && final(self)@ == with_task(with_group(old(self)@, key, p), key, r.0),
    {
        let ghost pre = self@;
        if !self.groups.contains_key(&key) {
            let p = (self.parent_map)(key);
            self.ensure_group(key, p);
        }
        let ghost mid = self@;
        let id = self.next_task;
        self.next_task = id + 1;
        proof {
            assert(mid.groups.contains_key(key));
            assert(self.groups@.contains_key(key));
        }
        let mut g = self.groups.remove(&key).unwrap();
        proof {
            assert(g@ == mid.groups[key]);
            if pre.groups.contains_key(key) {
                assert(g@ == pre.groups[key]);
            } else {
                assert(g@ == fresh_group());
            }
        }
        let l = g.stopper.listener();
        g.tasks.push(id);
        self.groups.insert(key, g);
        proof {
            assert(self@.groups =~~= with_task(mid, key, id as u64).groups);
            assert(self@.children =~~= with_task(mid, key, id as u64).children);
            assert forall|k: u64, i: int|
                self.groups@.contains_key(k) && 0 <= i < self.groups@[k]@.tasks.len()
                implies #[trigger] self.groups@[k]@.tasks[i] < self.next_task by {
                if k == key && i == self.groups@[k]@.tasks.len() - 1 {
                } else {
                    assert(mid.groups[k].tasks[i] < id);
                }
            }
        }
        (id, l)
    }

    /// Stop the whole subtree rooted at `key`: compute the descendant
    /// closure, remove every closure member's group from the registry,
    /// fire each removed group's stop signal, and hand the drained tasks
    /// back. Removal is synchronous and observable on return; completion
    /// of the drained tasks is observable only through the returned
    /// `GroupStop` as the driving layer feeds completions into it. A key
    /// with no registered descendants yields an immediately resolved pass.
    pub fn stop_group(&mut self, key: u64) -> (gs: GroupStop)
        requires
            old(self).wf(),
        ensures
            final(self).wf(),
            final(self).parent_fn() == old(self).parent_fn(),
            final(self).task_counter() == old(self).task_counter(),
            stop_effect(old(self)@, key, final(self)@, gs@),
    {
        let ghost pre = self@;
        let keys = self.descendants(key);
        let mut stopped: Vec<StoppedGroup> = Vec::new();
        let mut i: usize = 0;
        while i < keys.len()
            invariant
                self.wf(),
                i <= keys@.len(),
                keys@.no_duplicates(),
                forall|k: u64| keys@.contains(k) <==> descendant(pre.children, key, k),
                self@.children == pre.children,
                self.parent_fn() == old(self).parent_fn(),
                self.task_counter() == old(self).task_counter(),
                forall|k: u64|
                    #![trigger self@.groups.contains_key(k)]
                    self@.groups.contains_key(k) <==> (pre.groups.contains_key(k)
                        && !keys@.subrange(0, i as int).contains(k)),
                forall|k: u64|
                    #[trigger] self@.groups.contains_key(k) ==> self@.groups[k] == pre.groups[k],
                forall|j: int|
                    #![trigger stopped@[j]]
                    0 <= j < stopped@.len() ==> {
                        &&& pre.groups.contains_key(stopped@[j]@.key)
                        &&& keys@.subrange(0, i as int).contains(stopped@[j]@.key)
                        &&& stopped@[j]@.tasks == pre.groups[stopped@[j]@.key].tasks
                        &&& stopped@[j]@.signal == emitted(pre.groups[stopped@[j]@.key].signal)
                    },
                forall|k: u64|
                    pre.groups.contains_key(k) && #[trigger] keys@.subrange(0, i as int).contains(
                        k,
                    ) ==> exists|j: int| 0 <= j < stopped@.len() && stopped@[j]@.key == k,
                forall|j1: int, j2: int|
                    0 <= j1 < j2 < stopped@.len() ==> stopped@[j1]@.key != stopped@[j2]@.key,
            decreases keys@.len() - i,
        {
            let k = keys[i];
            proof {
                assert(keys@.subrange(0, i + 1) =~= keys@.subrange(0, i as int).push(k));
                assert(!keys@.subrange(0, i as int).contains(k)) by {
                    if keys@.subrange(0, i as int).contains(k) {
                        let t = choose|t: int|
                            0 <= t < i && keys@.subrange(0, i as int)[t] == k;
                        assert(keys@[t] == keys@[i as int]);
                    }
                }
            }
            let ghost before = self@;
            let ghost stopped0 = stopped@;
            let removed = self.groups.remove(&k);
            proof {
                assert(self@.groups =~= before.groups.remove(k));
            }
            match removed {
                Some(mut g) => {
                    proof {
                        assert(before.groups.contains_key(k));
                        assert(g@ == before.groups[k]);
                        assert(g@ == pre.groups[k]);
                    }
                    g.stopper.emit();
                    stopped.push(StoppedGroup { key: k, stopper: g.stopper, tasks: g.tasks });
                    proof {
                        assert(stopped@[stopped@.len() - 1]@.key == k);
                    }
                }
                None => {
                    proof {
                        assert(!before.groups.contains_key(k));
                        assert(!pre.groups.contains_key(k));
                    }
                }
            }
            proof {
                assert forall|k2: u64|
                    pre.groups.contains_key(k2) && #[trigger] keys@.subrange(0, i + 1).contains(
                        k2,
                    ) implies exists|j: int| 0 <= j < stopped@.len() && stopped@[j]@.key == k2 by {
                    if keys@.subrange(0, i as int).contains(k2) {
                        let j = choose|j: int|
                            0 <= j < stopped0.len() && stopped0[j]@.key == k2;
                        assert(stopped@[j]@.key == k2);
                    } else {
                        assert(k2 == k);
                        assert(before.groups.contains_key(k));
                        assert(stopped@[stopped@.len() - 1]@.key == k2);
                    }
                }
                assert forall|k2: u64|
                    #![trigger self@.groups.contains_key(k2)]
                    self@.groups.contains_key(k2) <==> (pre.groups.contains_key(k2)
                        && !keys@.subrange(0, i + 1).contains(k2)) by {
                    if k2 == k {
                        assert(keys@.subrange(0, i + 1).contains(k));
                    } else {
                        assert(keys@.subrange(0, i + 1).contains(k2) == keys@.subrange(
                            0,
                            i as int,
                        ).contains(k2));
                    }
                }
            }
            i += 1;
        }
        proof {
            assert(keys@.subrange(0, keys@.len() as int) =~= keys@);
            let gsv = stopped@.map_values(|g: StoppedGroup| g@);
            assert(gsv.len() == stopped@.len());
            assert(forall|j: int| 0 <= j < gsv.len() ==> gsv[j] == #[trigger] stopped@[j]@);
            assert forall|k2: u64|
                pre.groups.contains_key(k2) && #[trigger] descendant(pre.children, key, k2)
                implies exists|j: int| 0 <= j < gsv.len() && gsv[j].key == k2 by {
                assert(keys@.contains(k2));
                let j = choose|j: int| 0 <= j < stopped@.len() && stopped@[j]@.key == k2;
                assert(gsv[j].key == k2);
            }
            assert(stop_effect(pre, key, self@, gsv));
        }
        GroupStop { stopped }
    }
}

/// Every group's live-listener count matches its registered task count:
/// each registered task holds exactly one undropped listener. Listeners are
/// only handed back while a drained group's tasks run down, after the group
/// has left the registry.
pub open spec fn listeners_match_tasks(m: ManagerModel) -> bool {
    forall|k: u64|
        #[trigger] m.groups.contains_key(k) ==> m.groups[k].signal.live == m.groups[k].tasks.len()
}

/// Registering a task keeps the listener accounting: the new task and its
/// listener arrive together, whether the group already existed or was
/// created for it.
pub proof fn lemma_add_keeps_listener_accounting(
    m: ManagerModel,
    key: u64,
    parent: Option<u64>,
    id: u64,
)
    requires
        listeners_match_tasks(m),
    ensures
        listeners_match_tasks(with_task(with_group(m, key, parent), key, id)),
{
}

/// A stop pass keeps the listener accounting, both for the groups that stay
/// registered and for the groups it drained: firing a signal hands no
/// listener back.
pub proof fn lemma_stop_keeps_listener_accounting(
    pre: ManagerModel,
    key: u64,
    post: ManagerModel,
    stopped: Seq<StoppedModel>,
)
    requires
        listeners_match_tasks(pre),
        stop_effect(pre, key, post, stopped),
    ensures
        listeners_match_tasks(post),
        forall|i: int|
            0 <= i < stopped.len() ==> #[trigger] stopped[i].signal.live == stopped[i].tasks.len(),
{
}

/// A key with no registered group anywhere in its descendant closure has no
/// tasks, and a stop pass on it removes nothing: the aggregate hand-back is
/// empty and resolved immediately.
pub proof fn lemma_stop_absent_key(
    pre: ManagerModel,
    key: u64,
    post: ManagerModel,
    stopped: Seq<StoppedModel>,
)
    requires
        stop_effect(pre, key, post, stopped),
        forall|k: u64| #[trigger] descendant(pre.children, key, k) ==> !pre.groups.contains_key(k),
    ensures
        spec_num_tasks(pre, key) == 0,
        stopped.len() == 0,
        all_drained(stopped),
{
    lemma_descendant_closure(pre.children, key);
    if stopped.len() > 0 {
        assert(pre.groups.contains_key(stopped[0].key));
        assert(descendant(pre.children, key, stopped[0].key));
    }
}

/// A stop pass removes the queried key and every descendant from the
/// registry itself, synchronously: the removal is visible in the registry
/// state alone, however many drained tasks are still pending.
pub proof fn lemma_stop_removes_subtree(
    pre: ManagerModel,
    key: u64,
    post: ManagerModel,
    stopped: Seq<StoppedModel>,
    k: u64,
)
    requires
        stop_effect(pre, key, post, stopped),
        descendant(pre.children, key, k),
    ensures
        !post.groups.contains_key(k),
{
}

/// Groups outside the stopped subtree are unaffected by a stop pass: they
/// stay registered, their stop-signal state is untouched (in particular it
/// is not fired, so their listeners stay unresolved), and their task count
/// is unchanged.
pub proof fn lemma_stop_spares_outsiders(
    pre: ManagerModel,
    key: u64,
    post: ManagerModel,
    stopped: Seq<StoppedModel>,
    k: u64,
)
    requires
        stop_effect(pre, key, post, stopped),
        pre.groups.contains_key(k),
        !descendant(pre.children, key, k),
    ensures
        post.groups.contains_key(k),
        post.groups[k].signal == pre.groups[k].signal,
        spec_num_tasks(post, k) == spec_num_tasks(pre, k),
{
    assert(post.groups.contains_key(k));
    assert(post.groups[k] == pre.groups[k]);
}

/// One group removed by a stop pass: its key, its broadcaster (signal
/// already fired), and the ids of the tasks drained from it.
pub struct StoppedGroup {
    key: u64,
    stopper: StopBroadcaster,
    tasks: Vec<u64>,
}

impl View for StoppedGroup {
    type V = StoppedModel;

    closed spec fn view(&self) -> StoppedModel {
        StoppedModel { key: self.key, signal: self.stopper@, tasks: self.tasks@ }
    }
}

/// The aggregate hand-back of one stop pass: the removed groups and their
/// drained tasks. The driving layer awaits the real task futures and
/// reports each completion through `task_finished`; the pass counts as
/// resolved once every drained task has finished.
pub struct GroupStop {
    stopped: Vec<StoppedGroup>,
}

impl View for GroupStop {
    type V = Seq<StoppedModel>;

    closed spec fn view(&self) -> Seq<StoppedModel> {
        self.stopped@.map_values(|g: StoppedGroup| g@)
    }
}

impl GroupStop {
    /// Number of groups removed by the stop pass.
    pub fn num_groups(&self) -> (n: usize)
        ensures
            n == self@.len(),
    {
        self.stopped.len()
    }

    /// Whether every task drained by the stop pass has completed; true from
    /// the start when the pass removed no tasks at all.
    pub fn is_resolved(&self) -> (r: bool)
        ensures
            r == all_drained(self@),
    {
        let mut i: usize = 0;
        while i < self.stopped.len()
            invariant
                i <= self.stopped@.len(),
                forall|t: int| 0 <= t < i ==> self@[t].tasks.len() == 0,
            decreases self.stopped@.len() - i,
        {
            if self.stopped[i].tasks.len() > 0 {
                proof {
                    assert(self@[i as int].tasks.len() > 0);
                }
                return false;
            }
            i += 1;
        }
        true
    }

    /// Whether the task tagged `(key, task)` was drained by this stop pass
    /// and has not completed yet.
    pub fn has_pending(&self, key: u64, task: u64) -> (r: bool)
        ensures
            r == pending(self@, key, task),
    {
        let mut i: usize = 0;
        while i < self.stopped.len()
            invariant
                i <= self.stopped@.len(),
                forall|t: int|
                    0 <= t < i ==> !(self@[t].key == key && self@[t].tasks.contains(task)),
            decreases self.stopped@.len() - i,
        {
            if self.stopped[i].key == key && vec_contains(&self.stopped[i].tasks, task) {
                proof {
                    assert(self@[i as int].key == key && self@[i as int].tasks.contains(task));
                }
                return true;
            }
            i += 1;
        }
        false
    }

    /// Record that one drained task has completed: the first task with id
    /// `task` leaves every removed group whose key is `key`. A tag that
    /// matches nothing changes nothing.
    pub fn task_finished(&mut self, key: u64, task: u64)
        ensures
            final(self)@.len() == old(self)@.len(),
            forall|i: int|
                0 <= i < old(self)@.len() && old(self)@[i].key != key
                    ==> final(self)@[i] == old(self)@[i],
            forall|i: int|
                #![trigger old(self)@[i]]
                0 <= i < old(self)@.len() && old(self)@[i].key == key
                    ==> final(self)@[i] == (StoppedModel {
                        key: old(self)@[i].key,
                        signal: old(self)@[i].signal,
                        tasks: remove_first(old(self)@[i].tasks, task),
                    }),
    {
        let ghost vpre = self.stopped@;
        let mut i: usize = 0;
        while i < self.stopped.len()
            invariant
                i <= self.stopped@.len(),
                self.stopped@.len() == vpre.len(),
                forall|t: int| i <= t < vpre.len() ==> self.stopped@[t] == vpre[t],
                forall|t: int|
                    0 <= t < i && vpre[t]@.key != key ==> self.stopped@[t] == vpre[t],
                forall|t: int|
                    #![trigger vpre[t]]
                    0 <= t < i && vpre[t]@.key == key ==> self.stopped@[t]@ == (StoppedModel {
                        key: vpre[t]@.key,
                        signal: vpre[t]@.signal,
                        tasks: remove_first(vpre[t]@.tasks, task),
                    }),
            decreases vpre.len() - i,
        {
            if self.stopped[i].key == key {
                let mut g = self.stopped.remove(i);
                remove_first_task(&mut g.tasks, task);
                self.stopped.insert(i, g);
                proof {
                    assert forall|t: int| i < t < vpre.len()
                        implies self.stopped@[t] == vpre[t] by {
                        assert(self.stopped@[t] == vpre.remove(i as int).insert(
                            i as int,
                            self.stopped@[i as int],
                        )[t]);
                    }
                }
            }
            i += 1;
        }
    }
}

/// Remove the first occurrence of `x` from `v`, if any.
fn remove_first_task(v: &mut Vec<u64>, x: u64)
    ensures
        final(v)@ == remove_first(old(v)@, x),
{
    let mut j: usize = 0;
    while j < v.len()
        invariant
            j <= v@.len(),
            v@ == old(v)@,
            forall|t: int| 0 <= t < j ==> v@[t] != x,
        decreases v@.len() - j,
    {
        if v[j] == x {
            proof {
                old(v)@.index_of_first_ensures(x);
                assert(old(v)@.contains(x));
                assert(old(v)@.index_of_first(x) == Some(j as int));
            }
            v.remove(j);
            return;
        }
        j += 1;
    }
    proof {
        old(v)@.index_of_first_ensures(x);
        if old(v)@.contains(x) {
            let t = choose|t: int| 0 <= t < old(v)@.len() && old(v)@[t] == x;
            assert(false);
        }
    }
}

/// Linear membership scan over a vector of keys.
fn vec_contains(v: &Vec<u64>, x: u64) -> (r: bool)
    ensures
        r == v@.contains(x),
{
    let mut i: usize = 0;
    while i < v.len()
        invariant
            i <= v@.len(),
            forall|j: int| 0 <= j < i ==> v@[j] != x,
        decreases v@.len() - i,
    {
        if v[i] == x {
            return true;
        }
        i += 1;
    }
    false
}

} // verus!
