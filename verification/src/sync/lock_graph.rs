use vstd::prelude::*;
use std::collections::{BTreeMap, BTreeSet};

verus! {

/// Lock type
#[derive(Clone, Copy, PartialEq, Eq, Structural, PartialOrd, Ord, Debug)]
pub enum LockType {
    /// Mutex
    Mutex,
    /// Semaphore
    Semaphore,
}

/// The number a lock type is stored under in the resource table
/// (the order `Mutex < Semaphore` of the lock types).
pub open spec fn lock_code(t: LockType) -> u8 {
    match t {
        LockType::Mutex => 0,
        LockType::Semaphore => 1,
    }
}

/// The key under which the lock `(t, id)` is stored in the resource table.
pub open spec fn lock_key(t: LockType, id: usize) -> (u8, usize) {
    (lock_code(t), id)
}

impl LockType {
    /// The number this lock type is stored under in the resource table.
    pub fn code(self) -> (c: u8)
        ensures
            c == lock_code(self),
    {
        match self {
            LockType::Mutex => 0,
            LockType::Semaphore => 1,
        }
    }
}

/// Different locks are stored under different keys: the key determines the lock type
/// and the lock id.
pub proof fn lemma_lock_key_injective(t1: LockType, id1: usize, t2: LockType, id2: usize)
    ensures
        lock_key(t1, id1) == lock_key(t2, id2) <==> (t1 == t2 && id1 == id2),
{
}

/// `s` with the first occurrence of `x` taken out (`s` itself when `x` does not occur).
pub open spec fn remove_first<A>(s: Seq<A>, x: A) -> Seq<A>
    decreases s.len(),
{
    if s.len() == 0 {
        s
    } else if s[0] == x {
        s.drop_first()
    } else {
        seq![s[0]] + remove_first(s.drop_first(), x)
    }
}

/// Removing at the first position that holds `x` is `remove_first`.
proof fn lemma_remove_first_at<A>(s: Seq<A>, x: A, i: int)
    requires
        0 <= i < s.len(),
        s[i] == x,
        forall|j: int| 0 <= j < i ==> s[j] != x,
    ensures
        remove_first(s, x) == s.remove(i),
    decreases s.len(),
{
    if i == 0 {
        assert(s.drop_first() =~= s.remove(0));
    } else {
        lemma_remove_first_at(s.drop_first(), x, i - 1);
        assert(seq![s[0]] + s.drop_first().remove(i - 1) =~= s.remove(i));
    }
}

/// When `x` does not occur, `remove_first` changes nothing.
proof fn lemma_remove_first_absent<A>(s: Seq<A>, x: A)
    requires
        forall|j: int| 0 <= j < s.len() ==> s[j] != x,
    ensures
        remove_first(s, x) == s,
    decreases s.len(),
{
    if s.len() > 0 {
        lemma_remove_first_absent(s.drop_first(), x);
        assert(seq![s[0]] + s.drop_first() =~= s);
    }
}

/// `remove_first(s, x)` drops the first occurrence of `x` from `s`, at the lowest index
/// that holds `x`, and is `s` itself when `x` does not occur.
pub proof fn lemma_remove_first_drops_first<A>(s: Seq<A>, x: A)
    ensures
        s.contains(x) ==> exists|i: int|
            0 <= i < s.len() && s[i] == x && (forall|j: int| 0 <= j < i ==> s[j] != x)
                && #[trigger] remove_first(s, x) == s.remove(i),
        !s.contains(x) ==> remove_first(s, x) == s,
    decreases s.len(),
{
    if s.contains(x) {
        let i = choose|i: int| 0 <= i < s.len() && s[i] == x;
        let k = first_index(s, x, i);
        lemma_remove_first_at(s, x, k);
    } else {
        lemma_remove_first_absent(s, x);
    }
}

/// The lowest index at or below `i` that holds `x`.
proof fn first_index<A>(s: Seq<A>, x: A, i: int) -> (k: int)
    requires
        0 <= i < s.len(),
        s[i] == x,
    ensures
        0 <= k <= i,
        s[k] == x,
        forall|j: int| 0 <= j < k ==> s[j] != x,
    decreases i,
{
    if exists|j: int| 0 <= j < i && s[j] == x {
        let j = choose|j: int| 0 <= j < i && s[j] == x;
        first_index(s, x, j)
    } else {
        i
    }
}

/// The abstract state of a lock graph.
pub struct LockGraphView {
    /// lock key -> (number of resources of the lock, the threads that hold it, in the order they got it)
    pub resources: Map<(u8, usize), (usize, Seq<usize>)>,
    /// thread -> the locks it waits for, in the order it started waiting
    pub processes: Map<usize, Seq<(LockType, usize)>>,
}

impl LockGraphView {
    /// The locks `tid` waits for; none when it has no entry.
    pub open spec fn waits_of(self, tid: usize) -> Seq<(LockType, usize)> {
        if self.processes.contains_key(tid) {
            self.processes[tid]
        } else {
            Seq::empty()
        }
    }

    /// The threads that hold the lock `key`; none when it has no entry.
    pub open spec fn holders_of(self, key: (u8, usize)) -> Seq<usize> {
        if self.resources.contains_key(key) {
            self.resources[key].1
        } else {
            Seq::empty()
        }
    }

    /// `tid` now also waits for `(lock_type, lock_id)`, at the end of its list.
    pub open spec fn add_dependency(self, tid: usize, lock_type: LockType, lock_id: usize) -> Self {
        LockGraphView {
            resources: self.resources,
            processes: self.processes.insert(tid, self.waits_of(tid).push((lock_type, lock_id))),
        }
    }

    /// The first wait of `tid` for `(lock_type, lock_id)` is dropped; a thread without
    /// an entry keeps none.
    pub open spec fn remove_dependency(self, tid: usize, lock_type: LockType, lock_id: usize) -> Self {
        if self.processes.contains_key(tid) {
            LockGraphView {
                resources: self.resources,
                processes: self.processes.insert(
                    tid,
                    remove_first(self.processes[tid], (lock_type, lock_id)),
                ),
            }
        } else {
            self
        }
    }

    /// `tid` now also holds `(lock_type, lock_id)`; a lock seen for the first time gets
    /// `res_max_count` resources, a known lock keeps its count.
    pub open spec fn allocate_lock(
        self,
        lock_type: LockType,
        lock_id: usize,
        res_max_count: usize,
        tid: usize,
    ) -> Self {
        let key = lock_key(lock_type, lock_id);
        let count = if self.resources.contains_key(key) {
            self.resources[key].0
        } else {
            res_max_count
        };
        LockGraphView {
            resources: self.resources.insert(key, (count, self.holders_of(key).push(tid))),
            processes: self.processes,
        }
    }

    /// The first hold of `tid` on `(lock_type, lock_id)` is dropped; an unknown lock stays unknown.
    pub open spec fn release_lock(self, lock_type: LockType, lock_id: usize, tid: usize) -> Self {
        let key = lock_key(lock_type, lock_id);
        if self.resources.contains_key(key) {
            LockGraphView {
                resources: self.resources.insert(
                    key,
                    (self.resources[key].0, remove_first(self.resources[key].1, tid)),
                ),
                processes: self.processes,
            }
        } else {
            self
        }
    }
}

/// Lock dependency graph
pub struct LockGraph {
    /// resources maintains (lock_type, lock_id) -> (resource number, tid sets)
    resources: BTreeMap<(u8, usize), (usize, Vec<usize>)>,
    /// processes maintains (tid) -> (lock_type, lock_id)
    processes: BTreeMap<usize, Vec<(LockType, usize)>>,
}

impl Clone for LockGraph {
    /// A graph with the same locks, holders and waits.
    fn clone(&self) -> (c: Self)
        ensures
            c@ == self@,
    {
        LockGraph { resources: self.resources.clone(), processes: self.processes.clone() }
    }
}

impl View for LockGraph {
    type V = LockGraphView;

    closed spec fn view(&self) -> LockGraphView {
        LockGraphView {
            resources: self.resources@.map_values(|v: (usize, Vec<usize>)| (v.0, v.1@)),
            processes: self.processes@.map_values(|v: Vec<(LockType, usize)>| v@),
        }
    }
}

impl LockGraph {
    /// Create a new lock graph
    pub fn new() -> (g: Self)
        ensures
            g@.resources == Map::<(u8, usize), (usize, Seq<usize>)>::empty(),
            g@.processes == Map::<usize, Seq<(LockType, usize)>>::empty(),
    {
        let g = LockGraph { resources: BTreeMap::new(), processes: BTreeMap::new() };
        assert(g@.resources =~= Map::<(u8, usize), (usize, Seq<usize>)>::empty());
        assert(g@.processes =~= Map::<usize, Seq<(LockType, usize)>>::empty());
        g
    }

    /// The locks `tid` waits for, in the order it started waiting (none when it has no entry).
    pub fn waits(&self, tid: usize) -> (w: Vec<(LockType, usize)>)
        ensures
            w@ == self@.waits_of(tid),
    {
        let mut w: Vec<(LockType, usize)> = Vec::new();
        match self.processes.get(&tid) {
            None => {},
            Some(deps) => {
                let mut i: usize = 0;
                while i < deps.len()
                    invariant
                        i <= deps.len(),
                        w@ == deps@.take(i as int),
                    decreases deps.len() - i,
                {
                    w.push(deps[i]);
                    assert(deps@.take(i + 1) =~= deps@.take(i as int).push(deps@[i as int]));
                    i += 1;
                }
                assert(deps@.take(deps.len() as int) =~= deps@);
            },
        }
        w
    }

    /// The number of resources of `(lock_type, lock_id)` and the threads that hold it,
    /// in the order they got it; `None` for a lock the graph does not know.
    pub fn holders(&self, lock_type: LockType, lock_id: usize) -> (h: Option<(usize, Vec<usize>)>)
        ensures
            h is None <==> !self@.resources.contains_key(lock_key(lock_type, lock_id)),
            h matches Some(e) ==> e.0 == self@.resources[lock_key(lock_type, lock_id)].0
                && e.1@ == self@.resources[lock_key(lock_type, lock_id)].1,
    {
        let key = (lock_type.code(), lock_id);
        match self.resources.get(&key) {
            None => None,
            Some(entry) => {
                let mut tids: Vec<usize> = Vec::new();
                let mut i: usize = 0;
                while i < entry.1.len()
                    invariant
                        i <= entry.1.len(),
                        tids@ == entry.1@.take(i as int),
                    decreases entry.1.len() - i,
                {
                    tids.push(entry.1[i]);
                    assert(entry.1@.take(i + 1) =~= entry.1@.take(i as int).push(entry.1@[i as int]));
                    i += 1;
                }
                assert(entry.1@.take(entry.1.len() as int) =~= entry.1@);
                Some((entry.0, tids))
            },
        }
    }

    /// add a dependency to the lock graph
    /// means the tid is waiting for lock to be released
    pub fn add_dependency(&mut self, tid: usize, lock_type: LockType, lock_id: usize)
        ensures
            final(self)@ == old(self)@.add_dependency(tid, lock_type, lock_id),
            final(self)@.resources == old(self)@.resources,
            final(self)@.processes.contains_key(tid),
            final(self)@.processes[tid] == (if old(self)@.processes.contains_key(tid) {
                old(self)@.processes[tid]
            } else {
                Seq::empty()
            }).push((lock_type, lock_id)),
            forall|t: usize|
                t != tid ==> (#[trigger] final(self)@.processes.contains_key(t) == old(self)@.processes.contains_key(t)),
            forall|t: usize|
                t != tid && old(self)@.processes.contains_key(t) ==> #[trigger] final(self)@.processes[t] == old(self)@.processes[t],
    {
        let mut deps = match self.processes.remove(&tid) {
            Some(d) => d,
            None => Vec::new(),
        };
        deps.push((lock_type, lock_id));
        self.processes.insert(tid, deps);
        assert(self@.processes =~= old(self)@.add_dependency(tid, lock_type, lock_id).processes);
        assert(self@.resources =~= old(self)@.resources);
    }

    /// remove a dependency from the lock graph
    /// means the tid acquired the lock, so tid no longer depends it
    pub fn remove_dependency(&mut self, tid: usize, lock_type: LockType, lock_id: usize)
        ensures
            final(self)@ == old(self)@.remove_dependency(tid, lock_type, lock_id),
            final(self)@.resources == old(self)@.resources,
            final(self)@.processes.dom() == old(self)@.processes.dom(),
            forall|t: usize|
                t != tid && old(self)@.processes.contains_key(t) ==> #[trigger] final(self)@.processes[t] == old(self)@.processes[t],
            old(self)@.processes.contains_key(tid) ==> ({
                let s = old(self)@.processes[tid];
                let r = final(self)@.processes[tid];
                &&& s.contains((lock_type, lock_id)) ==> exists|i: int|
                    0 <= i < s.len() && s[i] == (lock_type, lock_id) && (forall|j: int|
                        0 <= j < i ==> s[j] != (lock_type, lock_id)) && #[trigger] s.remove(i) == r
                &&& !s.contains((lock_type, lock_id)) ==> r == s
            }),
    {
        match self.processes.remove(&tid) {
            None => {
                assert(self.processes@ =~= old(self).processes@);
            },
            Some(mut deps) => {
                let ghost s = deps@;
                let mut i: usize = 0;
                while i < deps.len()
                    invariant
                        deps@ == s,
                        i <= deps.len(),
                        forall|j: int| 0 <= j < i ==> s[j] != (lock_type, lock_id),
                    ensures
                        deps@ == s,
                        i <= deps.len(),
                        forall|j: int| 0 <= j < i ==> s[j] != (lock_type, lock_id),
                        i < deps.len() ==> s[i as int] == (lock_type, lock_id),
                    decreases deps.len() - i,
                {
                    if deps[i].1 == lock_id && deps[i].0 == lock_type {
                        break;
                    }
                    i += 1;
                }
                if i < deps.len() {
                    proof {
                        lemma_remove_first_at(s, (lock_type, lock_id), i as int);
                    }
                    deps.remove(i);
                } else {
                    proof {
                        lemma_remove_first_absent(s, (lock_type, lock_id));
                    }
                }
                self.processes.insert(tid, deps);
                assert(self@.processes =~= old(self)@.remove_dependency(
                    tid,
                    lock_type,
                    lock_id,
                ).processes);
            },
        }
        assert(self@.resources =~= old(self)@.resources);
    }

    /// allocate a lock
    pub fn allocate_lock(&mut self, lock_type: LockType, lock_id: usize, res_max_count: usize, tid: usize)
        ensures
            final(self)@ == old(self)@.allocate_lock(lock_type, lock_id, res_max_count, tid),
            final(self)@.processes == old(self)@.processes,
            final(self)@.resources.contains_key(lock_key(lock_type, lock_id)),
            final(self)@.resources[lock_key(lock_type, lock_id)] == if old(self)@.resources.contains_key(lock_key(lock_type, lock_id)) {
                (
                    old(self)@.resources[lock_key(lock_type, lock_id)].0,
                    old(self)@.resources[lock_key(lock_type, lock_id)].1.push(tid),
                )
            } else {
                (res_max_count, seq![tid])
            },
            forall|k: (u8, usize)|
                k != lock_key(lock_type, lock_id) ==> (#[trigger] final(self)@.resources.contains_key(k) == old(self)@.resources.contains_key(k)),
            forall|k: (u8, usize)|
                k != lock_key(lock_type, lock_id) && old(self)@.resources.contains_key(k)
                    ==> #[trigger] final(self)@.resources[k] == old(self)@.resources[k],
    {
        let key = (lock_type.code(), lock_id);
        let mut entry = match self.resources.remove(&key) {
            Some(e) => e,
            None => (res_max_count, Vec::new()),
        };
        entry.1.push(tid);
        self.resources.insert(key, entry);
        assert(self@.resources =~= old(self)@.allocate_lock(
            lock_type,
            lock_id,
            res_max_count,
            tid,
        ).resources);
        assert(self@.processes =~= old(self)@.processes);
    }

    /// release a lock
    pub fn release_lock(&mut self, lock_type: LockType, lock_id: usize, tid: usize)
        ensures
            final(self)@ == old(self)@.release_lock(lock_type, lock_id, tid),
            final(self)@.processes == old(self)@.processes,
            final(self)@.resources.dom() == old(self)@.resources.dom(),
            forall|k: (u8, usize)|
                k != lock_key(lock_type, lock_id) && old(self)@.resources.contains_key(k)
                    ==> #[trigger] final(self)@.resources[k] == old(self)@.resources[k],
            old(self)@.resources.contains_key(lock_key(lock_type, lock_id)) ==> ({
                let (c, s) = old(self)@.resources[lock_key(lock_type, lock_id)];
                let (c2, r) = final(self)@.resources[lock_key(lock_type, lock_id)];
                &&& c2 == c
                &&& s.contains(tid) ==> exists|i: int|
                    0 <= i < s.len() && s[i] == tid && (forall|j: int| 0 <= j < i ==> s[j] != tid)
                        && #[trigger] s.remove(i) == r
                &&& !s.contains(tid) ==> r == s
            }),
    {
        let key = (lock_type.code(), lock_id);
        match self.resources.remove(&key) {
            None => {
                assert(self.resources@ =~= old(self).resources@);
            },
            Some(entry) => {
                let (count, mut tids) = entry;
                let ghost s = tids@;
                let mut i: usize = 0;
                while i < tids.len()
                    invariant
                        tids@ == s,
                        i <= tids.len(),
                        forall|j: int| 0 <= j < i ==> s[j] != tid,
                    ensures
                        tids@ == s,
                        i <= tids.len(),
                        forall|j: int| 0 <= j < i ==> s[j] != tid,
                        i < tids.len() ==> s[i as int] == tid,
                    decreases tids.len() - i,
                {
                    if tids[i] == tid {
                        break;
                    }
                    i += 1;
                }
                if i < tids.len() {
                    proof {
                        lemma_remove_first_at(s, tid, i as int);
                    }
                    tids.remove(i);
                } else {
                    proof {
                        lemma_remove_first_absent(s, tid);
                    }
                }
                self.resources.insert(key, (count, tids));
                assert(self@.resources =~= old(self)@.release_lock(
                    lock_type,
                    lock_id,
                    tid,
                ).resources);
            },
        }
        assert(self@.processes =~= old(self)@.processes);
    }
}


/// Every element is smaller than the ones after it.
pub open spec fn strictly_increasing(q: Seq<usize>) -> bool {
    forall|i: int, j: int| 0 <= i < j < q.len() ==> q[i] < q[j]
}

/// The elements of `s` in ascending order.
pub open spec fn ascending(s: Set<usize>) -> Seq<usize> {
    choose|q: Seq<usize>| strictly_increasing(q) && q.to_set() == s
}

/// Two strictly increasing sequences with the same elements are equal.
proof fn lemma_increasing_unique(a: Seq<usize>, b: Seq<usize>)
    requires
        strictly_increasing(a),
        strictly_increasing(b),
        a.to_set() == b.to_set(),
    ensures
        a == b,
    decreases a.len(),
{
    if a.len() == 0 {
        if b.len() > 0 {
            assert(b.to_set().contains(b[0]));
        }
        assert(a =~= b);
    } else {
        assert(a.to_set().contains(a[0]));
        assert(b.len() > 0);
        assert(b.to_set().contains(b[0]));
        assert(b.contains(a[0]));
        assert(a.contains(b[0]));
        let k = choose|k: int| 0 <= k < b.len() && b[k] == a[0];
        let m = choose|m: int| 0 <= m < a.len() && a[m] == b[0];
        assert(a[0] == b[0]);
        let ta = a.drop_first();
        let tb = b.drop_first();
        assert forall|x: usize| ta.to_set().contains(x) implies tb.to_set().contains(x) by {
            let i = choose|i: int| 0 <= i < ta.len() && ta[i] == x;
            assert(a[i + 1] == x);
            assert(b.to_set().contains(x));
            let j = choose|j: int| 0 <= j < b.len() && b[j] == x;
            assert(j != 0);
            assert(tb[j - 1] == x);
        }
        assert forall|x: usize| tb.to_set().contains(x) implies ta.to_set().contains(x) by {
            let i = choose|i: int| 0 <= i < tb.len() && tb[i] == x;
            assert(b[i + 1] == x);
            assert(a.to_set().contains(x));
            let j = choose|j: int| 0 <= j < a.len() && a[j] == x;
            assert(j != 0);
            assert(ta[j - 1] == x);
        }
        assert(ta.to_set() =~= tb.to_set());
        lemma_increasing_unique(ta, tb);
        assert(a.len() == b.len());
        assert forall|i: int| 0 <= i < a.len() implies a[i] == b[i] by {
            if i > 0 {
                assert(a[i] == ta[i - 1]);
                assert(b[i] == tb[i - 1]);
            }
        }
        assert(a =~= b);
    }
}

/// A strictly increasing sequence of the elements of `s` is `ascending(s)`.
proof fn lemma_ascending_is(q: Seq<usize>, s: Set<usize>)
    requires
        strictly_increasing(q),
        q.to_set() == s,
    ensures
        ascending(s) == q,
{
    let a = ascending(s);
    assert(strictly_increasing(a) && a.to_set() == s);
    lemma_increasing_unique(a, q);
}

/// A finite set has an ascending enumeration, as long as the set.
pub proof fn lemma_ascending_finite(s: Set<usize>)
    requires
        s.finite(),
    ensures
        strictly_increasing(ascending(s)),
        ascending(s).to_set() == s,
        ascending(s).len() == s.len(),
    decreases s.len(),
{
    if s.len() == 0 {
        let q = Seq::<usize>::empty();
        assert(s =~= Set::<usize>::empty()) by {
            if exists|x: usize| s.contains(x) {
                let x = choose|x: usize| s.contains(x);
                vstd::set::axiom_set_remove_len(s, x);
            }
        }
        assert(q.to_set() =~= s);
        lemma_ascending_is(q, s);
    } else {
        let leq = |a: usize, b: usize| a <= b;
        assert(vstd::relations::total_ordering(leq));
        s.find_unique_minimal_ensures(leq);
        let m = s.find_unique_minimal(leq);
        let rest = s.remove(m);
        vstd::set::axiom_set_remove_len(s, m);
        lemma_ascending_finite(rest);
        let tail = ascending(rest);
        let q = seq![m] + tail;
        assert forall|i: int, j: int| 0 <= i < j < q.len() implies q[i] < q[j] by {
            if i == 0 {
                assert(q[j] == tail[j - 1]);
                assert(tail.to_set().contains(tail[j - 1]));
                assert(s.contains(q[j]));
                assert(q[j] != m);
                if q[j] <= m {
                    assert(leq(q[j], m));
                    assert(leq(m, q[j]));
                }
            } else {
                assert(q[i] == tail[i - 1]);
                assert(q[j] == tail[j - 1]);
            }
        }
        assert forall|x: usize| q.to_set().contains(x) <==> s.contains(x) by {
            if q.to_set().contains(x) {
                let k = choose|k: int| 0 <= k < q.len() && q[k] == x;
                if k > 0 {
                    assert(tail[k - 1] == x);
                    assert(tail.to_set().contains(x));
                }
            }
            if s.contains(x) {
                if x == m {
                    assert(q[0] == x);
                } else {
                    assert(rest.contains(x));
                    assert(tail.to_set().contains(x));
                    let k = choose|k: int| 0 <= k < tail.len() && tail[k] == x;
                    assert(q[k + 1] == x);
                }
            }
        }
        assert(q.to_set() =~= s);
        lemma_ascending_is(q, s);
    }
}

/// The elements of `v` without repetition, in ascending order.
fn sorted_distinct(v: &Vec<usize>) -> (r: Vec<usize>)
    ensures
        strictly_increasing(r@),
        r@.to_set() == v@.to_set(),
{
    let mut r: Vec<usize> = Vec::new();
    let mut i: usize = 0;
    while i < v.len()
        invariant
            i <= v.len(),
            strictly_increasing(r@),
            r@.to_set() == v@.take(i as int).to_set(),
        decreases v.len() - i,
    {
        let x = v[i];
        let mut p: usize = 0;
        while p < r.len() && r[p] < x
            invariant
                p <= r.len(),
                forall|j: int| 0 <= j < p ==> r@[j] < x,
            decreases r.len() - p,
        {
            p += 1;
        }
        let ghost old_r = r@;
        if p < r.len() && r[p] == x {
        } else {
            r.insert(p, x);
            assert forall|a: int, b: int| 0 <= a < b < r@.len() implies r@[a] < r@[b] by {
                if b < p {
                } else if b == p {
                } else if a < p {
                    assert(r@[b] == old_r[b - 1]);
                    assert(p < old_r.len());
                    assert(old_r[p as int] > x);
                } else if a == p {
                    assert(old_r[p as int] > x);
                } else {
                }
            }
        }
        let ghost prev = v@.take(i as int);
        let ghost next = v@.take(i + 1);
        assert(next =~= prev.push(x));
        assert forall|y: usize| r@.to_set().contains(y) <==> next.to_set().contains(y) by {
            if r@.to_set().contains(y) {
                let k = choose|k: int| 0 <= k < r@.len() && r@[k] == y;
                if y != x {
                    if r@.len() == old_r.len() || k < p {
                        assert(old_r[k] == y);
                    } else {
                        assert(old_r[k - 1] == y);
                    }
                    assert(old_r.to_set().contains(y));
                    assert(prev.to_set().contains(y));
                    let m = choose|m: int| 0 <= m < prev.len() && prev[m] == y;
                    assert(next[m] == y);
                } else {
                    assert(next[i as int] == x);
                }
            }
            if next.to_set().contains(y) {
                let m = choose|m: int| 0 <= m < next.len() && next[m] == y;
                if m < i {
                    assert(prev[m] == y);
                    assert(prev.to_set().contains(y));
                    assert(old_r.to_set().contains(y));
                    let k = choose|k: int| 0 <= k < old_r.len() && old_r[k] == y;
                    if r@.len() == old_r.len() {
                        assert(r@[k] == y);
                    } else if k < p {
                        assert(r@[k] == y);
                    } else {
                        assert(r@[k + 1] == y);
                    }
                } else {
                    assert(r@[p as int] == y);
                }
            }
        }
        assert(r@.to_set() =~= next.to_set());
        i += 1;
    }
    assert(v@.take(v.len() as int) =~= v@);
    r
}


/// A node of the wait-for graph: a lock, by its key, or a thread.
pub enum GraphNode {
    Lock((u8, usize)),
    Thread(usize),
}

impl LockGraphView {
    /// Lock `key` is known and the units held, a thread holding several counted each
    /// time, use up all of its resources.
    pub open spec fn used_up(self, key: (u8, usize)) -> bool {
        &&& self.resources.contains_key(key)
        &&& self.resources[key].1.len() >= self.resources[key].0
    }

    /// Thread `tid` waits for the lock with key `key`.
    pub open spec fn waits_for(self, tid: usize, key: (u8, usize)) -> bool {
        exists|j: int|
            0 <= j < self.waits_of(tid).len() && lock_key(
                #[trigger] self.waits_of(tid)[j].0,
                self.waits_of(tid)[j].1,
            ) == key
    }

    /// An edge of the wait-for graph: a used-up lock points to each thread that holds
    /// it, and a thread points to each lock it waits for.
    pub open spec fn edge(self, a: GraphNode, b: GraphNode) -> bool {
        match a {
            GraphNode::Lock(k) => match b {
                GraphNode::Thread(t) => self.used_up(k) && self.resources[k].1.contains(t),
                GraphNode::Lock(_) => false,
            },
            GraphNode::Thread(t) => match b {
                GraphNode::Lock(k) => self.waits_for(t, k),
                GraphNode::Thread(_) => false,
            },
        }
    }

    /// `path` follows edges of the wait-for graph and its last step comes back to a
    /// node met before, which it does not repeat until then: it leads from `path[0]`
    /// into a cycle of the wait-for graph, every lock of which is used up.
    pub open spec fn is_deadlock_path(self, path: Seq<GraphNode>) -> bool {
        &&& path.len() >= 2
        &&& forall|i: int, j: int|
            0 <= i && j == i + 1 && j < path.len() ==> #[trigger] self.edge(path[i], path[j])
        &&& path.drop_last().no_duplicates()
        &&& path.drop_last().contains(path.last())
    }

    /// Requesting `(lock_type, lock_id)` deadlocks: from that lock the wait-for graph
    /// leads into a cycle, whose locks are all used up by their holders.
    pub open spec fn has_cycle(self, lock_type: LockType, lock_id: usize) -> bool {
        exists|path: Seq<GraphNode>|
            #[trigger] self.is_deadlock_path(path) && path[0] == GraphNode::Lock(
                lock_key(lock_type, lock_id),
            )
    }

    /// A depth bound that the deadlock search never reaches: one more than the
    /// number of locks and threads in the graph.
    pub open spec fn search_fuel(self) -> nat {
        self.resources.dom().len() + self.processes.dom().len() + 1
    }

    /// For each lock its number of resources, the set of its holders and the number of
    /// units they hold.
    pub open spec fn hold_graph(self) -> HoldGraph {
        HoldGraph {
            holders: self.resources.map_values(
                |v: (usize, Seq<usize>)| (v.0, v.1.to_set(), v.1.len()),
            ),
            waits: self.processes,
        }
    }
}

/// What the deadlock search reads of a lock graph: for each lock its number of
/// resources, the set of threads that hold it and the number of units held, and for
/// each thread the locks it waits for, in order.
pub struct HoldGraph {
    pub holders: Map<(u8, usize), (usize, Set<usize>, nat)>,
    pub waits: Map<usize, Seq<(LockType, usize)>>,
}

/// Whether the depth-first search from lock `key`, with the locks `rv` and the threads
/// `pv` on the current search path, at most `fuel` steps deep, meets a node of that
/// path again. A lock on the path closes a cycle; an unknown lock, or one with
/// resources left, leads nowhere; otherwise the search goes on to the lock's holders.
pub open spec fn lock_reaches(
    g: HoldGraph,
    key: (u8, usize),
    rv: Set<(u8, usize)>,
    pv: Set<usize>,
    fuel: nat,
) -> bool
    decreases fuel, 0nat, 0int,
{
    if fuel == 0 {
        false
    } else if rv.contains(key) {
        true
    } else if !g.holders.contains_key(key) || g.holders[key].2 < g.holders[key].0 {
        false
    } else {
        holders_reach(g, ascending(g.holders[key].1), 0, rv.insert(key), pv, (fuel - 1) as nat)
    }
}

/// Whether the search from one of the holders `owners[i..]` meets the path again.
pub open spec fn holders_reach(
    g: HoldGraph,
    owners: Seq<usize>,
    i: int,
    rv: Set<(u8, usize)>,
    pv: Set<usize>,
    fuel: nat,
) -> bool
    decreases fuel, 1nat, owners.len() - i,
{
    if i < 0 || i >= owners.len() {
        false
    } else {
        thread_reaches(g, owners[i], rv, pv, fuel) || holders_reach(g, owners, i + 1, rv, pv, fuel)
    }
}

/// Whether the depth-first search from thread `tid` meets a node of the current path
/// again. A thread on the path closes a cycle; a thread that never waited leads
/// nowhere; otherwise the search goes on to the locks it waits for.
pub open spec fn thread_reaches(
    g: HoldGraph,
    tid: usize,
    rv: Set<(u8, usize)>,
    pv: Set<usize>,
    fuel: nat,
) -> bool
    decreases fuel, 0nat, 0int,
{
    if fuel == 0 {
        false
    } else if pv.contains(tid) {
        true
    } else if !g.waits.contains_key(tid) {
        false
    } else {
        waits_reach(g, g.waits[tid], 0, rv, pv.insert(tid), (fuel - 1) as nat)
    }
}

/// Whether the search from one of the locks `locks[i..]` meets the path again.
pub open spec fn waits_reach(
    g: HoldGraph,
    locks: Seq<(LockType, usize)>,
    i: int,
    rv: Set<(u8, usize)>,
    pv: Set<usize>,
    fuel: nat,
) -> bool
    decreases fuel, 1nat, locks.len() - i,
{
    if i < 0 || i >= locks.len() {
        false
    } else {
        lock_reaches(g, lock_key(locks[i].0, locks[i].1), rv, pv, fuel) || waits_reach(
            g,
            locks,
            i + 1,
            rv,
            pv,
            fuel,
        )
    }
}

/// The locks on a search path.
pub open spec fn lock_marks(path: Seq<GraphNode>) -> Set<(u8, usize)> {
    Set::new(|k: (u8, usize)| path.contains(GraphNode::Lock(k)))
}

/// The threads on a search path.
pub open spec fn thread_marks(path: Seq<GraphNode>) -> Set<usize> {
    Set::new(|t: usize| path.contains(GraphNode::Thread(t)))
}

/// `walk` follows edges of the wait-for graph.
pub open spec fn is_walk(v: LockGraphView, walk: Seq<GraphNode>) -> bool {
    forall|i: int, j: int| 0 <= i && j == i + 1 && j < walk.len() ==> #[trigger] v.edge(walk[i], walk[j])
}

proof fn lemma_marks_push(path: Seq<GraphNode>, n: GraphNode)
    ensures
        lock_marks(path.push(n)) == (match n {
            GraphNode::Lock(k) => lock_marks(path).insert(k),
            GraphNode::Thread(_) => lock_marks(path),
        }),
        thread_marks(path.push(n)) == (match n {
            GraphNode::Thread(t) => thread_marks(path).insert(t),
            GraphNode::Lock(_) => thread_marks(path),
        }),
{
    assert forall|x: GraphNode| #[trigger] path.push(n).contains(x) <==> (path.contains(x) || x == n) by {
        if path.push(n).contains(x) {
            let i = choose|i: int| 0 <= i < path.push(n).len() && path.push(n)[i] == x;
            if i < path.len() {
                assert(path[i] == x);
            }
        }
        if path.contains(x) {
            let i = choose|i: int| 0 <= i < path.len() && path[i] == x;
            assert(path.push(n)[i] == x);
        }
        if x == n {
            assert(path.push(n)[path.len() as int] == x);
        }
    }
    match n {
        GraphNode::Lock(k) => {
            assert forall|k2: (u8, usize)| #[trigger] lock_marks(path.push(n)).contains(k2) == lock_marks(path).insert(k).contains(k2) by {
                assert(path.push(n).contains(GraphNode::Lock(k2)) == (path.contains(GraphNode::Lock(k2)) || GraphNode::Lock(k2) == n));
            }
            assert(lock_marks(path.push(n)) =~= lock_marks(path).insert(k));
            assert forall|t2: usize| #[trigger] thread_marks(path.push(n)).contains(t2) == thread_marks(path).contains(t2) by {
                assert(path.push(n).contains(GraphNode::Thread(t2)) == (path.contains(GraphNode::Thread(t2)) || GraphNode::Thread(t2) == n));
            }
            assert(thread_marks(path.push(n)) =~= thread_marks(path));
        },
        GraphNode::Thread(t) => {
            assert forall|k2: (u8, usize)| #[trigger] lock_marks(path.push(n)).contains(k2) == lock_marks(path).contains(k2) by {
                assert(path.push(n).contains(GraphNode::Lock(k2)) == (path.contains(GraphNode::Lock(k2)) || GraphNode::Lock(k2) == n));
            }
            assert(lock_marks(path.push(n)) =~= lock_marks(path));
            assert forall|t2: usize| #[trigger] thread_marks(path.push(n)).contains(t2) == thread_marks(path).insert(t).contains(t2) by {
                assert(path.push(n).contains(GraphNode::Thread(t2)) == (path.contains(GraphNode::Thread(t2)) || GraphNode::Thread(t2) == n));
            }
            assert(thread_marks(path.push(n)) =~= thread_marks(path).insert(t));
        },
    }
}

/// A successful loop over holders has a holder whose search succeeds.
proof fn lemma_holders_pick(
    g: HoldGraph,
    owners: Seq<usize>,
    i: int,
    rv: Set<(u8, usize)>,
    pv: Set<usize>,
    fuel: nat,
) -> (j: int)
    requires
        holders_reach(g, owners, i, rv, pv, fuel),
    ensures
        0 <= i <= j < owners.len(),
        thread_reaches(g, owners[j], rv, pv, fuel),
    decreases owners.len() - i,
{
    if thread_reaches(g, owners[i], rv, pv, fuel) {
        i
    } else {
        lemma_holders_pick(g, owners, i + 1, rv, pv, fuel)
    }
}

/// A successful loop over waits has a lock whose search succeeds.
proof fn lemma_waits_pick(
    g: HoldGraph,
    locks: Seq<(LockType, usize)>,
    i: int,
    rv: Set<(u8, usize)>,
    pv: Set<usize>,
    fuel: nat,
) -> (j: int)
    requires
        waits_reach(g, locks, i, rv, pv, fuel),
    ensures
        0 <= i <= j < locks.len(),
        lock_reaches(g, lock_key(locks[j].0, locks[j].1), rv, pv, fuel),
    decreases locks.len() - i,
{
    if lock_reaches(g, lock_key(locks[i].0, locks[i].1), rv, pv, fuel) {
        i
    } else {
        lemma_waits_pick(g, locks, i + 1, rv, pv, fuel)
    }
}

/// The loop over holders succeeds when the search from a holder ahead succeeds.
proof fn lemma_holders_from(
    g: HoldGraph,
    owners: Seq<usize>,
    i: int,
    j: int,
    rv: Set<(u8, usize)>,
    pv: Set<usize>,
    fuel: nat,
)
    requires
        0 <= i <= j < owners.len(),
        thread_reaches(g, owners[j], rv, pv, fuel),
    ensures
        holders_reach(g, owners, i, rv, pv, fuel),
    decreases j - i,
{
    if i < j {
        lemma_holders_from(g, owners, i + 1, j, rv, pv, fuel);
    }
}

/// The loop over waits succeeds when the search from a lock ahead succeeds.
proof fn lemma_waits_from(
    g: HoldGraph,
    locks: Seq<(LockType, usize)>,
    i: int,
    j: int,
    rv: Set<(u8, usize)>,
    pv: Set<usize>,
    fuel: nat,
)
    requires
        0 <= i <= j < locks.len(),
        lock_reaches(g, lock_key(locks[j].0, locks[j].1), rv, pv, fuel),
    ensures
        waits_reach(g, locks, i, rv, pv, fuel),
    decreases j - i,
{
    if i < j {
        lemma_waits_from(g, locks, i + 1, j, rv, pv, fuel);
    }
}

/// The walk ending in lock `key`, whose earlier nodes are the search path, is
/// extended by a successful search into a deadlock path.
proof fn lemma_lock_sound(
    v: LockGraphView,
    key: (u8, usize),
    fuel: nat,
    walk: Seq<GraphNode>,
)
    requires
        walk.len() >= 1,
        walk.last() == GraphNode::Lock(key),
        is_walk(v, walk),
        walk.drop_last().no_duplicates(),
        lock_reaches(
            v.hold_graph(),
            key,
            lock_marks(walk.drop_last()),
            thread_marks(walk.drop_last()),
            fuel,
        ),
    ensures
        exists|path: Seq<GraphNode>| #[trigger] v.is_deadlock_path(path) && path[0] == walk[0],
    decreases fuel,
{
    let g = v.hold_graph();
    let prefix = walk.drop_last();
    let rv = lock_marks(prefix);
    let pv = thread_marks(prefix);
    if rv.contains(key) {
        assert(v.is_deadlock_path(walk));
    } else {
        assert(v.resources.contains_key(key));
        let hs = v.resources[key].1;
        assert(g.holders[key] == (v.resources[key].0, hs.to_set(), hs.len()));
        lemma_ascending_finite(hs.to_set());
        let owners = ascending(hs.to_set());
        let j = lemma_holders_pick(g, owners, 0, rv.insert(key), pv, (fuel - 1) as nat);
        let t = owners[j];
        assert(owners.to_set().contains(t));
        assert(hs.contains(t));
        let walk2 = walk.push(GraphNode::Thread(t));
        lemma_marks_push(prefix, GraphNode::Lock(key));
        assert(prefix.push(GraphNode::Lock(key)) =~= walk);
        assert(walk2.drop_last() =~= walk);
        assert(walk.no_duplicates()) by {
            assert forall|a: int, b: int| 0 <= a < walk.len() && 0 <= b < walk.len() && a != b implies walk[a] != walk[b] by {
                if a < prefix.len() && b < prefix.len() {
                    assert(prefix[a] == walk[a] && prefix[b] == walk[b]);
                } else if a < prefix.len() {
                    assert(prefix[a] == walk[a]);
                    assert(!prefix.contains(GraphNode::Lock(key)));
                } else if b < prefix.len() {
                    assert(prefix[b] == walk[b]);
                    assert(!prefix.contains(GraphNode::Lock(key)));
                }
            }
        }
        assert(is_walk(v, walk2)) by {
            assert forall|a: int, b: int| 0 <= a && b == a + 1 && b < walk2.len() implies #[trigger] v.edge(walk2[a], walk2[b]) by {
                if b < walk.len() {
                    assert(walk2[a] == walk[a] && walk2[b] == walk[b]);
                    assert(v.edge(walk[a], walk[b]));
                } else {
                    assert(walk2[a] == GraphNode::Lock(key));
                    assert(v.used_up(key));
                }
            }
        }
        lemma_thread_sound(v, t, (fuel - 1) as nat, walk2);
        assert(walk2[0] == walk[0]);
    }
}

/// The walk ending in thread `tid`, whose earlier nodes are the search path, is
/// extended by a successful search into a deadlock path.
proof fn lemma_thread_sound(v: LockGraphView, tid: usize, fuel: nat, walk: Seq<GraphNode>)
    requires
        walk.len() >= 1,
        walk.last() == GraphNode::Thread(tid),
        is_walk(v, walk),
        walk.drop_last().no_duplicates(),
        thread_reaches(
            v.hold_graph(),
            tid,
            lock_marks(walk.drop_last()),
            thread_marks(walk.drop_last()),
            fuel,
        ),
    ensures
        exists|path: Seq<GraphNode>| #[trigger] v.is_deadlock_path(path) && path[0] == walk[0],
    decreases fuel,
{
    let g = v.hold_graph();
    let prefix = walk.drop_last();
    let rv = lock_marks(prefix);
    let pv = thread_marks(prefix);
    if pv.contains(tid) {
        assert(v.is_deadlock_path(walk));
    } else {
        let w = g.waits[tid];
        assert(v.waits_of(tid) == w);
        let j = lemma_waits_pick(g, w, 0, rv, pv.insert(tid), (fuel - 1) as nat);
        let key = lock_key(w[j].0, w[j].1);
        assert(v.waits_for(tid, key));
        let walk2 = walk.push(GraphNode::Lock(key));
        lemma_marks_push(prefix, GraphNode::Thread(tid));
        assert(prefix.push(GraphNode::Thread(tid)) =~= walk);
        assert(walk2.drop_last() =~= walk);
        assert(walk.no_duplicates()) by {
            assert forall|a: int, b: int| 0 <= a < walk.len() && 0 <= b < walk.len() && a != b implies walk[a] != walk[b] by {
                if a < prefix.len() && b < prefix.len() {
                    assert(prefix[a] == walk[a] && prefix[b] == walk[b]);
                } else if a < prefix.len() {
                    assert(prefix[a] == walk[a]);
                    assert(!prefix.contains(GraphNode::Thread(tid)));
                } else if b < prefix.len() {
                    assert(prefix[b] == walk[b]);
                    assert(!prefix.contains(GraphNode::Thread(tid)));
                }
            }
        }
        assert(is_walk(v, walk2)) by {
            assert forall|a: int, b: int| 0 <= a && b == a + 1 && b < walk2.len() implies #[trigger] v.edge(walk2[a], walk2[b]) by {
                if b < walk.len() {
                    assert(walk2[a] == walk[a] && walk2[b] == walk[b]);
                    assert(v.edge(walk[a], walk[b]));
                } else {
                    assert(walk2[a] == GraphNode::Thread(tid));
                }
            }
        }
        lemma_lock_sound(v, key, (fuel - 1) as nat, walk2);
        assert(walk2[0] == walk[0]);
    }
}

/// Along a deadlock path, the search from node `j`, with the nodes before it on the
/// search path, succeeds with enough depth left.
proof fn lemma_path_found(v: LockGraphView, path: Seq<GraphNode>, j: int, fuel: nat)
    requires
        v.is_deadlock_path(path),
        0 <= j < path.len(),
        fuel >= path.len() - j,
    ensures
        match path[j] {
            GraphNode::Lock(k) => lock_reaches(
                v.hold_graph(),
                k,
                lock_marks(path.take(j)),
                thread_marks(path.take(j)),
                fuel,
            ),
            GraphNode::Thread(t) => thread_reaches(
                v.hold_graph(),
                t,
                lock_marks(path.take(j)),
                thread_marks(path.take(j)),
                fuel,
            ),
        },
    decreases path.len() - j,
{
    let g = v.hold_graph();
    let before = path.take(j);
    let n = path.len() as int;
    if j == n - 1 {
        assert(before =~= path.drop_last());
        let i = choose|i: int| 0 <= i < before.len() && before[i] == path.last();
        assert(before.contains(path[j]));
    } else if before.contains(path[j]) {
    } else {
        let m = path[j + 1];
        assert(v.edge(path[j], path[j + 1]));
        assert(path.take(j + 1) =~= before.push(path[j]));
        lemma_marks_push(before, path[j]);
        lemma_path_found(v, path, j + 1, (fuel - 1) as nat);
        match path[j] {
            GraphNode::Lock(k) => {
                let t = match m {
                    GraphNode::Thread(t) => t,
                    GraphNode::Lock(_) => 0,
                };
                assert(m == GraphNode::Thread(t));
                let hs = v.resources[k].1;
                assert(g.holders[k] == (v.resources[k].0, hs.to_set(), hs.len()));
                lemma_ascending_finite(hs.to_set());
                let owners = ascending(hs.to_set());
                assert(hs.to_set().contains(t));
                assert(owners.to_set().contains(t));
                let i = choose|i: int| 0 <= i < owners.len() && owners[i] == t;
                assert(!lock_marks(before).contains(k));
                lemma_holders_from(
                    g,
                    owners,
                    0,
                    i,
                    lock_marks(before).insert(k),
                    thread_marks(before),
                    (fuel - 1) as nat,
                );
            },
            GraphNode::Thread(t) => {
                let k = match m {
                    GraphNode::Lock(k) => k,
                    GraphNode::Thread(_) => (0u8, 0usize),
                };
                assert(m == GraphNode::Lock(k));
                assert(v.waits_for(t, k));
                let w = v.waits_of(t);
                let i = choose|i: int| 0 <= i < w.len() && lock_key(#[trigger] w[i].0, w[i].1) == k;
                assert(v.processes.contains_key(t));
                assert(g.waits[t] == w);
                assert(!thread_marks(before).contains(t));
                lemma_waits_from(
                    g,
                    w,
                    0,
                    i,
                    lock_marks(before),
                    thread_marks(before).insert(t),
                    (fuel - 1) as nat,
                );
            },
        }
    }
}

/// A deadlock path visits no more distinct nodes than the graph has locks and threads.
proof fn lemma_path_fits(v: LockGraphView, path: Seq<GraphNode>)
    requires
        v.is_deadlock_path(path),
        v.resources.dom().finite(),
        v.processes.dom().finite(),
    ensures
        path.len() <= v.search_fuel(),
{
    let prefix = path.drop_last();
    let locks = v.resources.dom().map(|k: (u8, usize)| GraphNode::Lock(k));
    let threads = v.processes.dom().map(|t: usize| GraphNode::Thread(t));
    vstd::set_lib::lemma_map_size_bound(v.resources.dom(), locks, |k: (u8, usize)| GraphNode::Lock(k));
    vstd::set_lib::lemma_map_size_bound(v.processes.dom(), threads, |t: usize| GraphNode::Thread(t));
    vstd::set_lib::lemma_len_union(locks, threads);
    assert forall|x: GraphNode| prefix.to_set().contains(x) implies locks.union(threads).contains(x) by {
        let i = choose|i: int| 0 <= i < prefix.len() && prefix[i] == x;
        assert(path[i] == x);
        assert(v.edge(path[i], path[i + 1]));
        match x {
            GraphNode::Lock(k) => {
                assert(v.resources.contains_key(k));
                assert(locks.contains(GraphNode::Lock(k)));
            },
            GraphNode::Thread(t) => {
                if !v.processes.contains_key(t) {
                    assert(v.waits_of(t) =~= Seq::<(LockType, usize)>::empty());
                }
                assert(threads.contains(GraphNode::Thread(t)));
            },
        }
    }
    prefix.unique_seq_to_set();
    vstd::set_lib::lemma_len_subset(prefix.to_set(), locks.union(threads));
}

/// The deadlock search from a lock, with nothing on the path and the graph's depth
/// bound, succeeds exactly when requesting the lock deadlocks.
proof fn lemma_search_decides(v: LockGraphView, lock_type: LockType, lock_id: usize)
    requires
        v.resources.dom().finite(),
        v.processes.dom().finite(),
    ensures
        lock_reaches(
            v.hold_graph(),
            lock_key(lock_type, lock_id),
            Set::empty(),
            Set::empty(),
            v.search_fuel(),
        ) == v.has_cycle(lock_type, lock_id),
{
    let key = lock_key(lock_type, lock_id);
    let start = seq![GraphNode::Lock(key)];
    assert(start.drop_last() =~= Seq::<GraphNode>::empty());
    assert(lock_marks(Seq::<GraphNode>::empty()) =~= Set::<(u8, usize)>::empty());
    assert(thread_marks(Seq::<GraphNode>::empty()) =~= Set::<usize>::empty());
    if lock_reaches(v.hold_graph(), key, Set::empty(), Set::empty(), v.search_fuel()) {
        lemma_lock_sound(v, key, v.search_fuel(), start);
    }
    if v.has_cycle(lock_type, lock_id) {
        let path = choose|path: Seq<GraphNode>|
            #[trigger] v.is_deadlock_path(path) && path[0] == GraphNode::Lock(key);
        lemma_path_fits(v, path);
        assert(path.take(0) =~= Seq::<GraphNode>::empty());
        lemma_path_found(v, path, 0, v.search_fuel());
    }
}

/// The number of locks and threads of `g` that are not marked visited.
pub open spec fn unvisited(g: HoldGraph, rv: Set<(u8, usize)>, pv: Set<usize>) -> nat {
    g.holders.dom().difference(rv).len() + g.waits.dom().difference(pv).len()
}

/// Marking a known, unmarked lock leaves one fewer unvisited.
proof fn lemma_unvisited_mark_lock(g: HoldGraph, key: (u8, usize), rv: Set<(u8, usize)>, pv: Set<usize>)
    requires
        g.holders.dom().finite(),
        g.waits.dom().finite(),
        g.holders.contains_key(key),
        !rv.contains(key),
    ensures
        unvisited(g, rv.insert(key), pv) + 1 == unvisited(g, rv, pv),
{
    let d = g.holders.dom().difference(rv);
    vstd::set_lib::lemma_len_difference(g.holders.dom(), rv);
    assert(g.holders.dom().difference(rv.insert(key)) =~= d.remove(key));
    assert(d.contains(key));
}

/// Marking a waiting, unmarked thread leaves one fewer unvisited.
proof fn lemma_unvisited_mark_thread(g: HoldGraph, tid: usize, rv: Set<(u8, usize)>, pv: Set<usize>)
    requires
        g.holders.dom().finite(),
        g.waits.dom().finite(),
        g.waits.contains_key(tid),
        !pv.contains(tid),
    ensures
        unvisited(g, rv, pv.insert(tid)) + 1 == unvisited(g, rv, pv),
{
    let d = g.waits.dom().difference(pv);
    vstd::set_lib::lemma_len_difference(g.waits.dom(), pv);
    assert(g.waits.dom().difference(pv.insert(tid)) =~= d.remove(tid));
    assert(d.contains(tid));
}

impl LockGraph {
    /// A lock graph knows finitely many locks and threads.
    pub proof fn lemma_view_finite(&self)
        ensures
            self@.resources.dom().finite(),
            self@.processes.dom().finite(),
    {
        self.lemma_hold_graph_finite();
        assert(self@.resources.dom() =~= self.resources@.dom());
        assert(self@.processes.dom() =~= self.processes@.dom());
    }

    proof fn lemma_hold_graph_finite(&self)
        ensures
            self@.hold_graph().holders.dom().finite(),
            self@.hold_graph().waits.dom().finite(),
            self@.hold_graph().holders.dom() == self.resources@.dom(),
            self@.hold_graph().waits.dom() == self.processes@.dom(),
    {
        assert(self@.hold_graph().holders.dom() =~= self.resources@.dom());
        assert(self@.hold_graph().waits.dom() =~= self.processes@.dom());
    }

    /// check if the lock graph has a cycle, is other words, there is a deadlock
    pub fn has_cycle(&self, lock_type: LockType, lock_id: usize) -> (b: bool)
        ensures
            b == self@.has_cycle(lock_type, lock_id),
    {
        let mut resource_visited: BTreeSet<(u8, usize)> = BTreeSet::new();
        let mut process_visited: BTreeSet<usize> = BTreeSet::new();
        let ghost rv_init = resource_visited@;
        let ghost pv_init = process_visited@;
        let lock = (lock_type, lock_id);
        let b = self.dfs_check_cycle_with_resource(lock, &mut resource_visited, &mut process_visited);
        proof {
            self.lemma_view_finite();
            let g = self@.hold_graph();
            let f: nat = self@.search_fuel();
            assert(g.holders.dom().difference(rv_init) =~= self@.resources.dom());
            assert(g.waits.dom().difference(pv_init) =~= self@.processes.dom());
            assert(lock_reaches(g, lock_key(lock.0, lock.1), rv_init, pv_init, f) == b);
            lemma_search_decides(self@, lock_type, lock_id);
        }
        b
    }

    /// The search from `lock`, with the locks `resource_visited` and the threads
    /// `process_visited` on the current path: whether it meets the path again. A search
    /// that finds nothing takes back every mark it made.
    fn dfs_check_cycle_with_resource(
        &self,
        lock: (LockType, usize),
        resource_visited: &mut BTreeSet<(u8, usize)>,
        process_visited: &mut BTreeSet<usize>,
    ) -> (found: bool)
        ensures
            !found ==> final(resource_visited)@ == old(resource_visited)@,
            !found ==> final(process_visited)@ == old(process_visited)@,
            forall|f: nat|
                f > unvisited(self@.hold_graph(), old(resource_visited)@, old(process_visited)@)
                    ==> #[trigger] lock_reaches(
                    self@.hold_graph(),
                    lock_key(lock.0, lock.1),
                    old(resource_visited)@,
                    old(process_visited)@,
                    f,
                ) == found,
        decreases unvisited(self@.hold_graph(), old(resource_visited)@, old(process_visited)@),
    {
        let ghost g = self@.hold_graph();
        let ghost rv0 = resource_visited@;
        let ghost pv0 = process_visited@;
        let ghost m0 = unvisited(g, rv0, pv0);
        proof {
            self.lemma_hold_graph_finite();
        }
        let key = (lock.0.code(), lock.1);
        if resource_visited.contains(&key) {
            return true;
        }
        resource_visited.insert(key);
        match self.resources.get(&key) {
            None => {
                assert(!g.holders.contains_key(key));
                resource_visited.remove(&key);
                assert(resource_visited@ =~= rv0);
                false
            },
            Some(entry) => {
                let owners = sorted_distinct(&entry.1);
                let resource_num = entry.0;
                proof {
                    assert(g.holders.contains_key(key));
                    assert(g.holders[key] == (entry.0, entry.1@.to_set(), entry.1@.len()));
                    lemma_ascending_is(owners@, entry.1@.to_set());
                    lemma_ascending_finite(entry.1@.to_set());
                }
                if entry.1.len() < resource_num {
                    resource_visited.remove(&key);
                    assert(resource_visited@ =~= rv0);
                    return false;
                }
                proof {
                    lemma_unvisited_mark_lock(g, key, rv0, pv0);
                }
                let ghost rv1 = rv0.insert(key);
                let mut i: usize = 0;
                while i < owners.len()
                    invariant
                        self@.hold_graph() == g,
                        g.holders.dom().finite(),
                        g.waits.dom().finite(),
                        i <= owners.len(),
                        resource_visited@ == rv1,
                        process_visited@ == pv0,
                        old(resource_visited)@ == rv0,
                        old(process_visited)@ == pv0,
                        m0 == unvisited(g, rv0, pv0),
                        rv1 == rv0.insert(key),
                        !rv0.contains(key),
                        key == lock_key(lock.0, lock.1),
                        g.holders.contains_key(key),
                        g.holders[key].2 >= g.holders[key].0,
                        ascending(g.holders[key].1) == owners@,
                        unvisited(g, rv1, pv0) + 1 == m0,
                        forall|f: nat|
                            f >= m0 ==> #[trigger] holders_reach(g, owners@, 0, rv1, pv0, f)
                                == holders_reach(g, owners@, i as int, rv1, pv0, f),
                    decreases owners.len() - i,
                {
                    let found = self.dfs_check_cycle_with_process(
                        owners[i],
                        resource_visited,
                        process_visited,
                    );
                    if found {
                        proof {
                            assert forall|f: nat| f > m0 implies #[trigger] lock_reaches(
                                g,
                                key,
                                rv0,
                                pv0,
                                f,
                            ) by {
                                assert(holders_reach(g, owners@, 0, rv1, pv0, (f - 1) as nat)
                                    == holders_reach(g, owners@, i as int, rv1, pv0, (f - 1) as nat));
                                assert(thread_reaches(g, owners@[i as int], rv1, pv0, (f - 1) as nat));
                            }
                        }
                        return true;
                    }
                    proof {
                        assert forall|f: nat| f >= m0 implies #[trigger] holders_reach(
                            g,
                            owners@,
                            0,
                            rv1,
                            pv0,
                            f,
                        ) == holders_reach(g, owners@, i + 1, rv1, pv0, f) by {
                            assert(holders_reach(g, owners@, 0, rv1, pv0, f) == holders_reach(
                                g,
                                owners@,
                                i as int,
                                rv1,
                                pv0,
                                f,
                            ));
                            assert(!thread_reaches(g, owners@[i as int], rv1, pv0, f));
                        }
                    }
                    i += 1;
                }
                resource_visited.remove(&key);
                assert(resource_visited@ =~= rv0);
                proof {
                    assert forall|f: nat| f > m0 implies !#[trigger] lock_reaches(g, key, rv0, pv0, f) by {
                        assert(holders_reach(g, owners@, 0, rv1, pv0, (f - 1) as nat)
                            == holders_reach(g, owners@, i as int, rv1, pv0, (f - 1) as nat));
                    }
                }
                false
            },
        }
    }

    /// The search from thread `tid`, with the locks `resource_visited` and the threads
    /// `process_visited` on the current path: whether it meets the path again. A search
    /// that finds nothing takes back every mark it made.
    fn dfs_check_cycle_with_process(
        &self,
        tid: usize,
        resource_visited: &mut BTreeSet<(u8, usize)>,
        process_visited: &mut BTreeSet<usize>,
    ) -> (found: bool)
        ensures
            !found ==> final(resource_visited)@ == old(resource_visited)@,
            !found ==> final(process_visited)@ == old(process_visited)@,
            forall|f: nat|
                f > unvisited(self@.hold_graph(), old(resource_visited)@, old(process_visited)@)
                    ==> #[trigger] thread_reaches(
                    self@.hold_graph(),
                    tid,
                    old(resource_visited)@,
                    old(process_visited)@,
                    f,
                ) == found,
        decreases unvisited(self@.hold_graph(), old(resource_visited)@, old(process_visited)@),
    {
        let ghost g = self@.hold_graph();
        let ghost rv0 = resource_visited@;
        let ghost pv0 = process_visited@;
        let ghost m0 = unvisited(g, rv0, pv0);
        proof {
            self.lemma_hold_graph_finite();
        }
        if process_visited.contains(&tid) {
            return true;
        }
        process_visited.insert(tid);
        match self.processes.get(&tid) {
            None => {
                assert(!g.waits.contains_key(tid));
                process_visited.remove(&tid);
                assert(process_visited@ =~= pv0);
                false
            },
            Some(locks) => {
                proof {
                    assert(g.waits.contains_key(tid));
                    assert(g.waits[tid] == locks@);
                    lemma_unvisited_mark_thread(g, tid, rv0, pv0);
                }
                let ghost pv1 = pv0.insert(tid);
                let mut i: usize = 0;
                while i < locks.len()
                    invariant
                        self@.hold_graph() == g,
                        g.holders.dom().finite(),
                        g.waits.dom().finite(),
                        g.waits.contains_key(tid),
                        g.waits[tid] == locks@,
                        i <= locks.len(),
                        resource_visited@ == rv0,
                        process_visited@ == pv1,
                        old(resource_visited)@ == rv0,
                        old(process_visited)@ == pv0,
                        m0 == unvisited(g, rv0, pv0),
                        pv1 == pv0.insert(tid),
                        !pv0.contains(tid),
                        unvisited(g, rv0, pv1) + 1 == m0,
                        forall|f: nat|
                            f >= m0 ==> #[trigger] waits_reach(g, locks@, 0, rv0, pv1, f)
                                == waits_reach(g, locks@, i as int, rv0, pv1, f),
                    decreases locks.len() - i,
                {
                    let l = locks[i];
                    let found = self.dfs_check_cycle_with_resource(
                        (l.0, l.1),
                        resource_visited,
                        process_visited,
                    );
                    if found {
                        proof {
                            assert forall|f: nat| f > m0 implies #[trigger] thread_reaches(
                                g,
                                tid,
                                rv0,
                                pv0,
                                f,
                            ) by {
                                assert(waits_reach(g, locks@, 0, rv0, pv1, (f - 1) as nat)
                                    == waits_reach(g, locks@, i as int, rv0, pv1, (f - 1) as nat));
                                assert(lock_reaches(g, lock_key(l.0, l.1), rv0, pv1, (f - 1) as nat));
                            }
                        }
                        return true;
                    }
                    proof {
                        assert forall|f: nat| f >= m0 implies #[trigger] waits_reach(
                            g,
                            locks@,
                            0,
                            rv0,
                            pv1,
                            f,
                        ) == waits_reach(g, locks@, i + 1, rv0, pv1, f) by {
                            assert(waits_reach(g, locks@, 0, rv0, pv1, f) == waits_reach(
                                g,
                                locks@,
                                i as int,
                                rv0,
                                pv1,
                                f,
                            ));
                            assert(!lock_reaches(g, lock_key(l.0, l.1), rv0, pv1, f));
                        }
                    }
                    i += 1;
                }
                process_visited.remove(&tid);
                assert(process_visited@ =~= pv0);
                proof {
                    assert forall|f: nat| f > m0 implies !#[trigger] thread_reaches(g, tid, rv0, pv0, f) by {
                        assert(waits_reach(g, locks@, 0, rv0, pv1, (f - 1) as nat)
                            == waits_reach(g, locks@, i as int, rv0, pv1, (f - 1) as nat));
                    }
                }
                false
            },
        }
    }
}

} // verus!
