use vstd::prelude::*;
use vstd::multiset::Multiset;
use super::lock_graph::{GraphNode, LockGraphView, LockType, lock_key, remove_first};

verus! {

/// Dropping the first `x` of a sequence that holds one drops one `x` from its multiset.
proof fn lemma_remove_first_multiset<A>(s: Seq<A>, x: A)
    requires
        s.contains(x),
    ensures
        remove_first(s, x).to_multiset() == s.to_multiset().remove(x),
    decreases s.len(),
{
    broadcast use vstd::seq_lib::group_to_multiset_ensures;
    broadcast use vstd::multiset::group_multiset_axioms;

    let t = s.drop_first();
    assert(s =~= seq![s[0]] + t);
    vstd::seq_lib::lemma_multiset_commutative(seq![s[0]], t);
    assert(seq![s[0]].to_multiset() =~= Multiset::empty().insert(s[0])) by {
        assert(seq![s[0]] =~= Seq::<A>::empty().push(s[0]));
        assert(Seq::<A>::empty().to_multiset() =~= Multiset::empty());
    }
    if s[0] == x {
        assert(s.to_multiset().remove(x) =~= t.to_multiset());
    } else {
        let k = choose|k: int| 0 <= k < s.len() && s[k] == x;
        assert(t[k - 1] == x);
        lemma_remove_first_multiset(t, x);
        vstd::seq_lib::lemma_multiset_commutative(seq![s[0]], remove_first(t, x));
        assert(remove_first(s, x).to_multiset() =~= s.to_multiset().remove(x));
    }
}

/// Dropping the first `x` after appending an `x` that did not occur gives the sequence back.
proof fn lemma_remove_first_push_fresh<A>(s: Seq<A>, x: A)
    requires
        !s.contains(x),
    ensures
        remove_first(s.push(x), x) == s,
    decreases s.len(),
{
    if s.len() == 0 {
        assert(s.push(x).drop_first() =~= s);
    } else {
        assert(s[0] != x);
        let t = s.drop_first();
        assert(!t.contains(x)) by {
            if t.contains(x) {
                let k = choose|k: int| 0 <= k < t.len() && t[k] == x;
                assert(s[k + 1] == x);
            }
        }
        lemma_remove_first_push_fresh(t, x);
        assert(s.push(x).drop_first() =~= t.push(x));
        assert(seq![s[0]] + t =~= s);
    }
}

/// Appending an `x` and then dropping the first `x` keeps the multiset, and keeps the
/// sequence itself when `x` was not in it.
proof fn lemma_push_then_remove_first<A>(s: Seq<A>, x: A)
    ensures
        remove_first(s.push(x), x).to_multiset() == s.to_multiset(),
        !s.contains(x) ==> remove_first(s.push(x), x) == s,
{
    broadcast use vstd::seq_lib::group_to_multiset_ensures;
    broadcast use vstd::multiset::group_multiset_axioms;

    assert(s.push(x)[s.len() as int] == x);
    lemma_remove_first_multiset(s.push(x), x);
    assert(s.push(x).to_multiset().remove(x) =~= s.to_multiset());
    if !s.contains(x) {
        lemma_remove_first_push_fresh(s, x);
    }
}

/// A deadlock is reported only on a known lock that is held, and whose held units use
/// up all of its resources.
pub proof fn lemma_deadlock_needs_exhausted_lock(
    v: LockGraphView,
    lock_type: LockType,
    lock_id: usize,
)
    requires
        v.has_cycle(lock_type, lock_id),
    ensures
        v.resources.contains_key(lock_key(lock_type, lock_id)),
        v.resources[lock_key(lock_type, lock_id)].1.len() > 0,
        v.resources[lock_key(lock_type, lock_id)].1.len() >= v.resources[lock_key(
            lock_type,
            lock_id,
        )].0,
{
    let key = lock_key(lock_type, lock_id);
    let path = choose|path: Seq<GraphNode>|
        #[trigger] v.is_deadlock_path(path) && path[0] == GraphNode::Lock(key);
    assert(v.edge(path[0], path[1]));
}

/// Two lock graphs whose wait-for graphs have the same edges report the same deadlocks.
proof fn lemma_same_edges_same_cycles(
    v1: LockGraphView,
    v2: LockGraphView,
    lock_type: LockType,
    lock_id: usize,
)
    requires
        forall|a: GraphNode, b: GraphNode| v1.edge(a, b) ==> #[trigger] v2.edge(a, b),
        v1.has_cycle(lock_type, lock_id),
    ensures
        v2.has_cycle(lock_type, lock_id),
{
    let key = lock_key(lock_type, lock_id);
    let path = choose|path: Seq<GraphNode>|
        #[trigger] v1.is_deadlock_path(path) && path[0] == GraphNode::Lock(key);
    assert forall|i: int, j: int| 0 <= i && j == i + 1 && j < path.len() implies #[trigger] v2.edge(path[i], path[j]) by {
        assert(v1.edge(path[i], path[j]));
    }
    assert(v2.is_deadlock_path(path));
}

/// Whether a deadlock is reported depends on the holders of each lock only as a
/// multiset: the order in which threads got a lock does not matter, how many units each
/// holds does.
pub proof fn lemma_has_cycle_ignores_holder_order(
    v1: LockGraphView,
    v2: LockGraphView,
    lock_type: LockType,
    lock_id: usize,
)
    requires
        v1.processes == v2.processes,
        v1.resources.dom() == v2.resources.dom(),
        forall|k: (u8, usize)|
            #![trigger v1.resources[k]]
            #![trigger v2.resources[k]]
            v1.resources.contains_key(k) ==> v1.resources[k].0 == v2.resources[k].0
                && v1.resources[k].1.to_multiset() == v2.resources[k].1.to_multiset(),
    ensures
        v1.has_cycle(lock_type, lock_id) == v2.has_cycle(lock_type, lock_id),
{
    assert forall|a: GraphNode, b: GraphNode| v1.edge(a, b) == #[trigger] v2.edge(a, b) by {
        match a {
            GraphNode::Lock(k) => {
                match b {
                    GraphNode::Thread(t) => {
                        if v1.resources.contains_key(k) {
                            assert(v2.resources.contains_key(k));
                            let (c1, h1) = v1.resources[k];
                            let (c2, h2) = v2.resources[k];
                            assert(c1 == c2 && h1.to_multiset() == h2.to_multiset());
                            vstd::seq_lib::to_multiset_len(h1);
                            vstd::seq_lib::to_multiset_len(h2);
                            vstd::seq_lib::to_multiset_contains(h1, t);
                            vstd::seq_lib::to_multiset_contains(h2, t);
                            assert(v1.used_up(k) == v2.used_up(k));
                        } else {
                            assert(!v2.resources.contains_key(k));
                        }
                    },
                    GraphNode::Lock(_) => {},
                }
            },
            GraphNode::Thread(t) => {
                assert(v1.waits_of(t) == v2.waits_of(t));
                match b {
                    GraphNode::Lock(k) => {
                        assert(v1.waits_for(t, k) == v2.waits_for(t, k));
                    },
                    GraphNode::Thread(_) => {},
                }
            },
        }
    }
    if v1.has_cycle(lock_type, lock_id) {
        lemma_same_edges_same_cycles(v1, v2, lock_type, lock_id);
    }
    if v2.has_cycle(lock_type, lock_id) {
        lemma_same_edges_same_cycles(v2, v1, lock_type, lock_id);
    }
}

/// Adding a wait never hides a deadlock: every deadlock reported before `tid` starts to
/// wait for another lock is still reported afterwards.
pub proof fn lemma_add_dependency_keeps_deadlock(
    v: LockGraphView,
    tid: usize,
    lock_type: LockType,
    lock_id: usize,
    requested_type: LockType,
    requested_id: usize,
)
    requires
        v.has_cycle(requested_type, requested_id),
    ensures
        v.add_dependency(tid, lock_type, lock_id).has_cycle(requested_type, requested_id),
{
    let w = v.add_dependency(tid, lock_type, lock_id);
    assert forall|a: GraphNode, b: GraphNode| v.edge(a, b) implies #[trigger] w.edge(a, b) by {
        if let GraphNode::Thread(t) = a {
            if let GraphNode::Lock(k) = b {
                let s = v.waits_of(t);
                let j = choose|j: int| 0 <= j < s.len() && lock_key(#[trigger] s[j].0, s[j].1) == k;
                if t == tid {
                    assert(w.waits_of(t) == s.push((lock_type, lock_id)));
                    assert(w.waits_of(t)[j] == s[j]);
                } else {
                    assert(w.waits_of(t) == s);
                }
                assert(w.waits_for(t, k));
            }
        }
    }
    lemma_same_edges_same_cycles(v, w, requested_type, requested_id);
}

/// Adding a dependency and then removing the same one leaves every thread with the
/// same waits as before (the same sequence where the added lock was new to the thread,
/// else the same multiset), and the resources untouched; the thread keeps an entry.
pub proof fn lemma_remove_dependency_undoes_add(
    v: LockGraphView,
    tid: usize,
    lock_type: LockType,
    lock_id: usize,
)
    ensures
        ({
            let w = v.add_dependency(tid, lock_type, lock_id).remove_dependency(
                tid,
                lock_type,
                lock_id,
            );
            &&& w.resources == v.resources
            &&& w.processes.dom() == v.processes.dom().insert(tid)
            &&& forall|t: usize|
                t != tid && #[trigger] v.processes.contains_key(t) ==> w.processes[t]
                    == v.processes[t]
            &&& w.waits_of(tid).to_multiset() == v.waits_of(tid).to_multiset()
            &&& !v.waits_of(tid).contains((lock_type, lock_id)) ==> w.waits_of(tid)
                == v.waits_of(tid)
        }),
{
    let w = v.add_dependency(tid, lock_type, lock_id).remove_dependency(tid, lock_type, lock_id);
    lemma_push_then_remove_first(v.waits_of(tid), (lock_type, lock_id));
    assert(w.processes.dom() =~= v.processes.dom().insert(tid));
}

/// Allocating a lock to a thread and then releasing it leaves the lock with the same
/// holders as before (the same sequence where the thread did not hold it yet, else the
/// same multiset) and the same number of resources if it was known; an unknown lock
/// stays known, with the given number of resources and no holder. Nothing else changes.
pub proof fn lemma_release_undoes_allocate(
    v: LockGraphView,
    lock_type: LockType,
    lock_id: usize,
    res_max_count: usize,
    tid: usize,
)
    ensures
        ({
            let key = lock_key(lock_type, lock_id);
            let w = v.allocate_lock(lock_type, lock_id, res_max_count, tid).release_lock(
                lock_type,
                lock_id,
                tid,
            );
            &&& w.processes == v.processes
            &&& w.resources.dom() == v.resources.dom().insert(key)
            &&& forall|k: (u8, usize)|
                k != key && #[trigger] v.resources.contains_key(k) ==> w.resources[k]
                    == v.resources[k]
            &&& w.resources[key].0 == (if v.resources.contains_key(key) {
                v.resources[key].0
            } else {
                res_max_count
            })
            &&& w.holders_of(key).to_multiset() == v.holders_of(key).to_multiset()
            &&& !v.holders_of(key).contains(tid) ==> w.holders_of(key) == v.holders_of(key)
        }),
{
    let key = lock_key(lock_type, lock_id);
    let w = v.allocate_lock(lock_type, lock_id, res_max_count, tid).release_lock(
        lock_type,
        lock_id,
        tid,
    );
    lemma_push_then_remove_first(v.holders_of(key), tid);
    assert(w.resources.dom() =~= v.resources.dom().insert(key));
}


/// A thread that waits for a lock whose resources are all held, one of them by the
/// thread itself, deadlocks: requesting that lock reports a deadlock.
pub proof fn lemma_waiting_holder_of_used_up_lock_deadlocks(
    v: LockGraphView,
    tid: usize,
    lock_type: LockType,
    lock_id: usize,
)
    requires
        v.resources.contains_key(lock_key(lock_type, lock_id)),
        v.resources[lock_key(lock_type, lock_id)].1.contains(tid),
        v.resources[lock_key(lock_type, lock_id)].1.len() >= v.resources[lock_key(
            lock_type,
            lock_id,
        )].0,
        v.waits_of(tid).contains((lock_type, lock_id)),
    ensures
        v.has_cycle(lock_type, lock_id),
{
    let key = lock_key(lock_type, lock_id);
    let path = seq![GraphNode::Lock(key), GraphNode::Thread(tid), GraphNode::Lock(key)];
    let w = v.waits_of(tid);
    let j = choose|j: int| 0 <= j < w.len() && w[j] == (lock_type, lock_id);
    assert(lock_key(w[j].0, w[j].1) == key);
    assert(v.waits_for(tid, key));
    assert(v.edge(path[0], path[1]));
    assert(v.edge(path[1], path[2]));
    assert forall|i: int, k: int| 0 <= i && k == i + 1 && k < path.len() implies #[trigger] v.edge(path[i], path[k]) by {
        if i == 0 {
            assert(path[i] == GraphNode::Lock(key) && path[k] == GraphNode::Thread(tid));
        } else {
            assert(path[i] == GraphNode::Thread(tid) && path[k] == GraphNode::Lock(key));
        }
    }
    assert(path.drop_last() =~= seq![GraphNode::Lock(key), GraphNode::Thread(tid)]);
    assert(path.drop_last()[0] == path.last());
    assert(v.is_deadlock_path(path));
}

} // verus!
