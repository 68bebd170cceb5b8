//! What holds of every tree, and of every strength.
use vstd::prelude::*;
use crate::model::{complete_match_of, edge_ok, lemma_descent_covers, node_ok, well_formed};
use crate::mop::MopView;
use crate::ordered_set::Symbol;
use crate::absorb::one_kind;
use crate::model::{child, child_below, lemma_child_edge, reached, room};
use crate::readiness::{included, same_shape, whole};
use crate::retention::{lemma_descent_within, lemma_match_exact, lemma_match_present,
    lemma_organised_shared, organised, organised_at, retentive, stems_from};
use crate::strength::{Strength, UNIT};

verus! {

/// In every node of a tree no key of a child edge, real or virtual, is in
/// the node's set, and no key is both a real and a virtual key.
pub proof fn law_keys_apart(t: Seq<MopView>, n: int)
    requires
        well_formed(t),
        0 <= n < t.len(),
    ensures
        t[n].real.dom().intersect(t[n].elements) == Set::<Symbol>::empty(),
        t[n].virt.dom().intersect(t[n].elements) == Set::<Symbol>::empty(),
        t[n].real.dom().intersect(t[n].virt.dom()) == Set::<Symbol>::empty(),
{
    assert(node_ok(t, n));
    assert(t[n].real.dom().intersect(t[n].elements) =~= Set::<Symbol>::empty());
    assert(t[n].virt.dom().intersect(t[n].elements) =~= Set::<Symbol>::empty());
    assert(t[n].real.dom().intersect(t[n].virt.dom()) =~= Set::<Symbol>::empty());
}

/// Node `m` is a child of node `n` under key `j`, by a real or by a virtual edge.
pub open spec fn is_edge(t: Seq<MopView>, n: int, j: Symbol, m: int) -> bool {
    ||| t[n].real.dom().contains(j) && t[n].real[j] == m
    ||| t[n].virt.dom().contains(j) && t[n].virt[j] == m
}

/// Every edge of a tree, real or virtual, leads to a node with a strictly
/// larger set, and the key of the edge is one of the symbols gained.
pub proof fn law_edges_enlarge(t: Seq<MopView>, n: int, j: Symbol, m: int)
    requires
        well_formed(t),
        0 <= n < t.len(),
        is_edge(t, n, j, m),
    ensures
        0 <= m < t.len(),
        t[n].elements.subset_of(t[m].elements),
        t[n].elements != t[m].elements,
        t[m].elements.contains(j),
        !t[n].elements.contains(j),
{
    assert(node_ok(t, n));
    if t[n].real.dom().contains(j) && t[n].real[j] == m {
        assert(edge_ok(t, n, t[n].real[j] as int, j));
    } else {
        assert(edge_ok(t, n, t[n].virt[j] as int, j));
    }
}

/// Node `m` is a child of node `n`, by a real or by a virtual edge.
pub open spec fn is_child(t: Seq<MopView>, n: int, m: int) -> bool {
    exists|j: Symbol| #[trigger] is_edge(t, n, j, m)
}

/// `path` leads from node to node by edges of the tree, real or virtual.
pub open spec fn is_path(t: Seq<MopView>, path: Seq<int>) -> bool {
    &&& path.len() >= 1
    &&& 0 <= path[0] < t.len()
    &&& forall|i: int| 0 < i < path.len() ==> is_child(t, path[i - 1], #[trigger] path[i])
}

/// `a` is a proper subset of `b`.
pub open spec fn properly_within(a: Set<Symbol>, b: Set<Symbol>) -> bool {
    a.subset_of(b) && a != b
}

/// Along a path of at least one edge the set grows strictly, so no path
/// leads back to the node it started from: the tree has no cycle.
pub proof fn law_acyclic(t: Seq<MopView>, path: Seq<int>)
    requires
        well_formed(t),
        is_path(t, path),
        path.len() >= 2,
    ensures
        0 <= path.last() < t.len(),
        properly_within(t[path[0]].elements, t[path.last()].elements),
        path[0] != path.last(),
    decreases path.len(),
{
    let k = path.len() - 2;
    assert(is_child(t, path[k + 1 - 1], path[k + 1]));
    let j = choose|j: Symbol| #[trigger] is_edge(t, path[k], j, path[k + 1]);
    if path.len() == 2 {
        law_edges_enlarge(t, path[0], j, path[1]);
    } else {
        let shorter = path.drop_last();
        assert forall|i: int| 0 < i < shorter.len() implies is_child(
            t,
            shorter[i - 1],
            #[trigger] shorter[i],
        ) by {
            assert(is_child(t, path[i - 1], path[i]));
        }
        law_acyclic(t, shorter);
        law_edges_enlarge(t, path[k], j, path[k + 1]);
    }
}

/// Being a proper subset is a strict partial order: nothing is properly
/// within itself, and the relation is transitive, so no two sets are
/// properly within each other.
pub proof fn law_strict_order(a: Set<Symbol>, b: Set<Symbol>, c: Set<Symbol>)
    ensures
        !properly_within(a, a),
        properly_within(a, b) && properly_within(b, c) ==> properly_within(a, c),
        !(properly_within(a, b) && properly_within(b, a)),
{
    if properly_within(a, b) && properly_within(b, a) {
        assert(a =~= b);
    }
    if properly_within(a, b) && properly_within(b, c) {
        if a == c {
            assert(a =~= b);
        }
    }
}

/// A growth step of a strength does not lower its level, a decay step
/// does not raise it, and both leave it between zero and one.
pub proof fn law_strength_steps<S: Strength>(level: nat)
    requires
        level <= UNIT,
    ensures
        level <= S::grow(level) <= UNIT,
        S::decay(level) <= level,
        0 <= S::decay(level) <= UNIT,
{
    S::lemma_grow(level);
    S::lemma_decay(level);
}

/// A decay step lowers a level that is above zero.
pub proof fn law_decay_is_strict<S: Strength>(level: nat)
    requires
        0 < level <= UNIT,
    ensures
        S::decay(level) < level,
{
    S::lemma_decay(level);
}

/// From `t` to `t2` no node is lost and no node's set changes.
pub open spec fn holds_nodes(t: Seq<MopView>, t2: Seq<MopView>) -> bool {
    &&& t.len() <= t2.len()
    &&& forall|x: int| 0 <= x < t.len() ==> (#[trigger] t2[x]).elements == t[x].elements
}

/// Right after an excerpt has been taken in, its complete match is a
/// trace whose set is the excerpt.
pub proof fn law_excerpt_becomes_trace(t: Seq<MopView>, t2: Seq<MopView>, e: Set<Symbol>)
    requires
        included(t, t2, e),
    ensures
        complete_match_of(t2, e) is Some,
        0 <= complete_match_of(t2, e).unwrap() < t2.len(),
        t2[complete_match_of(t2, e).unwrap()].elements == e,
        t2[complete_match_of(t2, e).unwrap()].trace > 0,
{
}

/// An excerpt that was taken in stays matched: in every later tree that
/// has lost no node and changed no node's set, the complete match of the
/// excerpt is a node whose set is the excerpt.
pub proof fn law_excerpt_stays_matched(
    t: Seq<MopView>,
    t2: Seq<MopView>,
    later: Seq<MopView>,
    e: Set<Symbol>,
)
    requires
        included(t, t2, e),
        holds_nodes(t2, later),
        well_formed(later),
        retentive(later),
    ensures
        complete_match_of(later, e) is Some,
        0 <= complete_match_of(later, e).unwrap() < later.len(),
        later[complete_match_of(later, e).unwrap()].elements == e,
{
    let x = complete_match_of(t2, e).unwrap();
    assert(later[x].elements == t2[x].elements);
    lemma_match_exact(later, x);
}

/// A complete match that is present holds every symbol of the query.
pub proof fn law_match_covers(t: Seq<MopView>, q: Set<Symbol>)
    requires
        well_formed(t),
        q.finite(),
        complete_match_of(t, q) is Some,
    ensures
        0 <= complete_match_of(t, q).unwrap() < t.len(),
        q.subset_of(t[complete_match_of(t, q).unwrap()].elements),
{
    vstd::set_lib::lemma_len_subset(q.difference(t[0].elements), q);
    lemma_descent_covers(t, 0, q.difference(t[0].elements));
}

/// A complete match is absent only if no node's set holds the query.
pub proof fn law_match_absent(t: Seq<MopView>, q: Set<Symbol>, x: int)
    requires
        well_formed(t),
        retentive(t),
        complete_match_of(t, q) is None,
        0 <= x < t.len(),
    ensures
        !q.subset_of(t[x].elements),
{
    if q.subset_of(t[x].elements) {
        lemma_match_present(t, q, x);
    }
}

/// Taking an excerpt in twice in succession leaves, the second time, every
/// node and every edge as it was: only strengths change.
pub proof fn law_second_inclusion_keeps_shape(
    t: Seq<MopView>,
    t2: Seq<MopView>,
    t3: Seq<MopView>,
    e: Set<Symbol>,
)
    requires
        included(t, t2, e),
        included(t2, t3, e),
    ensures
        same_shape(t2, t3),
{
}

/// The level after `steps` growth steps.
pub open spec fn grown<S: Strength>(level: nat, steps: nat) -> nat
    decreases steps,
{
    if steps == 0 {
        level
    } else {
        S::grow(grown::<S>(level, (steps - 1) as nat))
    }
}

/// The level after `steps` decay steps.
pub open spec fn decayed<S: Strength>(level: nat, steps: nat) -> nat
    decreases steps,
{
    if steps == 0 {
        level
    } else {
        S::decay(decayed::<S>(level, (steps - 1) as nat))
    }
}

/// Growth converges to one: each step gains at least one part in `UNIT`
/// until the level is `UNIT`, so no more than `UNIT` steps lead there, and
/// there the level stays.
pub proof fn law_growth_reaches_one<S: Strength>(level: nat, steps: nat)
    requires
        level <= UNIT,
    ensures
        grown::<S>(level, steps) <= UNIT,
        grown::<S>(level, steps) >= level,
        grown::<S>(level, steps) == UNIT || grown::<S>(level, steps) >= level + steps,
        level + steps >= UNIT ==> grown::<S>(level, steps) == UNIT,
    decreases steps,
{
    if steps > 0 {
        law_growth_reaches_one::<S>(level, (steps - 1) as nat);
        S::lemma_grow(grown::<S>(level, (steps - 1) as nat));
    }
}

/// Decay converges to zero: each step loses at least one part in `UNIT`
/// until the level is zero, so no more steps than the level lead there, and
/// there the level stays.
pub proof fn law_decay_reaches_zero<S: Strength>(level: nat, steps: nat)
    requires
        level <= UNIT,
    ensures
        decayed::<S>(level, steps) <= level,
        decayed::<S>(level, steps) == 0 || decayed::<S>(level, steps) + steps <= level,
        steps >= level ==> decayed::<S>(level, steps) == 0,
    decreases steps,
{
    if steps > 0 {
        law_decay_reaches_zero::<S>(level, (steps - 1) as nat);
        S::lemma_decay(decayed::<S>(level, (steps - 1) as nat));
    }
}

/// Some node of the tree has the set `s`.
pub open spec fn has_set(t: Seq<MopView>, s: Set<Symbol>) -> bool {
    exists|x: int| 0 <= x < t.len() && (#[trigger] t[x]).elements == s
}

/// In a whole tree no two nodes have the same set: a node is known by its set.
pub proof fn law_one_node_for_each_set(t: Seq<MopView>, x: int, y: int)
    requires
        whole(t),
        0 <= x < t.len(),
        0 <= y < t.len(),
        t[x].elements == t[y].elements,
    ensures
        x == y,
{
}

/// The child of a node under a key is the node with the least set that
/// holds the set of the node and the key: its set holds both, and lies
/// within the set of every node whose set holds both.
pub proof fn law_child_has_least_set(t: Seq<MopView>, x: int, k: Symbol, z: int)
    requires
        whole(t),
        0 <= x < t.len(),
        0 <= z < t.len(),
        child(t, x, k) is Some,
        t[x].elements.subset_of(t[z].elements),
        t[z].elements.contains(k),
    ensures
        t[x].elements.subset_of(t[child(t, x, k).unwrap() as int].elements),
        t[child(t, x, k).unwrap() as int].elements.contains(k),
        t[child(t, x, k).unwrap() as int].elements.subset_of(t[z].elements),
{
    lemma_child_edge(t, x, k);
    assert(organised(t, t[z].elements));
    assert(organised_at(t, x, t[z].elements));
}

/// A node has a child under a symbol exactly if it lacks the symbol and
/// the set of some node holds the symbol and the set of the node.
pub proof fn law_keys_of_node(t: Seq<MopView>, x: int, k: Symbol)
    requires
        whole(t),
        0 <= x < t.len(),
    ensures
        child(t, x, k) is Some <==> !t[x].elements.contains(k) && exists|z: int|
            0 <= z < t.len() && t[x].elements.subset_of((#[trigger] t[z]).elements) && t[z].elements.contains(
                k,
            ),
{
    if child(t, x, k) is Some {
        lemma_child_edge(t, x, k);
        let c = child(t, x, k).unwrap() as int;
        assert(t[x].elements.subset_of(t[c].elements) && t[c].elements.contains(k));
    }
    if !t[x].elements.contains(k) && exists|z: int|
        0 <= z < t.len() && t[x].elements.subset_of((#[trigger] t[z]).elements) && t[z].elements.contains(
            k,
        ) {
        let z = choose|z: int|
            0 <= z < t.len() && t[x].elements.subset_of((#[trigger] t[z]).elements) && t[z].elements.contains(
                k,
            );
        assert(organised(t, t[z].elements));
        assert(organised_at(t, x, t[z].elements));
    }
}

/// In a whole tree what the sets of two nodes share is the set of a node.
pub proof fn law_shared_set_is_a_node(t: Seq<MopView>, x: int, y: int)
    requires
        whole(t),
        0 <= x < t.len(),
        0 <= y < t.len(),
    ensures
        has_set(t, t[x].elements.intersect(t[y].elements)),
{
    let f = t[x].elements.intersect(t[y].elements);
    assert(node_ok(t, x));
    assert(organised(t, t[x].elements));
    assert(organised(t, t[y].elements));
    lemma_organised_shared(t, t[x].elements, t[y].elements);
    vstd::set_lib::lemma_len_subset(f, t[x].elements);
    lemma_descent_within(t, f, 0, f);
    let z = crate::model::descent(t, 0, f).unwrap();
    assert(t[z].elements =~= f);
}

/// The sets of the nodes after an excerpt has been taken in are the sets
/// of the nodes before, the excerpt, and what the set of each node before
/// shares with the excerpt: these and no others.
pub proof fn law_sets_after_inclusion(
    t: Seq<MopView>,
    t2: Seq<MopView>,
    e: Set<Symbol>,
    s: Set<Symbol>,
)
    requires
        whole(t),
        included(t, t2, e),
    ensures
        has_set(t2, s) <==> (has_set(t, s) || stems_from(t, s, e)),
{
    if has_set(t2, s) {
        let x = choose|x: int| 0 <= x < t2.len() && (#[trigger] t2[x]).elements == s;
        if x < t.len() {
            assert(t[x].elements == s);
        } else {
            assert(stems_from(t, t2[x].elements, e));
        }
    }
    if has_set(t, s) {
        let x = choose|x: int| 0 <= x < t.len() && (#[trigger] t[x]).elements == s;
        assert(t2[x].elements == s);
    }
    if stems_from(t, s, e) {
        let m = crate::model::complete_match_of(t2, e).unwrap();
        assert(t2[m].elements == e);
        if s != e {
            let p = choose|p: int| 0 <= p < t.len() && s == (#[trigger] t[p]).elements.intersect(e);
            assert(t2[p].elements == t[p].elements);
            law_shared_set_is_a_node(t2, p, m);
        }
    }
}

/// Node `x` leads to node `y` by a real edge.
pub open spec fn is_real_parent(t: Seq<MopView>, x: int, y: int) -> bool {
    exists|k: Symbol| #[trigger] t[x].real.dom().contains(k) && t[x].real[k] == y
}

/// A node reached from another one by real edges is the real child of a node.
pub proof fn law_reached_by_a_real_edge(t: Seq<MopView>, n: int, y: int) -> (parent: int)
    requires
        well_formed(t),
        0 <= n < t.len(),
        reached(t, n, y),
        y != n,
    ensures
        0 <= parent < t.len(),
        is_real_parent(t, parent, y),
    decreases room(t, n),
{
    let j = choose|j: Symbol|
        #![trigger t[n].real.dom().contains(j)]
        {
            &&& t[n].real.dom().contains(j)
            &&& child_below(t, n, j)
            &&& reached(t, t[n].real[j] as int, y)
        };
    let c = t[n].real[j] as int;
    if c == y {
        n
    } else {
        law_reached_by_a_real_edge(t, c, y)
    }
}

/// In a whole tree, a node to which no node leads by both kinds of edge
/// was made by one node: that node leads to it by real edges only, and
/// every other node that leads to it does so by virtual edges only.
pub proof fn law_made_by_one_node(t: Seq<MopView>, y: int) -> (maker: int)
    requires
        whole(t),
        0 < y < t.len(),
        one_kind(t, y),
    ensures
        0 <= maker < t.len(),
        is_real_parent(t, maker, y),
        forall|x: int, k: Symbol|
            0 <= x < t.len() && #[trigger] child(t, x, k) is Some && child(t, x, k).unwrap() == y ==> (
            t[x].real.dom().contains(k) <==> x == maker),
{
    assert(reached(t, 0, y));
    let maker = law_reached_by_a_real_edge(t, 0, y);
    let j = choose|j: Symbol| #[trigger] t[maker].real.dom().contains(j) && t[maker].real[j] == y;
    assert forall|x: int, k: Symbol|
        0 <= x < t.len() && #[trigger] child(t, x, k) is Some && child(t, x, k).unwrap() == y implies (
    t[x].real.dom().contains(k) <==> x == maker) by {
        if t[x].real.dom().contains(k) {
            assert(t[x].real[k] == t[maker].real[j]);
        } else {
            assert(t[x].virt.dom().contains(k));
            if x == maker {
                assert(t[x].real.dom().contains(j) && t[x].virt.dom().contains(k));
            }
        }
    }
    maker
}

} // verus!
