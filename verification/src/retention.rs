//! What the tree retains: for the set of each of its nodes the tree is
//! organised, so that the descent for any part of such a set stays within
//! the set and never lacks a child to go on with.
use vstd::prelude::*;
use vstd::set_lib::lemma_len_subset;
use crate::model::{abstraction, child, compatible, complete_match_of, descent, distance, edge_ok,
    grows, least, lemma_distance_child,
    lemma_child_edge, node_ok, real_indices, relinked, virt_indices, wedged, well_formed};
use crate::mop::{installed, MopView};
use crate::ordered_set::{is_least, Symbol};
use crate::readiness::{connected, lemma_ready_reached, local_ok, ready, same_shape};
use crate::set_order::lemma_has_least;

verus! {

/// At node `y` the tree is organised for `e`: every child of `y` under a
/// symbol of `e` has its set within `e`, and unless the set of `y` is `e`,
/// `y` has a child under every symbol of `e` that it lacks.
pub open spec fn organised_at(t: Seq<MopView>, y: int, e: Set<Symbol>) -> bool {
    &&& forall|j: Symbol|
        e.contains(j) && #[trigger] child(t, y, j) is Some ==> t[child(t, y, j).unwrap() as int].elements.subset_of(
            e,
        )
    &&& t[y].elements != e ==> forall|j: Symbol|
        e.contains(j) && !t[y].elements.contains(j) ==> #[trigger] child(t, y, j) is Some
}

/// The tree is organised for `e`: it is so at every node whose set lies within `e`.
pub open spec fn organised(t: Seq<MopView>, e: Set<Symbol>) -> bool {
    forall|y: int| 0 <= y < t.len() && t[y].elements.subset_of(e) ==> #[trigger] organised_at(t, y, e)
}

/// The tree is organised for the set of each of its nodes.
pub open spec fn retentive(t: Seq<MopView>) -> bool {
    forall|x: int| 0 <= x < t.len() ==> organised(t, #[trigger] t[x].elements)
}

/// For whatever set `t` was organised, `t2` is organised.
pub open spec fn keeps_order(t: Seq<MopView>, t2: Seq<MopView>) -> bool {
    forall|e: Set<Symbol>| #[trigger] organised(t, e) ==> organised(t2, e)
}

/// The set `s` is `e`, or what the set of a node of `t` shares with `e`.
pub open spec fn stems_from(t: Seq<MopView>, s: Set<Symbol>, e: Set<Symbol>) -> bool {
    s == e || exists|p: int| 0 <= p < t.len() && s == (#[trigger] t[p]).elements.intersect(e)
}

/// The set of each node that `t2` has beyond those of `t` is `e`, or what
/// the set of a node of `t` shares with `e`.
pub open spec fn newcomers(t: Seq<MopView>, t2: Seq<MopView>, e: Set<Symbol>) -> bool {
    forall|y: int| t.len() <= y < t2.len() ==> stems_from(t, (#[trigger] t2[y]).elements, e)
}

/// A tree that is organised for two sets is organised for what they share.
pub proof fn lemma_organised_shared(t: Seq<MopView>, a: Set<Symbol>, b: Set<Symbol>)
    requires
        organised(t, a),
        organised(t, b),
    ensures
        organised(t, a.intersect(b)),
{
    let e = a.intersect(b);
    assert forall|y: int| 0 <= y < t.len() && t[y].elements.subset_of(e) implies #[trigger] organised_at(
        t,
        y,
        e,
    ) by {
        assert(organised_at(t, y, a));
        assert(organised_at(t, y, b));
        if t[y].elements != e {
            assert forall|j: Symbol| e.contains(j) && !t[y].elements.contains(j) implies #[trigger] child(
                t,
                y,
                j,
            ) is Some by {
                if t[y].elements == a {
                    assert(a.subset_of(b));
                    assert(e =~= a);
                }
            }
        }
    }
}

/// A connected tree that is through all three phases for `e` is organised for `e`.
pub proof fn lemma_ready_organised(t: Seq<MopView>, e: Set<Symbol>)
    requires
        well_formed(t),
        connected(t),
        ready(t, 0, e, 3),
    ensures
        organised(t, e),
{
    assert forall|y: int| 0 <= y < t.len() && t[y].elements.subset_of(e) implies #[trigger] organised_at(
        t,
        y,
        e,
    ) by {
        assert(crate::model::reached(t, 0, y));
        lemma_ready_reached(t, 0, y, e, 3);
        assert(local_ok(t, y, e, 3));
        assert forall|j: Symbol| e.contains(j) && #[trigger] child(t, y, j) is Some implies t[child(
            t,
            y,
            j,
        ).unwrap() as int].elements.subset_of(e) by {
            if t[y].real.dom().contains(j) {
                assert(ready(t, t[y].real[j] as int, e, 3));
            } else {
                assert(t[y].virt.dom().contains(j));
            }
        }
    }
}

/// In a tree organised for `e`, the descent from a node within `e` for
/// symbols of `e` that the node lacks ends in a node within `e`.
pub proof fn lemma_descent_within(t: Seq<MopView>, e: Set<Symbol>, n: int, rest: Set<Symbol>)
    requires
        well_formed(t),
        organised(t, e),
        0 <= n < t.len(),
        t[n].elements.subset_of(e),
        rest.finite(),
        rest.subset_of(e),
        rest.disjoint(t[n].elements),
    ensures
        descent(t, n, rest) is Some,
        0 <= descent(t, n, rest).unwrap() < t.len(),
        t[descent(t, n, rest).unwrap()].elements.subset_of(e),
        rest.subset_of(t[descent(t, n, rest).unwrap()].elements),
        t[n].elements.subset_of(t[descent(t, n, rest).unwrap()].elements),
    decreases rest.len(),
{
    if !rest.is_empty() {
        let x0 = choose|x0: Symbol| rest.contains(x0);
        lemma_has_least(rest, x0);
        let j = least(rest);
        assert(is_least(rest, j));
        assert(organised_at(t, n, e));
        assert(t[n].elements != e);
        assert(child(t, n, j) is Some);
        let c = child(t, n, j).unwrap() as int;
        lemma_child_edge(t, n, j);
        let next = rest.difference(t[c].elements);
        lemma_len_subset(next, rest);
        next.lemma_subset_not_in_lt(rest, j);
        lemma_descent_within(t, e, c, next);
    }
}

/// In a retentive tree the complete match of a query that some node's set
/// holds is not absent.
pub proof fn lemma_match_present(t: Seq<MopView>, q: Set<Symbol>, x: int)
    requires
        well_formed(t),
        retentive(t),
        0 <= x < t.len(),
        q.subset_of(t[x].elements),
    ensures
        complete_match_of(t, q) is Some,
{
    assert(node_ok(t, x));
    lemma_len_subset(q, t[x].elements);
    let rest = q.difference(t[0].elements);
    lemma_len_subset(rest, q);
    lemma_descent_within(t, t[x].elements, 0, rest);
}

/// In a retentive tree the complete match of the set of a node is a node
/// with that very set.
pub proof fn lemma_match_exact(t: Seq<MopView>, x: int)
    requires
        well_formed(t),
        retentive(t),
        0 <= x < t.len(),
    ensures
        complete_match_of(t, t[x].elements) is Some,
        0 <= complete_match_of(t, t[x].elements).unwrap() < t.len(),
        t[complete_match_of(t, t[x].elements).unwrap()].elements == t[x].elements,
{
    assert(node_ok(t, x));
    let e = t[x].elements;
    let rest = e.difference(t[0].elements);
    lemma_len_subset(rest, e);
    lemma_descent_within(t, e, 0, rest);
    let y = descent(t, 0, rest).unwrap();
    assert(rest =~= e);
    assert(t[y].elements =~= e);
}

/// A tree of the same shape is organised for the same sets.
pub proof fn lemma_same_shape_keeps_order(t: Seq<MopView>, t2: Seq<MopView>)
    requires
        well_formed(t),
        same_shape(t, t2),
    ensures
        keeps_order(t, t2),
        retentive(t) ==> retentive(t2),
{
    assert forall|e: Set<Symbol>| #[trigger] organised(t, e) implies organised(t2, e) by {
        assert forall|y: int| 0 <= y < t2.len() && t2[y].elements.subset_of(e) implies #[trigger] organised_at(
            t2,
            y,
            e,
        ) by {
            assert(organised_at(t, y, e));
            assert forall|j: Symbol| e.contains(j) && #[trigger] child(t2, y, j) is Some implies t2[child(
                t2,
                y,
                j,
            ).unwrap() as int].elements.subset_of(e) by {
                assert(child(t, y, j) == child(t2, y, j));
                lemma_child_edge(t, y, j);
                let c = t2[child(t, y, j).unwrap() as int];
            }
            if t2[y].elements != e {
                assert forall|j: Symbol| e.contains(j) && !t2[y].elements.contains(j) implies #[trigger] child(
                    t2,
                    y,
                    j,
                ) is Some by {
                    assert(child(t, y, j) == child(t2, y, j));
                }
            }
        }
    }
    if retentive(t) {
        assert forall|x: int| 0 <= x < t2.len() implies organised(t2, #[trigger] t2[x].elements) by {
            assert(organised(t, t[x].elements));
        }
    }
}

/// Wedging an abstraction in at node `n`, in place of edges that led to
/// node `p`, leaves the tree organised for whatever set it was organised for.
pub proof fn lemma_wedge_keeps_order(
    t: Seq<MopView>,
    n: int,
    p: usize,
    e: Set<Symbol>,
    as_real: bool,
    keys: Set<Symbol>,
    promote: bool,
    j0: Symbol,
)
    requires
        well_formed(t),
        well_formed(wedged(t, n, p, e, as_real, keys, promote)),
        0 <= n < t.len(),
        p < t.len(),
        t.len() <= usize::MAX,
        t[n].elements.subset_of(e),
        keys.subset_of(e),
        keys.contains(j0),
        promote ==> !as_real && keys.subset_of(virt_indices(t, n, p)),
        !promote ==> keys.subset_of(real_indices(t, n, p)),
    ensures
        keeps_order(t, wedged(t, n, p, e, as_real, keys, promote)),
        newcomers(t, wedged(t, n, p, e, as_real, keys, promote), e),
{
    let t2 = wedged(t, n, p, e, as_real, keys, promote);
    let m = t.len() as int;
    assert(t2[m] == abstraction(t, p, e, as_real));
    assert(node_ok(t, n));
    assert(node_ok(t, p as int));
    assert(node_ok(t2, n));
    assert(child(t, n, j0) == Some(p));
    lemma_child_edge(t, n, j0);
    let beyond = t[p as int].elements.difference(t[p as int].elements.intersect(e));
    let merged = t[p as int].virt.union_prefer_right(t[p as int].real);
    assert forall|j: Symbol| #![trigger child(t2, m, j)] child(t2, m, j) == (if beyond.contains(j) {
        Some(p)
    } else {
        child(t, p as int, j)
    }) by {
        if beyond.contains(j) {
            assert(!t[p as int].real.dom().contains(j));
            assert(!t[p as int].virt.dom().contains(j));
        }
    }
    assert forall|y: int, j: Symbol|
        #![trigger child(t2, y, j)]
        0 <= y < t.len() && !(y == n && keys.contains(j)) implies child(t2, y, j) == child(t, y, j) by {
        if y == n {
            if promote {
                assert(!t[n].real.dom().contains(j) || !keys.contains(j));
            }
        }
    }
    assert forall|j: Symbol| keys.contains(j) implies #[trigger] child(t2, n, j) == Some(m as usize)
        && child(t, n, j) == Some(p) by {}
    assert forall|y: int| 0 <= y < t.len() implies (#[trigger] t2[y]).elements == t[y].elements by {}
    assert forall|e1: Set<Symbol>| #[trigger] organised(t, e1) implies organised(t2, e1) by {
        assert forall|y: int| 0 <= y < t2.len() && t2[y].elements.subset_of(e1) implies #[trigger] organised_at(
            t2,
            y,
            e1,
        ) by {
            if y < t.len() {
                assert(organised_at(t, y, e1));
                assert(node_ok(t, y));
                assert forall|j: Symbol| e1.contains(j) && #[trigger] child(t2, y, j) is Some implies t2[child(
                    t2,
                    y,
                    j,
                ).unwrap() as int].elements.subset_of(e1) by {
                    if y == n && keys.contains(j) {
                        assert(child(t, n, j) == Some(p));
                        assert(t[p as int].elements.subset_of(e1));
                    } else {
                        assert(child(t2, y, j) == child(t, y, j));
                        lemma_child_edge(t, y, j);
                    }
                }
                if t2[y].elements != e1 {
                    assert forall|j: Symbol| e1.contains(j) && !t2[y].elements.contains(j) implies #[trigger] child(
                        t2,
                        y,
                        j,
                    ) is Some by {
                        assert(child(t, y, j) is Some);
                        if y == n && keys.contains(j) {
                        } else {
                            assert(child(t2, y, j) == child(t, y, j));
                        }
                    }
                }
            } else {
                assert(y == m);
                assert(t[n].elements.subset_of(t2[m].elements));
                assert(organised_at(t, n, e1));
                assert(t2[m].elements.contains(j0));
                assert(child(t, n, j0) == Some(p));
                assert(t[p as int].elements.subset_of(e1));
                assert(organised_at(t, p as int, e1));
                assert forall|j: Symbol| e1.contains(j) && #[trigger] child(t2, m, j) is Some implies t2[child(
                    t2,
                    m,
                    j,
                ).unwrap() as int].elements.subset_of(e1) by {
                    if !beyond.contains(j) {
                        assert(child(t2, m, j) == child(t, p as int, j));
                        lemma_child_edge(t, p as int, j);
                    }
                }
                if t2[m].elements != e1 {
                    assert forall|j: Symbol| e1.contains(j) && !t2[m].elements.contains(j) implies #[trigger] child(
                        t2,
                        m,
                        j,
                    ) is Some by {
                        if !beyond.contains(j) {
                            assert(!t[p as int].elements.contains(j));
                            assert(child(t, p as int, j) is Some);
                        }
                    }
                }
            }
        }
    }
    assert forall|y: int| t.len() <= y < t2.len() implies stems_from(t, (#[trigger] t2[y]).elements, e) by {
        assert(t2[y].elements == t[p as int].elements.intersect(e));
    }
}

/// From `t` to `t2` only targets of virtual edges have changed, and the
/// set of each new target lies within the set of the old one.
pub open spec fn relinked_down(t: Seq<MopView>, t2: Seq<MopView>) -> bool {
    &&& relinked(t, t2)
    &&& forall|x: int, k: Symbol|
        0 <= x < t.len() && #[trigger] t2[x].virt.dom().contains(k) ==> t[t2[x].virt[k] as int].elements.subset_of(
            t[t[x].virt[k] as int].elements,
        )
}

/// Relinking downwards is transitive.
pub proof fn lemma_relinked_down_trans(t: Seq<MopView>, t2: Seq<MopView>, t3: Seq<MopView>)
    requires
        relinked_down(t, t2),
        relinked_down(t2, t3),
        well_formed(t),
        well_formed(t2),
        well_formed(t3),
    ensures
        relinked_down(t, t3),
{
    crate::model::lemma_relinked_trans(t, t2, t3);
    assert forall|x: int, k: Symbol|
        0 <= x < t.len() && #[trigger] t3[x].virt.dom().contains(k) implies t[t3[x].virt[k] as int].elements.subset_of(
        t[t[x].virt[k] as int].elements,
    ) by {
        let a = t2[x];
        let b = t3[x];
        assert(t2[x].virt.dom().contains(k));
        assert(node_ok(t2, x));
        assert(edge_ok(t2, x, t2[x].virt[k] as int, k));
        assert(node_ok(t3, x));
        assert(edge_ok(t3, x, t3[x].virt[k] as int, k));
        assert(t2[t3[x].virt[k] as int].elements.subset_of(t2[t2[x].virt[k] as int].elements));
        assert(t2[t2[x].virt[k] as int].elements == t[t2[x].virt[k] as int].elements);
        assert(t2[t3[x].virt[k] as int].elements == t[t3[x].virt[k] as int].elements);
    }
}

/// Relinking downwards leaves the tree organised for whatever set it was organised for.
pub proof fn lemma_relinked_keeps_order(t: Seq<MopView>, t2: Seq<MopView>)
    requires
        well_formed(t),
        well_formed(t2),
        relinked_down(t, t2),
    ensures
        keeps_order(t, t2),
        forall|e: Set<Symbol>| newcomers(t, t2, e),
{
    assert forall|e1: Set<Symbol>| #[trigger] organised(t, e1) implies organised(t2, e1) by {
        assert forall|y: int| 0 <= y < t2.len() && t2[y].elements.subset_of(e1) implies #[trigger] organised_at(
            t2,
            y,
            e1,
        ) by {
            let a = t2[y];
            assert(organised_at(t, y, e1));
            assert(node_ok(t, y));
            assert(node_ok(t2, y));
            assert forall|j: Symbol| e1.contains(j) && #[trigger] child(t2, y, j) is Some implies t2[child(
                t2,
                y,
                j,
            ).unwrap() as int].elements.subset_of(e1) by {
                assert(child(t, y, j) is Some);
                lemma_child_edge(t, y, j);
                lemma_child_edge(t2, y, j);
                let c = t2[child(t2, y, j).unwrap() as int];
                let d = t2[child(t, y, j).unwrap() as int];
                if !t[y].real.dom().contains(j) {
                    assert(t2[y].virt.dom().contains(j));
                }
            }
            if t2[y].elements != e1 {
                assert forall|j: Symbol| e1.contains(j) && !t2[y].elements.contains(j) implies #[trigger] child(
                    t2,
                    y,
                    j,
                ) is Some by {
                    assert(child(t, y, j) is Some);
                }
            }
        }
    }
}

/// Giving node `n`, whose set lies properly within `e`, a node of set `e`
/// as a child under keys that `n` lacked leaves the tree organised for
/// whatever set it was organised for: whether the child is node `p` of the
/// tree and becomes a virtual child, or is added as node `p` without
/// children and becomes a real child.
pub proof fn lemma_install_keeps_order(
    t: Seq<MopView>,
    t2: Seq<MopView>,
    n: int,
    e: Set<Symbol>,
    keys: Set<Symbol>,
    p: usize,
    as_real: bool,
)
    requires
        well_formed(t),
        well_formed(t2),
        0 <= n < t.len(),
        t[n].elements.subset_of(e),
        t[n].elements != e,
        keys.subset_of(e),
        keys.disjoint(t[n].elements),
        keys.disjoint(t[n].real.dom()),
        keys.disjoint(t[n].virt.dom()),
        exists|k: Symbol| keys.contains(k),
        p < t2.len(),
        t2[p as int].elements == e,
        !as_real ==> p < t.len() && t2 == t.update(
            n,
            MopView { virt: installed(t[n].virt, keys, p), ..t[n] },
        ),
        as_real ==> p == t.len() && t2[p as int].real == Map::<Symbol, usize>::empty() && t2[p as int].virt
            == Map::<Symbol, usize>::empty() && t2 == t.push(t2[p as int]).update(
            n,
            MopView { real: installed(t[n].real, keys, p), ..t[n] },
        ),
    ensures
        keeps_order(t, t2),
        newcomers(t, t2, e),
{
    let k0 = choose|k: Symbol| keys.contains(k);
    assert(node_ok(t, n));
    assert forall|y: int| 0 <= y < t.len() implies (#[trigger] t2[y]).elements == t[y].elements by {}
    assert forall|y: int, j: Symbol|
        #![trigger child(t2, y, j)]
        0 <= y < t.len() && !(y == n && keys.contains(j)) implies child(t2, y, j) == child(t, y, j) by {}
    assert forall|e1: Set<Symbol>| #[trigger] organised(t, e1) implies organised(t2, e1) by {
        assert forall|y: int| 0 <= y < t2.len() && t2[y].elements.subset_of(e1) implies #[trigger] organised_at(
            t2,
            y,
            e1,
        ) by {
            if y < t.len() {
                assert(organised_at(t, y, e1));
                assert(node_ok(t, y));
                if y == n {
                    if t[n].elements != e1 {
                        assert forall|j: Symbol| keys.contains(j) implies !e1.contains(j) by {
                            if e1.contains(j) {
                                assert(child(t, n, j) is Some);
                            }
                        }
                    }
                }
                assert forall|j: Symbol| e1.contains(j) && #[trigger] child(t2, y, j) is Some implies t2[child(
                    t2,
                    y,
                    j,
                ).unwrap() as int].elements.subset_of(e1) by {
                    assert(!(y == n && keys.contains(j)));
                    assert(child(t2, y, j) == child(t, y, j));
                    lemma_child_edge(t, y, j);
                }
                if t2[y].elements != e1 {
                    assert forall|j: Symbol| e1.contains(j) && !t2[y].elements.contains(j) implies #[trigger] child(
                        t2,
                        y,
                        j,
                    ) is Some by {
                        assert(child(t, y, j) is Some);
                        assert(child(t2, y, j) == child(t, y, j));
                    }
                }
            } else {
                assert(y == p);
                if e != e1 {
                    assert(organised_at(t, n, e1));
                    assert(e1.contains(k0));
                    assert(child(t, n, k0) is Some);
                }
                assert forall|j: Symbol| !(#[trigger] child(t2, y, j) is Some) by {}
            }
        }
    }
    assert forall|y: int| t.len() <= y < t2.len() implies stems_from(t, (#[trigger] t2[y]).elements, e) by {}
}

/// Newcomers of newcomers are newcomers.
pub proof fn lemma_newcomers_trans(t: Seq<MopView>, t2: Seq<MopView>, t3: Seq<MopView>, e: Set<Symbol>)
    requires
        grows(t, t2),
        grows(t2, t3),
        newcomers(t, t2, e),
        newcomers(t2, t3, e),
    ensures
        newcomers(t, t3, e),
{
    assert forall|y: int| t.len() <= y < t3.len() implies stems_from(t, (#[trigger] t3[y]).elements, e) by {
        if y < t2.len() {
            assert(stems_from(t, t2[y].elements, e));
            let a = t3[y];
        } else {
            assert(stems_from(t2, t3[y].elements, e));
            if t3[y].elements != e {
                let p = choose|p: int| 0 <= p < t2.len() && t3[y].elements == (#[trigger] t2[p]).elements.intersect(e);
                if p < t.len() {
                    let a = t2[p];
                    assert(t2[p].elements == t[p].elements);
                    assert(t3[y].elements == t[p].elements.intersect(e));
                } else {
                    assert(stems_from(t, t2[p].elements, e));
                    if t2[p].elements == e {
                        assert(t3[y].elements =~= e);
                    } else {
                        let r = choose|r: int| 0 <= r < t.len() && t2[p].elements == (#[trigger] t[r]).elements.intersect(e);
                        assert(t3[y].elements =~= t[r].elements.intersect(e));
                    }
                }
            }
        }
    }
}

/// A tree grown out of a retentive tree is retentive if it is organised
/// for the excerpt taken in and for whatever the old tree was organised
/// for, and its new nodes stem from the old ones and the excerpt.
pub proof fn lemma_retentive_after(t: Seq<MopView>, t2: Seq<MopView>, e: Set<Symbol>)
    requires
        retentive(t),
        grows(t, t2),
        keeps_order(t, t2),
        newcomers(t, t2, e),
        organised(t2, e),
    ensures
        retentive(t2),
{
    assert forall|x: int| 0 <= x < t2.len() implies organised(t2, #[trigger] t2[x].elements) by {
        if x < t.len() {
            assert(organised(t, t[x].elements));
        } else {
            assert(stems_from(t, t2[x].elements, e));
            if t2[x].elements != e {
                let p = choose|p: int| 0 <= p < t.len() && t2[x].elements == (#[trigger] t[p]).elements.intersect(e);
                assert(organised(t, t[p].elements));
                lemma_organised_shared(t2, t[p].elements, e);
            }
        }
    }
}

/// In a tree organised for `e`, every node that `e` reaches from a node
/// within `e`, by real or by virtual edges, has its set within `e`.
pub proof fn lemma_organised_compatible(t: Seq<MopView>, e: Set<Symbol>, n: int)
    requires
        well_formed(t),
        organised(t, e),
        e.finite(),
        0 <= n < t.len(),
        t[n].elements.subset_of(e),
    ensures
        compatible(t, n, e),
    decreases distance(t, n, e),
{
    assert(organised_at(t, n, e));
    assert forall|j: Symbol|
        #![trigger child(t, n, j)]
        e.contains(j) && child(t, n, j) is Some implies {
        &&& distance(t, child(t, n, j).unwrap() as int, e) < distance(t, n, e)
        &&& compatible(t, child(t, n, j).unwrap() as int, e)
    } by {
        let c = child(t, n, j).unwrap() as int;
        lemma_child_edge(t, n, j);
        lemma_distance_child(t, n, c, j, e);
        lemma_organised_compatible(t, e, c);
    }
}

} // verus!
