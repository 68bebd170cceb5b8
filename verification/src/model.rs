//! The tree as the contracts see it: a sequence of node views, in which a
//! child edge holds the index of the child, and the root stands at index 0.
//!
//! This module states when such a sequence is a well-formed tree, and defines
//! over it what the queries return.
use vstd::prelude::*;
use vstd::set_lib::lemma_len_subset;
use crate::mop::{installed, MopView};
use crate::ordered_set::{is_least, Symbol};
use crate::strength::UNIT;

verus! {

/// The smallest element of `s`, where `s` has one.
pub open spec fn least(s: Set<Symbol>) -> Symbol {
    choose|x: Symbol| is_least(s, x)
}

/// A set has at most one smallest element.
pub proof fn lemma_least_unique(s: Set<Symbol>, x: Symbol)
    requires
        is_least(s, x),
    ensures
        least(s) == x,
{
    let y = least(s);
    assert(is_least(s, y));
}

/// The edge from node `n` under key `j` to node `c` enlarges the set: `c`
/// is a node, its set includes that of `n`, and `j` is in it.
pub open spec fn edge_ok(t: Seq<MopView>, n: int, c: int, j: Symbol) -> bool {
    &&& 0 <= c < t.len()
    &&& t[n].elements.subset_of(t[c].elements)
    &&& t[c].elements.contains(j)
}

/// Node `n` is in order: its sets are finite, its strengths are at most
/// one, no key of a child edge is in its set, no key is both real and
/// virtual, and each of its edges enlarges the set.
pub open spec fn node_ok(t: Seq<MopView>, n: int) -> bool {
    &&& t[n].elements.finite()
    &&& t[n].real.dom().finite()
    &&& t[n].virt.dom().finite()
    &&& t[n].trace <= UNIT
    &&& t[n].epitome <= UNIT
    &&& t[n].undif <= UNIT
    &&& forall|j: Symbol| #[trigger]
        t[n].real.dom().contains(j) ==> {
            &&& !t[n].elements.contains(j)
            &&& !t[n].virt.dom().contains(j)
            &&& edge_ok(t, n, t[n].real[j] as int, j)
        }
    &&& forall|j: Symbol| #[trigger]
        t[n].virt.dom().contains(j) ==> {
            &&& !t[n].elements.contains(j)
            &&& edge_ok(t, n, t[n].virt[j] as int, j)
        }
}

/// The sequence is a tree: the node of the empty set stands at index 0, and
/// every node is in order.
pub open spec fn well_formed(t: Seq<MopView>) -> bool {
    &&& t.len() > 0
    &&& t[0].elements == Set::<Symbol>::empty()
    &&& forall|n: int| 0 <= n < t.len() ==> #[trigger] node_ok(t, n)
}

/// The keys of node `n` that lead to its real child `c`: the elements of
/// `c` that are neither in the set of `n` nor virtual keys of `n`, and
/// under which `n` holds `c` as a real child.
pub open spec fn real_indices(t: Seq<MopView>, n: int, c: usize) -> Set<Symbol> {
    Set::new(
        |i: Symbol|
            {
                &&& t[c as int].elements.contains(i)
                &&& !t[n].elements.contains(i)
                &&& !t[n].virt.dom().contains(i)
                &&& t[n].real.dom().contains(i)
                &&& t[n].real[i] == c
            },
    )
}

/// The keys of node `n` that lead to its virtual child `c`: the elements of
/// `c` that are neither in the set of `n` nor real keys of `n`, and under
/// which `n` holds `c` as a virtual child.
pub open spec fn virt_indices(t: Seq<MopView>, n: int, c: usize) -> Set<Symbol> {
    Set::new(
        |i: Symbol|
            {
                &&& t[c as int].elements.contains(i)
                &&& !t[n].elements.contains(i)
                &&& !t[n].real.dom().contains(i)
                &&& t[n].virt.dom().contains(i)
                &&& t[n].virt[i] == c
            },
    )
}

/// In a tree the real indices of a child are all the keys that lead to it.
pub proof fn lemma_real_indices(t: Seq<MopView>, n: int, c: usize)
    requires
        well_formed(t),
        0 <= n < t.len(),
    ensures
        forall|i: Symbol|
            real_indices(t, n, c).contains(i) <==> (#[trigger] t[n].real.dom().contains(i)
                && t[n].real[i] == c),
{
    assert(node_ok(t, n));
}

/// In a tree the virtual indices of a child are all the keys that lead to it.
pub proof fn lemma_virt_indices(t: Seq<MopView>, n: int, c: usize)
    requires
        well_formed(t),
        0 <= n < t.len(),
    ensures
        forall|i: Symbol|
            virt_indices(t, n, c).contains(i) <==> (#[trigger] t[n].virt.dom().contains(i)
                && t[n].virt[i] == c),
{
    assert(node_ok(t, n));
}

/// The child of node `n` under key `j`: the real one if there is one, else
/// the virtual one.
pub open spec fn child(t: Seq<MopView>, n: int, j: Symbol) -> Option<usize> {
    if t[n].real.dom().contains(j) {
        Some(t[n].real[j])
    } else if t[n].virt.dom().contains(j) {
        Some(t[n].virt[j])
    } else {
        None
    }
}

/// In a tree every child edge, real or virtual, enlarges the set.
pub proof fn lemma_child_edge(t: Seq<MopView>, n: int, j: Symbol)
    requires
        well_formed(t),
        0 <= n < t.len(),
        child(t, n, j) is Some,
    ensures
        edge_ok(t, n, child(t, n, j).unwrap() as int, j),
        !t[n].elements.contains(j),
        t[n].elements.len() < t[child(t, n, j).unwrap() as int].elements.len(),
{
    assert(node_ok(t, n));
    let c = child(t, n, j).unwrap() as int;
    assert(node_ok(t, c));
    t[n].elements.lemma_subset_not_in_lt(t[c].elements, j);
}

/// The node that the descent from node `p` ends in, while the symbols of
/// `rest` are still to be found: with `rest` empty it is `p`; else the
/// descent goes on from the child of `p` under the smallest symbol of
/// `rest`, with what the child's set leaves of `rest`; without such a child
/// there is no result.
pub open spec fn descent(t: Seq<MopView>, p: int, rest: Set<Symbol>) -> Option<int>
    decreases rest.len(),
{
    if !rest.finite() || rest.is_empty() {
        Some(p)
    } else {
        let j = least(rest);
        match child(t, p, j) {
            Some(c) => {
                if rest.contains(j) && t[c as int].elements.contains(j) {
                    proof {
                        let next = rest.difference(t[c as int].elements);
                        lemma_len_subset(next, rest);
                        next.lemma_subset_not_in_lt(rest, j);
                    }
                    descent(t, c as int, rest.difference(t[c as int].elements))
                } else {
                    None
                }
            },
            None => None,
        }
    }
}

/// What a complete match of the query `q` returns: the end of the descent
/// from the root for the symbols of `q` that the root's set lacks.
pub open spec fn complete_match_of(t: Seq<MopView>, q: Set<Symbol>) -> Option<int> {
    descent(t, 0, q.difference(t[0].elements))
}

/// A descent in a tree ends, if at all, in a node whose set holds all of
/// `rest` and the set of the node it started from.
pub proof fn lemma_descent_covers(t: Seq<MopView>, p: int, rest: Set<Symbol>)
    requires
        well_formed(t),
        0 <= p < t.len(),
        rest.finite(),
        descent(t, p, rest) is Some,
    ensures
        0 <= descent(t, p, rest).unwrap() < t.len(),
        rest.subset_of(t[descent(t, p, rest).unwrap()].elements),
        t[p].elements.subset_of(t[descent(t, p, rest).unwrap()].elements),
    decreases rest.len(),
{
    if !rest.is_empty() {
        let j = least(rest);
        let c = child(t, p, j).unwrap() as int;
        lemma_child_edge(t, p, j);
        let next = rest.difference(t[c].elements);
        lemma_len_subset(next, rest);
        next.lemma_subset_not_in_lt(rest, j);
        lemma_descent_covers(t, c, next);
    }
}

/// Replacing the view of node `n` by one with the same set, and in order
/// in the new sequence, leaves a tree.
pub proof fn lemma_update_keeps_tree(t: Seq<MopView>, n: int, v: MopView)
    requires
        well_formed(t),
        0 <= n < t.len(),
        v.elements == t[n].elements,
        node_ok(t.update(n, v), n),
    ensures
        well_formed(t.update(n, v)),
{
    let t2 = t.update(n, v);
    assert forall|x: int| 0 <= x < t2.len() implies #[trigger] node_ok(t2, x) by {
        if x != n {
            assert(node_ok(t, x));
            assert(t2[x] == t[x]);
            assert forall|j: Symbol| #[trigger] t2[x].real.dom().contains(j) implies edge_ok(
                t2,
                x,
                t2[x].real[j] as int,
                j,
            ) by {
                assert(edge_ok(t, x, t[x].real[j] as int, j));
            }
            assert forall|j: Symbol| #[trigger] t2[x].virt.dom().contains(j) implies edge_ok(
                t2,
                x,
                t2[x].virt[j] as int,
                j,
            ) by {
                assert(edge_ok(t, x, t[x].virt[j] as int, j));
            }
        }
    }
}

/// Adding a node that is in order in the longer sequence leaves a tree.
pub proof fn lemma_push_keeps_tree(t: Seq<MopView>, v: MopView)
    requires
        well_formed(t),
        node_ok(t.push(v), t.len() as int),
    ensures
        well_formed(t.push(v)),
{
    let t2 = t.push(v);
    assert forall|x: int| 0 <= x < t2.len() implies #[trigger] node_ok(t2, x) by {
        if x < t.len() {
            assert(node_ok(t, x));
            assert(t2[x] == t[x]);
            assert forall|j: Symbol| #[trigger] t2[x].real.dom().contains(j) implies edge_ok(
                t2,
                x,
                t2[x].real[j] as int,
                j,
            ) by {
                assert(edge_ok(t, x, t[x].real[j] as int, j));
            }
            assert forall|j: Symbol| #[trigger] t2[x].virt.dom().contains(j) implies edge_ok(
                t2,
                x,
                t2[x].virt[j] as int,
                j,
            ) by {
                assert(edge_ok(t, x, t[x].virt[j] as int, j));
            }
        }
    }
}

/// From `t` to `t2` the tree has only grown: every node is still there with
/// the set it had and with every real key it had, and with every key it had
/// still a key, real or virtual.
pub open spec fn grows(t: Seq<MopView>, t2: Seq<MopView>) -> bool {
    &&& t.len() <= t2.len()
    &&& forall|n: int|
        #![trigger t2[n]]
        0 <= n < t.len() ==> {
            &&& t2[n].elements == t[n].elements
            &&& t[n].real.dom().subset_of(t2[n].real.dom())
            &&& t[n].virt.dom().subset_of(t2[n].virt.dom().union(t2[n].real.dom()))
            &&& t[n].trace <= t2[n].trace
            &&& t[n].epitome <= t2[n].epitome
            &&& t[n].undif <= t2[n].undif
        }
}

/// Growing is transitive.
pub proof fn lemma_grows_trans(t: Seq<MopView>, t2: Seq<MopView>, t3: Seq<MopView>)
    requires
        grows(t, t2),
        grows(t2, t3),
    ensures
        grows(t, t3),
{
    assert forall|n: int| #![trigger t3[n]] 0 <= n < t.len() implies {
        &&& t3[n].elements == t[n].elements
        &&& t[n].real.dom().subset_of(t3[n].real.dom())
        &&& t[n].virt.dom().subset_of(t3[n].virt.dom().union(t3[n].real.dom()))
        &&& t[n].trace <= t3[n].trace
        &&& t[n].epitome <= t3[n].epitome
        &&& t[n].undif <= t3[n].undif
    } by {
        let a = t2[n];
        let b = t3[n];
    }
}

/// A proper superset within `e` leaves less of `e`.
pub proof fn lemma_less_left(e: Set<Symbol>, a: Set<Symbol>, b: Set<Symbol>, j: Symbol)
    requires
        e.finite(),
        a.subset_of(b),
        b.subset_of(e),
        b.contains(j),
        !a.contains(j),
    ensures
        e.difference(b).len() < e.difference(a).len(),
{
    lemma_len_subset(e.difference(a), e);
    e.difference(b).lemma_subset_not_in_lt(e.difference(a), j);
}

/// The node that is put between node `p` and a parent of `p` for the
/// excerpt `e`: its set is what the set of `p` shares with `e`, it has no
/// trace strength, and its other two strengths are the undifferentiated
/// strength of `p`. Its virtual children are all the children of `p`. Under
/// the symbols that `p` has beyond `e` it holds `p` itself, as a real child
/// if `as_real` is set and as a virtual child if not.
pub open spec fn abstraction(t: Seq<MopView>, p: usize, e: Set<Symbol>, as_real: bool) -> MopView {
    let beyond = t[p as int].elements.difference(t[p as int].elements.intersect(e));
    let merged = t[p as int].virt.union_prefer_right(t[p as int].real);
    MopView {
        elements: t[p as int].elements.intersect(e),
        real: if as_real {
            installed(Map::empty(), beyond, p)
        } else {
            Map::empty()
        },
        virt: if as_real {
            merged
        } else {
            installed(merged, beyond, p)
        },
        trace: 0,
        epitome: t[p as int].undif,
        undif: t[p as int].undif,
    }
}

/// The abstraction of a node of a tree is in order as the next node of the
/// tree; its set lies within the excerpt, and it has no real child under a
/// key of the excerpt.
pub proof fn lemma_abstraction_ok(t: Seq<MopView>, p: usize, e: Set<Symbol>, as_real: bool)
    requires
        well_formed(t),
        p < t.len(),
        e.finite(),
    ensures
        node_ok(t.push(abstraction(t, p, e, as_real)), t.len() as int),
        abstraction(t, p, e, as_real).elements.subset_of(e),
        forall|j: Symbol| e.contains(j) ==> !#[trigger] abstraction(t, p, e, as_real).real.dom().contains(j),
{
    let v = abstraction(t, p, e, as_real);
    let t2 = t.push(v);
    let m = t.len() as int;
    let beyond = t[p as int].elements.difference(t[p as int].elements.intersect(e));
    let merged = t[p as int].virt.union_prefer_right(t[p as int].real);
    assert(node_ok(t, p as int));
    assert(merged.dom() =~= t[p as int].virt.dom().union(t[p as int].real.dom()));
    lemma_len_subset(beyond, t[p as int].elements);
    lemma_len_subset(v.elements, t[p as int].elements);
    assert(installed(merged, beyond, p).dom() =~= merged.dom().union(beyond));
    assert(installed(Map::empty(), beyond, p).dom() =~= beyond);
    assert forall|j: Symbol| #[trigger] t2[m].real.dom().contains(j) implies {
        &&& !t2[m].elements.contains(j)
        &&& !t2[m].virt.dom().contains(j)
        &&& edge_ok(t2, m, t2[m].real[j] as int, j)
    } by {
        assert(beyond.contains(j));
        assert(!merged.dom().contains(j)) by {
            if t[p as int].real.dom().contains(j) {
            }
            if t[p as int].virt.dom().contains(j) {
            }
        }
    }
    assert forall|j: Symbol| #[trigger] t2[m].virt.dom().contains(j) implies {
        &&& !t2[m].elements.contains(j)
        &&& edge_ok(t2, m, t2[m].virt[j] as int, j)
    } by {
        if !as_real && beyond.contains(j) {
        } else {
            assert(merged.dom().contains(j));
            if t[p as int].real.dom().contains(j) {
                assert(edge_ok(t, p as int, t[p as int].real[j] as int, j));
            } else {
                assert(t[p as int].virt.dom().contains(j));
                assert(edge_ok(t, p as int, t[p as int].virt[j] as int, j));
            }
        }
    }
}

/// From `t` to `t2` only targets of virtual edges have changed.
pub open spec fn relinked(t: Seq<MopView>, t2: Seq<MopView>) -> bool {
    &&& t2.len() == t.len()
    &&& forall|x: int|
        #![trigger t2[x]]
        0 <= x < t.len() ==> {
            &&& t2[x] == (MopView { virt: t2[x].virt, ..t[x] })
            &&& t2[x].virt.dom() == t[x].virt.dom()
        }
}

/// Relinking is transitive.
pub proof fn lemma_relinked_trans(t: Seq<MopView>, t2: Seq<MopView>, t3: Seq<MopView>)
    requires
        relinked(t, t2),
        relinked(t2, t3),
    ensures
        relinked(t, t3),
{
    assert forall|x: int| #![trigger t3[x]] 0 <= x < t.len() implies {
        &&& t3[x] == (MopView { virt: t3[x].virt, ..t[x] })
        &&& t3[x].virt.dom() == t[x].virt.dom()
    } by {
        let a = t2[x];
    }
}

/// The tree `t` after the abstraction of `p` for `e` has been added and
/// installed as a real child of node `n` under the keys of `keys`; with
/// `promote` set, those keys are taken out of the virtual edges of `n`.
pub open spec fn wedged(
    t: Seq<MopView>,
    n: int,
    p: usize,
    e: Set<Symbol>,
    as_real: bool,
    keys: Set<Symbol>,
    promote: bool,
) -> Seq<MopView> {
    t.push(abstraction(t, p, e, as_real)).update(
        n,
        MopView {
            real: installed(t[n].real, keys, t.len() as usize),
            virt: if promote {
                t[n].virt.remove_keys(keys)
            } else {
                t[n].virt
            },
            ..t[n]
        },
    )
}

/// Outside the nodes whose set includes that of node `n`, the real edges
/// of `t2` are those of `t`.
pub open spec fn real_kept_outside(t: Seq<MopView>, t2: Seq<MopView>, n: int) -> bool {
    forall|x: int|
        #![trigger t2[x]]
        0 <= x < t.len() && !t[n].elements.subset_of(t[x].elements) ==> t2[x].real == t[x].real
}

/// How far the set of node `n` is from the set `target`, counted so that
/// a node whose set is not within `target` is at distance zero.
pub open spec fn distance(t: Seq<MopView>, n: int, target: Set<Symbol>) -> nat {
    if t[n].elements.subset_of(target) {
        target.difference(t[n].elements).len() + 1
    } else {
        0
    }
}

/// A child of a node within `target` is nearer to `target` than the node.
pub proof fn lemma_distance_child(t: Seq<MopView>, n: int, c: int, j: Symbol, target: Set<Symbol>)
    requires
        0 <= n < t.len(),
        edge_ok(t, n, c, j),
        !t[n].elements.contains(j),
        t[n].elements.subset_of(target),
        target.finite(),
    ensures
        distance(t, c, target) < distance(t, n, target),
{
    if t[c].elements.subset_of(target) {
        lemma_less_left(target, t[n].elements, t[c].elements, j);
    }
}

/// The size of the largest set of a node of `t`.
pub open spec fn widest(t: Seq<MopView>) -> nat
    decreases t.len(),
{
    if t.len() == 0 {
        0
    } else {
        let rest = widest(t.drop_last());
        let size = t.last().elements.len();
        if size > rest {
            size
        } else {
            rest
        }
    }
}

/// No set of a node is larger than the widest.
pub proof fn lemma_widest(t: Seq<MopView>, n: int)
    requires
        0 <= n < t.len(),
    ensures
        t[n].elements.len() <= widest(t),
    decreases t.len(),
{
    if n < t.len() - 1 {
        lemma_widest(t.drop_last(), n);
    }
}

/// How many symbols the set of node `n` could still gain.
pub open spec fn room(t: Seq<MopView>, n: int) -> nat {
    (widest(t) - t[n].elements.len()) as nat
}

/// A child of a node of a tree has less room than the node.
pub proof fn lemma_room_child(t: Seq<MopView>, n: int, j: Symbol)
    requires
        well_formed(t),
        0 <= n < t.len(),
        child(t, n, j) is Some,
    ensures
        0 <= child(t, n, j).unwrap() < t.len(),
        t[n].elements.len() < t[child(t, n, j).unwrap() as int].elements.len() <= widest(t),
        room(t, child(t, n, j).unwrap() as int) < room(t, n),
{
    lemma_child_edge(t, n, j);
    lemma_widest(t, child(t, n, j).unwrap() as int);
}

/// The child under `j` is a node with a larger set than `n`, no larger
/// than the widest. In a tree this holds of every child.
pub open spec fn child_below(t: Seq<MopView>, n: int, j: Symbol) -> bool {
    &&& child(t, n, j) is Some
    &&& 0 <= n < t.len()
    &&& 0 <= child(t, n, j).unwrap() < t.len()
    &&& t[n].elements.len() < t[child(t, n, j).unwrap() as int].elements.len() <= widest(t)
}

/// Node `x` is reached from node `n` by real edges.
pub open spec fn reached(t: Seq<MopView>, n: int, x: int) -> bool
    decreases room(t, n),
{
    x == n || exists|j: Symbol|
        #![trigger t[n].real.dom().contains(j)]
        {
            &&& t[n].real.dom().contains(j)
            &&& child_below(t, n, j)
            &&& reached(t, t[n].real[j] as int, x)
        }
}

/// From `t` to `t2` strengths may have fallen, and nothing else has changed.
pub open spec fn faded(t: Seq<MopView>, t2: Seq<MopView>) -> bool {
    &&& t2.len() == t.len()
    &&& forall|x: int|
        #![trigger t2[x]]
        0 <= x < t.len() ==> {
            &&& t2[x].elements == t[x].elements
            &&& t2[x].real == t[x].real
            &&& t2[x].virt == t[x].virt
            &&& t2[x].trace <= t[x].trace
            &&& t2[x].epitome <= t[x].epitome
            &&& t2[x].undif <= t[x].undif
        }
}

/// From `a` to `b` each strength that was above zero has fallen.
pub open spec fn weakened(a: MopView, b: MopView) -> bool {
    &&& a.trace > 0 ==> b.trace < a.trace
    &&& a.epitome > 0 ==> b.epitome < a.epitome
    &&& a.undif > 0 ==> b.undif < a.undif
}

/// Every node that `e` reaches from node `n`, by real edges and, under
/// keys without a real edge, by virtual edges, has its set within `e`.
pub open spec fn compatible(t: Seq<MopView>, n: int, e: Set<Symbol>) -> bool
    decreases distance(t, n, e),
{
    &&& t[n].elements.subset_of(e)
    &&& forall|j: Symbol|
        #![trigger child(t, n, j)]
        e.contains(j) && child(t, n, j) is Some ==> {
            &&& distance(t, child(t, n, j).unwrap() as int, e) < distance(t, n, e)
            &&& compatible(t, child(t, n, j).unwrap() as int, e)
        }
}

/// No key of a child edge of the node is in its set, and no key is both
/// real and virtual.
pub open spec fn keys_apart(v: MopView) -> bool {
    &&& v.real.dom().disjoint(v.elements)
    &&& v.virt.dom().disjoint(v.elements)
    &&& v.real.dom().disjoint(v.virt.dom())
}

/// In a tree the keys of every node are apart.
pub proof fn lemma_keys_apart(t: Seq<MopView>, n: int)
    requires
        well_formed(t),
        0 <= n < t.len(),
    ensures
        keys_apart(t[n]),
{
    assert(node_ok(t, n));
}

} // verus!
