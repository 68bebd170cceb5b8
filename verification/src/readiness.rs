//! How far the tree has been made ready for an excerpt, and what each step
//! of taking an excerpt in keeps.
//!
//! Taking an excerpt `e` in has three phases. After the first, every node
//! that `e` reaches from the root by real edges is compatible with `e`: its
//! set lies within `e`. After the second, every virtual child of such a
//! node, under a key of `e`, is compatible too. After the third, every such
//! node is served: if its set is `e` it is a trace, and if not it has a
//! child under every symbol of `e` that it lacks.
use vstd::prelude::*;
use crate::model::{abstraction, child, child_below, complete_match_of, descent, edge_ok, grows,
    virt_indices, least, lemma_abstraction_ok, lemma_child_edge, lemma_grows_trans,
    lemma_less_left, lemma_real_indices, lemma_room_child, node_ok, reached, real_indices,
    real_kept_outside, relinked, room, wedged, well_formed};
use crate::mop::MopView;
use crate::ordered_set::{is_least, Symbol};
use crate::set_order::lemma_has_least;
use crate::retention::{keeps_order, lemma_newcomers_trans, lemma_relinked_keeps_order,
    lemma_wedge_keeps_order, newcomers, relinked_down, retentive};

verus! {

/// Every node is reached from the root by real edges.
pub open spec fn connected(t: Seq<MopView>) -> bool {
    forall|x: int| 0 <= x < t.len() ==> #[trigger] reached(t, 0, x)
}

/// No node is the real child of two nodes.
pub open spec fn unique_parent(t: Seq<MopView>) -> bool {
    forall|a: int, j: Symbol, b: int, k: Symbol|
        0 <= a < t.len() && 0 <= b < t.len() && #[trigger] t[a].real.dom().contains(j)
            && #[trigger] t[b].real.dom().contains(k) && t[a].real[j] == t[b].real[k] ==> a == b
}

/// A node reached by real edges in a tree is a node of the tree, and its
/// set includes the set of the node it was reached from.
pub proof fn lemma_reached_within(t: Seq<MopView>, n: int, x: int)
    requires
        well_formed(t),
        0 <= n < t.len(),
        reached(t, n, x),
    ensures
        0 <= x < t.len(),
        t[n].elements.subset_of(t[x].elements),
    decreases room(t, n),
{
    if x != n {
        let j = choose|j: Symbol|
            #![trigger t[n].real.dom().contains(j)]
            {
                &&& t[n].real.dom().contains(j)
                &&& child_below(t, n, j)
                &&& reached(t, t[n].real[j] as int, x)
            };
        assert(node_ok(t, n));
        assert(edge_ok(t, n, t[n].real[j] as int, j));
        lemma_reached_within(t, t[n].real[j] as int, x);
    }
}

/// A real edge of a tree leads from a node to a node reached from it.
pub proof fn lemma_reached_edge(t: Seq<MopView>, n: int, j: Symbol)
    requires
        well_formed(t),
        0 <= n < t.len(),
        t[n].real.dom().contains(j),
    ensures
        reached(t, n, t[n].real[j] as int),
{
    assert(node_ok(t, n));
    assert(child(t, n, j) == Some(t[n].real[j]));
    lemma_room_child(t, n, j);
    assert(child_below(t, n, j));
    assert(reached(t, t[n].real[j] as int, t[n].real[j] as int));
}

/// What is reached from a node that is reached from `a` is reached from `a`.
pub proof fn lemma_reached_trans(t: Seq<MopView>, a: int, b: int, c: int)
    requires
        reached(t, a, b),
        reached(t, b, c),
    ensures
        reached(t, a, c),
    decreases room(t, a),
{
    if a != b {
        let j = choose|j: Symbol|
            #![trigger t[a].real.dom().contains(j)]
            {
                &&& t[a].real.dom().contains(j)
                &&& child_below(t, a, j)
                &&& reached(t, t[a].real[j] as int, b)
            };
        lemma_reached_trans(t, t[a].real[j] as int, b, c);
    }
}

/// From `t` to `t2` every node keeps its set and its real edges.
pub open spec fn real_edges_kept(t: Seq<MopView>, t2: Seq<MopView>) -> bool {
    &&& t.len() <= t2.len()
    &&& forall|x: int|
        #![trigger t2[x]]
        0 <= x < t.len() ==> {
            &&& t2[x].elements == t[x].elements
            &&& forall|j: Symbol| #[trigger]
                t[x].real.dom().contains(j) ==> t2[x].real.dom().contains(j) && t2[x].real[j]
                    == t[x].real[j]
        }
}

/// Where the real edges are kept, what was reached stays reached.
pub proof fn lemma_reached_kept(t: Seq<MopView>, t2: Seq<MopView>, n: int, x: int)
    requires
        well_formed(t2),
        real_edges_kept(t, t2),
        0 <= n < t.len(),
        reached(t, n, x),
    ensures
        reached(t2, n, x),
    decreases room(t, n),
{
    if x != n {
        let j = choose|j: Symbol|
            #![trigger t[n].real.dom().contains(j)]
            {
                &&& t[n].real.dom().contains(j)
                &&& child_below(t, n, j)
                &&& reached(t, t[n].real[j] as int, x)
            };
        let c = t[n].real[j] as int;
        lemma_reached_kept(t, t2, c, x);
        let a = t2[n];
        assert(t2[n].real.dom().contains(j));
        assert(child(t2, n, j) == Some(t2[n].real[j]));
        lemma_room_child(t2, n, j);
    }
}

/// Where the real edges are kept and no node is added, a connected tree stays connected.
pub proof fn lemma_connected_kept(t: Seq<MopView>, t2: Seq<MopView>)
    requires
        well_formed(t2),
        real_edges_kept(t, t2),
        t2.len() == t.len(),
        connected(t),
    ensures
        connected(t2),
{
    assert forall|x: int| 0 <= x < t2.len() implies #[trigger] reached(t2, 0, x) by {
        assert(reached(t, 0, x));
        lemma_reached_kept(t, t2, 0, x);
    }
}

/// What holds at node `x` alone once the given phase of taking `e` in is
/// over: its set lies within `e`; from the second phase on, each of its
/// virtual children under a key of `e` has its set within `e`; from the
/// third phase on, it is a trace if its set is `e`, and has a child under
/// every symbol of `e` that it lacks if not.
pub open spec fn local_ok(t: Seq<MopView>, x: int, e: Set<Symbol>, phase: int) -> bool {
    &&& t[x].elements.subset_of(e)
    &&& phase >= 2 ==> forall|j: Symbol|
        e.contains(j) && #[trigger] t[x].virt.dom().contains(j) ==> t[t[x].virt[j] as int].elements.subset_of(
            e,
        )
    &&& phase >= 3 ==> if t[x].elements == e {
        t[x].trace > 0
    } else {
        forall|j: Symbol| e.contains(j) && !t[x].elements.contains(j) ==> #[trigger] child(t, x, j) is Some
    }
}

/// The part of the tree that `e` reaches from node `n` by real edges is
/// through the given phase: what the phase asks holds at `n` and, in turn,
/// in the part under each real child of `n` whose key is in `e`.
pub open spec fn ready(t: Seq<MopView>, n: int, e: Set<Symbol>, phase: int) -> bool
    decreases e.difference(t[n].elements).len(),
{
    &&& 0 <= n < t.len()
    &&& local_ok(t, n, e, phase)
    &&& forall|j: Symbol|
        #![trigger t[n].real.dom().contains(j)]
        e.contains(j) && t[n].real.dom().contains(j) ==> {
            let c = t[n].real[j] as int;
            &&& 0 <= c < t.len()
            &&& e.difference(t[c].elements).len() < e.difference(t[n].elements).len()
            &&& ready(t, c, e, phase)
        }
}

/// What is ready through a phase is ready through every earlier phase.
pub proof fn lemma_ready_earlier(t: Seq<MopView>, n: int, e: Set<Symbol>, phase: int, earlier: int)
    requires
        ready(t, n, e, phase),
        earlier <= phase,
    ensures
        ready(t, n, e, earlier),
    decreases e.difference(t[n].elements).len(),
{
    assert forall|j: Symbol|
        #![trigger t[n].real.dom().contains(j)]
        e.contains(j) && t[n].real.dom().contains(j) implies {
        let c = t[n].real[j] as int;
        &&& 0 <= c < t.len()
        &&& e.difference(t[c].elements).len() < e.difference(t[n].elements).len()
        &&& ready(t, c, e, earlier)
    } by {
        lemma_ready_earlier(t, t[n].real[j] as int, e, phase, earlier);
    }
}

/// A step from `t` to `t2` that keeps what the phases up to `phase` have
/// brought: the sets stay; what held at a node alone still holds there; and
/// a real edge under a key of `e`, at a node other than `except`, is one
/// that `t` had or leads to a part that is through the phase.
pub open spec fn step_ok(
    t: Seq<MopView>,
    t2: Seq<MopView>,
    e: Set<Symbol>,
    phase: int,
    except: int,
) -> bool {
    &&& t.len() <= t2.len()
    &&& forall|x: int| 0 <= x < t.len() ==> (#[trigger] t2[x]).elements == t[x].elements
    &&& forall|x: int, q: int|
        0 <= x < t.len() && 1 <= q <= phase && #[trigger] local_ok(t, x, e, q) ==> local_ok(
            t2,
            x,
            e,
            q,
        )
    &&& forall|x: int, j: Symbol|
        0 <= x < t.len() && x != except && e.contains(j) && #[trigger] t2[x].real.dom().contains(j)
            ==> {
            ||| (t[x].real.dom().contains(j) && t[x].real[j] == t2[x].real[j])
            ||| ready(t2, t2[x].real[j] as int, e, phase)
        }
}

/// What was ready stays ready over a step that keeps the phase.
pub proof fn lemma_ready_step(
    t: Seq<MopView>,
    t2: Seq<MopView>,
    e: Set<Symbol>,
    phase: int,
    y: int,
)
    requires
        well_formed(t2),
        e.finite(),
        phase >= 1,
        step_ok(t, t2, e, phase, -1),
        ready(t, y, e, phase),
    ensures
        ready(t2, y, e, phase),
    decreases e.difference(t[y].elements).len(),
{
    assert(t2[y].elements == t[y].elements);
    assert(node_ok(t2, y));
    assert(local_ok(t, y, e, phase));
    assert(local_ok(t2, y, e, phase));
    assert forall|j: Symbol|
        #![trigger t2[y].real.dom().contains(j)]
        e.contains(j) && t2[y].real.dom().contains(j) implies {
        let c = t2[y].real[j] as int;
        &&& 0 <= c < t2.len()
        &&& e.difference(t2[c].elements).len() < e.difference(t2[y].elements).len()
        &&& ready(t2, c, e, phase)
    } by {
        let c = t2[y].real[j] as int;
        assert(edge_ok(t2, y, c, j));
        if t[y].real.dom().contains(j) && t[y].real[j] == t2[y].real[j] {
            assert(ready(t, c, e, phase));
            assert(t2[c].elements == t[c].elements);
            lemma_ready_step(t, t2, e, phase, c);
        } else {
            assert(ready(t2, c, e, phase));
            lemma_less_left(e, t2[y].elements, t2[c].elements, j);
        }
    }
}

/// A step that keeps the phase, followed by one that keeps it at every
/// node, keeps the phase.
pub proof fn lemma_step_trans(
    t: Seq<MopView>,
    t2: Seq<MopView>,
    t3: Seq<MopView>,
    e: Set<Symbol>,
    phase: int,
    except: int,
)
    requires
        well_formed(t3),
        e.finite(),
        phase >= 1,
        step_ok(t, t2, e, phase, except),
        step_ok(t2, t3, e, phase, -1),
    ensures
        step_ok(t, t3, e, phase, except),
{
    assert forall|x: int| 0 <= x < t.len() implies (#[trigger] t3[x]).elements == t[x].elements by {
        assert(t2[x].elements == t[x].elements);
    }
    assert forall|x: int, q: int|
        0 <= x < t.len() && 1 <= q <= phase && #[trigger] local_ok(t, x, e, q) implies local_ok(
        t3,
        x,
        e,
        q,
    ) by {
        assert(local_ok(t2, x, e, q));
    }
    assert forall|x: int, j: Symbol|
        0 <= x < t.len() && x != except && e.contains(j) && #[trigger] t3[x].real.dom().contains(
            j,
        ) implies {
        ||| (t[x].real.dom().contains(j) && t[x].real[j] == t3[x].real[j])
        ||| ready(t3, t3[x].real[j] as int, e, phase)
    } by {
        if t2[x].real.dom().contains(j) && t2[x].real[j] == t3[x].real[j] {
            if !(t[x].real.dom().contains(j) && t[x].real[j] == t2[x].real[j]) {
                assert(ready(t2, t2[x].real[j] as int, e, phase));
                lemma_ready_step(t2, t3, e, phase, t2[x].real[j] as int);
            }
        }
    }
}

/// A step of taking the excerpt `e` in, through the given phase: the tree
/// grows, stays connected if it was, keeps to one real parent for each
/// node if it did, keeps the phase, and stays organised for whatever set
/// it was organised for; each node it gains stems from `e` and the nodes
/// it had.
pub open spec fn advances(t: Seq<MopView>, t2: Seq<MopView>, e: Set<Symbol>, phase: int) -> bool {
    &&& grows(t, t2)
    &&& connected(t) ==> connected(t2)
    &&& unique_parent(t) ==> unique_parent(t2)
    &&& step_ok(t, t2, e, phase, -1)
    &&& keeps_order(t, t2)
    &&& newcomers(t, t2, e)
}

/// Advancing is transitive.
pub proof fn lemma_advances_trans(
    t: Seq<MopView>,
    t2: Seq<MopView>,
    t3: Seq<MopView>,
    e: Set<Symbol>,
    phase: int,
)
    requires
        well_formed(t3),
        e.finite(),
        phase >= 1,
        advances(t, t2, e, phase),
        advances(t2, t3, e, phase),
    ensures
        advances(t, t3, e, phase),
{
    lemma_grows_trans(t, t2, t3);
    lemma_step_trans(t, t2, t3, e, phase, -1);
    lemma_newcomers_trans(t, t2, t3, e);
}

/// An advance through a phase is an advance through every earlier phase.
pub proof fn lemma_advances_earlier(
    t: Seq<MopView>,
    t2: Seq<MopView>,
    e: Set<Symbol>,
    phase: int,
    earlier: int,
)
    requires
        advances(t, t2, e, phase),
        1 <= earlier <= phase,
    ensures
        advances(t, t2, e, earlier),
{
    assert forall|x: int, j: Symbol|
        0 <= x < t.len() && e.contains(j) && #[trigger] t2[x].real.dom().contains(j) implies {
        ||| (t[x].real.dom().contains(j) && t[x].real[j] == t2[x].real[j])
        ||| ready(t2, t2[x].real[j] as int, e, earlier)
    } by {
        if !(t[x].real.dom().contains(j) && t[x].real[j] == t2[x].real[j]) {
            lemma_ready_earlier(t2, t2[x].real[j] as int, e, phase, earlier);
        }
    }
}

/// What is ready at a node is ready at every compatible node reached from it.
pub proof fn lemma_ready_reached(
    t: Seq<MopView>,
    n: int,
    x: int,
    e: Set<Symbol>,
    phase: int,
)
    requires
        well_formed(t),
        ready(t, n, e, phase),
        reached(t, n, x),
        0 <= x < t.len(),
        t[x].elements.subset_of(e),
    ensures
        ready(t, x, e, phase),
    decreases room(t, n),
{
    if x != n {
        let j = choose|j: Symbol|
            #![trigger t[n].real.dom().contains(j)]
            {
                &&& t[n].real.dom().contains(j)
                &&& child_below(t, n, j)
                &&& reached(t, t[n].real[j] as int, x)
            };
        let c = t[n].real[j] as int;
        assert(node_ok(t, n));
        assert(edge_ok(t, n, c, j));
        lemma_reached_within(t, c, x);
        assert(e.contains(j));
        lemma_ready_reached(t, c, x, e, phase);
    }
}

/// From `t` to `t2` the sets stay, what held at a node alone through the
/// phases up to `phase` still holds there, and no node but `n` has had its
/// real edges changed.
pub open spec fn quiet_but(t: Seq<MopView>, t2: Seq<MopView>, e: Set<Symbol>, phase: int, n: int) -> bool {
    &&& t.len() <= t2.len()
    &&& forall|x: int| 0 <= x < t.len() ==> (#[trigger] t2[x]).elements == t[x].elements
    &&& forall|x: int, q: int|
        0 <= x < t.len() && 1 <= q <= phase && #[trigger] local_ok(t, x, e, q) ==> local_ok(
            t2,
            x,
            e,
            q,
        )
    &&& forall|x: int| 0 <= x < t.len() && x != n ==> (#[trigger] t2[x]).real == t[x].real
}

/// Being quiet but at `n` is transitive.
pub proof fn lemma_quiet_trans(
    t: Seq<MopView>,
    t2: Seq<MopView>,
    t3: Seq<MopView>,
    e: Set<Symbol>,
    phase: int,
    n: int,
)
    requires
        quiet_but(t, t2, e, phase, n),
        quiet_but(t2, t3, e, phase, n),
    ensures
        quiet_but(t, t3, e, phase, n),
{
    assert forall|x: int| 0 <= x < t.len() implies (#[trigger] t3[x]).elements == t[x].elements by {
        assert(t2[x].elements == t[x].elements);
    }
    assert forall|x: int, q: int|
        0 <= x < t.len() && 1 <= q <= phase && #[trigger] local_ok(t, x, e, q) implies local_ok(
        t3,
        x,
        e,
        q,
    ) by {
        assert(local_ok(t2, x, e, q));
    }
    assert forall|x: int| 0 <= x < t.len() && x != n implies (#[trigger] t3[x]).real == t[x].real by {
        assert(t2[x].real == t[x].real);
    }
}

/// A change that is quiet but at `n` keeps the phase at every node but `n`.
pub proof fn lemma_quiet_step(t: Seq<MopView>, t2: Seq<MopView>, e: Set<Symbol>, phase: int, n: int)
    requires
        quiet_but(t, t2, e, phase, n),
    ensures
        step_ok(t, t2, e, phase, n),
{
    assert forall|x: int, j: Symbol|
        0 <= x < t.len() && x != n && e.contains(j) && #[trigger] t2[x].real.dom().contains(j) implies {
        ||| (t[x].real.dom().contains(j) && t[x].real[j] == t2[x].real[j])
        ||| ready(t2, t2[x].real[j] as int, e, phase)
    } by {
        assert(t2[x].real == t[x].real);
    }
}

/// From `t` to `t2` only targets of virtual edges have changed, and each
/// new target is one of `targets` and has the key of the edge in its set.
pub open spec fn relinked_to(t: Seq<MopView>, t2: Seq<MopView>, targets: Set<usize>) -> bool {
    &&& relinked(t, t2)
    &&& forall|x: int, k: Symbol|
        0 <= x < t.len() && #[trigger] t2[x].virt.dom().contains(k) ==> t2[x].virt[k] == t[x].virt[k]
            || (targets.contains(t2[x].virt[k]) && t[t2[x].virt[k] as int].elements.contains(k))
}

/// Relinking twice is relinking to the targets of either.
pub proof fn lemma_relinked_to_trans(
    t: Seq<MopView>,
    t2: Seq<MopView>,
    t3: Seq<MopView>,
    a: Set<usize>,
    b: Set<usize>,
)
    requires
        relinked_to(t, t2, a),
        relinked_to(t2, t3, b),
        well_formed(t3),
    ensures
        relinked_to(t, t3, a.union(b)),
{
    assert forall|x: int| #![trigger t3[x]] 0 <= x < t.len() implies {
        &&& t3[x] == (MopView { virt: t3[x].virt, ..t[x] })
        &&& t3[x].virt.dom() == t[x].virt.dom()
    } by {
        let m = t2[x];
    }
    assert forall|x: int, k: Symbol|
        0 <= x < t.len() && #[trigger] t3[x].virt.dom().contains(k) implies t3[x].virt[k] == t[x].virt[k]
        || (a.union(b).contains(t3[x].virt[k]) && t[t3[x].virt[k] as int].elements.contains(k)) by {
        let m = t2[x];
        assert(t2[x].virt.dom().contains(k));
        if t3[x].virt[k] != t2[x].virt[k] {
            assert(node_ok(t3, x));
            assert(edge_ok(t3, x, t3[x].virt[k] as int, k));
            let c = t2[t3[x].virt[k] as int];
        }
    }
}

/// Relinking to compatible targets is an advance through the first two
/// phases, and it is quiet at every node.
pub proof fn lemma_relinked_advances(
    t: Seq<MopView>,
    t2: Seq<MopView>,
    e: Set<Symbol>,
    phase: int,
    targets: Set<usize>,
)
    requires
        well_formed(t),
        well_formed(t2),
        relinked_to(t, t2, targets),
        relinked_down(t, t2),
        e.finite(),
        1 <= phase <= 2,
        phase >= 2 ==> forall|m: usize|
            targets.contains(m) ==> m < t.len() && t[m as int].elements.subset_of(e),
    ensures
        advances(t, t2, e, phase),
        forall|n: int| quiet_but(t, t2, e, phase, n),
{
    lemma_relinked_keeps_order(t, t2);
    assert forall|x: int| 0 <= x < t.len() implies (#[trigger] t2[x]).elements == t[x].elements by {}
    assert forall|x: int| #![trigger t2[x]] 0 <= x < t.len() implies {
        &&& t2[x].elements == t[x].elements
        &&& t[x].real.dom().subset_of(t2[x].real.dom())
        &&& t[x].virt.dom().subset_of(t2[x].virt.dom().union(t2[x].real.dom()))
        &&& t[x].trace <= t2[x].trace
        &&& t[x].epitome <= t2[x].epitome
        &&& t[x].undif <= t2[x].undif
    } by {}
    assert(real_edges_kept(t, t2)) by {
        assert forall|x: int| #![trigger t2[x]] 0 <= x < t.len() implies {
            &&& t2[x].elements == t[x].elements
            &&& forall|j: Symbol| #[trigger]
                t[x].real.dom().contains(j) ==> t2[x].real.dom().contains(j) && t2[x].real[j]
                    == t[x].real[j]
        } by {}
    }
    if connected(t) {
        lemma_connected_kept(t, t2);
    }
    if unique_parent(t) {
        assert forall|a: int, j: Symbol, b: int, k: Symbol|
            0 <= a < t2.len() && 0 <= b < t2.len() && #[trigger] t2[a].real.dom().contains(j)
                && #[trigger] t2[b].real.dom().contains(k) && t2[a].real[j] == t2[b].real[k] implies a
            == b by {
            let u = t2[a];
            let v = t2[b];
            assert(t[a].real.dom().contains(j) && t[b].real.dom().contains(k));
        }
    }
    assert forall|x: int, q: int|
        0 <= x < t.len() && 1 <= q <= phase && #[trigger] local_ok(t, x, e, q) implies local_ok(
        t2,
        x,
        e,
        q,
    ) by {
        let a = t2[x];
        if q >= 2 {
            assert forall|j: Symbol|
                e.contains(j) && #[trigger] t2[x].virt.dom().contains(j) implies t2[t2[x].virt[j] as int].elements.subset_of(
                e,
            ) by {
                assert(t[x].virt.dom().contains(j));
                if t2[x].virt[j] == t[x].virt[j] {
                    assert(node_ok(t2, x));
                    assert(edge_ok(t2, x, t2[x].virt[j] as int, j));
                    let c = t2[t2[x].virt[j] as int];
                } else {
                    assert(targets.contains(t2[x].virt[j]));
                    let c = t2[t2[x].virt[j] as int];
                }
            }
        }
    }
    assert forall|x: int, j: Symbol|
        0 <= x < t.len() && e.contains(j) && #[trigger] t2[x].real.dom().contains(j) implies {
        ||| (t[x].real.dom().contains(j) && t[x].real[j] == t2[x].real[j])
        ||| ready(t2, t2[x].real[j] as int, e, phase)
    } by {
        let a = t2[x];
    }
    assert forall|n: int| quiet_but(t, t2, e, phase, n) by {
        assert forall|x: int| 0 <= x < t.len() && x != n implies (#[trigger] t2[x]).real == t[x].real by {}
    }
}

/// A change of node `n`, with or without one new node that `n` gets as a
/// real child, is an advance through the phase if it keeps the set and the
/// real edges of `n`, loses no key, lowers no strength, keeps what held at
/// `n` alone, and adds real edges under keys of `e` only to parts that are
/// through the phase.
pub proof fn lemma_update_advances(t: Seq<MopView>, t2: Seq<MopView>, n: int, e: Set<Symbol>, phase: int)
    requires
        well_formed(t),
        well_formed(t2),
        0 <= n < t.len(),
        e.finite(),
        1 <= phase <= 3,
        t2.len() == t.len() || (t2.len() == t.len() + 1 && exists|k: Symbol|
            #[trigger] t2[n].real.dom().contains(k) && t2[n].real[k] == t.len()),
        forall|x: int| 0 <= x < t.len() && x != n ==> #[trigger] t2[x] == t[x],
        t2[n].elements == t[n].elements,
        forall|j: Symbol| #[trigger]
            t[n].real.dom().contains(j) ==> t2[n].real.dom().contains(j) && t2[n].real[j]
                == t[n].real[j],
        t[n].virt.dom().subset_of(t2[n].virt.dom().union(t2[n].real.dom())),
        t[n].trace <= t2[n].trace,
        t[n].epitome <= t2[n].epitome,
        t[n].undif <= t2[n].undif,
        forall|q: int| 1 <= q <= phase && #[trigger] local_ok(t, n, e, q) ==> local_ok(t2, n, e, q),
        forall|j: Symbol|
            e.contains(j) && #[trigger] t2[n].real.dom().contains(j) ==> {
                ||| t[n].real.dom().contains(j)
                ||| ready(t2, t2[n].real[j] as int, e, phase)
            },
        keeps_order(t, t2),
        newcomers(t, t2, e),
        forall|j: Symbol| #[trigger]
            t2[n].real.dom().contains(j) ==> t[n].real.dom().contains(j) || t2[n].real[j] == t.len(),
        t2.len() > t.len() ==> t2[t.len() as int].real == Map::<Symbol, usize>::empty(),
    ensures
        advances(t, t2, e, phase),
{
    if unique_parent(t) {
        assert forall|a: int, j: Symbol, b: int, k: Symbol|
            0 <= a < t2.len() && 0 <= b < t2.len() && #[trigger] t2[a].real.dom().contains(j)
                && #[trigger] t2[b].real.dom().contains(k) && t2[a].real[j] == t2[b].real[k] implies a
            == b by {
            assert(a < t.len() && b < t.len());
            assert(node_ok(t, a));
            assert(node_ok(t, b));
            if a != n {
                assert(t2[a] == t[a]);
                assert(edge_ok(t, a, t[a].real[j] as int, j));
            }
            if b != n {
                assert(t2[b] == t[b]);
                assert(edge_ok(t, b, t[b].real[k] as int, k));
            }
            if a == n && t[n].real.dom().contains(j) {
                assert(edge_ok(t, n, t[n].real[j] as int, j));
            }
            if b == n && t[n].real.dom().contains(k) {
                assert(edge_ok(t, n, t[n].real[k] as int, k));
            }
        }
    }
    assert forall|x: int| 0 <= x < t.len() implies (#[trigger] t2[x]).elements == t[x].elements by {}
    assert forall|x: int| #![trigger t2[x]] 0 <= x < t.len() implies {
        &&& t2[x].elements == t[x].elements
        &&& t[x].real.dom().subset_of(t2[x].real.dom())
        &&& t[x].virt.dom().subset_of(t2[x].virt.dom().union(t2[x].real.dom()))
        &&& t[x].trace <= t2[x].trace
        &&& t[x].epitome <= t2[x].epitome
        &&& t[x].undif <= t2[x].undif
    } by {}
    assert(real_edges_kept(t, t2)) by {
        assert forall|x: int| #![trigger t2[x]] 0 <= x < t.len() implies {
            &&& t2[x].elements == t[x].elements
            &&& forall|j: Symbol| #[trigger]
                t[x].real.dom().contains(j) ==> t2[x].real.dom().contains(j) && t2[x].real[j]
                    == t[x].real[j]
        } by {}
    }
    if connected(t) {
        assert forall|x: int| 0 <= x < t2.len() implies #[trigger] reached(t2, 0, x) by {
            if x < t.len() {
                assert(reached(t, 0, x));
                lemma_reached_kept(t, t2, 0, x);
            } else {
                let k = choose|k: Symbol|
                    #[trigger] t2[n].real.dom().contains(k) && t2[n].real[k] == t.len();
                assert(reached(t, 0, n));
                lemma_reached_kept(t, t2, 0, n);
                lemma_reached_edge(t2, n, k);
                lemma_reached_trans(t2, 0, n, x);
            }
        }
    }
    assert forall|x: int, q: int|
        0 <= x < t.len() && 1 <= q <= phase && #[trigger] local_ok(t, x, e, q) implies local_ok(
        t2,
        x,
        e,
        q,
    ) by {
        if x != n {
            lemma_local_elsewhere(t, t2, e, q, x, n);
        }
    }
    assert forall|x: int, j: Symbol|
        0 <= x < t.len() && e.contains(j) && #[trigger] t2[x].real.dom().contains(j) implies {
        ||| (t[x].real.dom().contains(j) && t[x].real[j] == t2[x].real[j])
        ||| ready(t2, t2[x].real[j] as int, e, phase)
    } by {}
}

/// What holds at a node alone depends on the node and on the sets of its
/// virtual children only: it still holds where these are the same.
pub proof fn lemma_local_elsewhere(
    t: Seq<MopView>,
    t2: Seq<MopView>,
    e: Set<Symbol>,
    q: int,
    x: int,
    n: int,
)
    requires
        0 <= x < t.len() <= t2.len(),
        t2[x] == t[x],
        forall|y: int| 0 <= y < t.len() ==> (#[trigger] t2[y]).elements == t[y].elements,
        well_formed(t),
        well_formed(t2),
        local_ok(t, x, e, q),
    ensures
        local_ok(t2, x, e, q),
{
    assert(node_ok(t, x));
    if q >= 2 {
        assert forall|j: Symbol|
            e.contains(j) && #[trigger] t2[x].virt.dom().contains(j) implies t2[t2[x].virt[j] as int].elements.subset_of(
            e,
        ) by {
            assert(edge_ok(t, x, t[x].virt[j] as int, j));
            assert(t2[t2[x].virt[j] as int].elements == t[t[x].virt[j] as int].elements);
        }
    }
    if q >= 3 {
        if t[x].elements != e {
            assert forall|j: Symbol| e.contains(j) && !t2[x].elements.contains(j) implies #[trigger] child(
                t2,
                x,
                j,
            ) is Some by {
                assert(child(t, x, j) is Some);
            }
        }
    }
}

/// Where an abstraction of `p` has been wedged in at node `n` in place of
/// real edges, what was reached stays reached.
pub proof fn lemma_reached_wedged(
    t: Seq<MopView>,
    n: int,
    p: usize,
    e: Set<Symbol>,
    as_real: bool,
    keys: Set<Symbol>,
    a: int,
    x: int,
)
    requires
        well_formed(t),
        well_formed(wedged(t, n, p, e, as_real, keys, false)),
        0 <= n < t.len(),
        p < t.len(),
        t.len() <= usize::MAX,
        keys.subset_of(real_indices(t, n, p)),
        as_real ==> !t[p as int].elements.subset_of(e),
        !as_real ==> exists|k: Symbol| real_indices(t, n, p).contains(k) && !keys.contains(k),
        0 <= a < t.len(),
        reached(t, a, x),
    ensures
        reached(wedged(t, n, p, e, as_real, keys, false), a, x),
    decreases room(t, a),
{
    let t2 = wedged(t, n, p, e, as_real, keys, false);
    let m = t.len() as int;
    if x != a {
        let j = choose|j: Symbol|
            #![trigger t[a].real.dom().contains(j)]
            {
                &&& t[a].real.dom().contains(j)
                &&& child_below(t, a, j)
                &&& reached(t, t[a].real[j] as int, x)
            };
        let c = t[a].real[j] as int;
        lemma_reached_wedged(t, n, p, e, as_real, keys, c, x);
        if a == n && keys.contains(j) {
            assert(c == p);
            assert(t2[n].real.dom().contains(j));
            assert(t2[n].real[j] == m);
            if as_real {
                let k = choose|k: Symbol| t[p as int].elements.contains(k) && !e.contains(k);
                assert(t2[m] == abstraction(t, p, e, true));
                assert(t2[m].real.dom().contains(k));
                assert(t2[m].real[k] == p);
                lemma_reached_edge(t2, n, j);
                lemma_reached_edge(t2, m, k);
                lemma_reached_trans(t2, n, m, p as int);
            } else {
                let k = choose|k: Symbol| real_indices(t, n, p).contains(k) && !keys.contains(k);
                assert(t2[n].real.dom().contains(k));
                assert(t2[n].real[k] == p);
                lemma_reached_edge(t2, n, k);
            }
            lemma_reached_trans(t2, n, p as int, x);
        } else {
            assert(t2[a].real.dom().contains(j));
            assert(t2[a].real[j] == t[a].real[j]);
            lemma_reached_edge(t2, a, j);
            lemma_reached_trans(t2, a, c, x);
        }
    }
}

/// Where a real edge of the tree with an abstraction wedged in leads: to
/// the new node, from `n`; to `p`, from the new node; or where an edge of
/// the same node led before.
pub proof fn lemma_wedge_parent(
    t: Seq<MopView>,
    n: int,
    p: usize,
    e: Set<Symbol>,
    as_real: bool,
    keys: Set<Symbol>,
    promote: bool,
    a: int,
    j: Symbol,
)
    requires
        well_formed(t),
        0 <= n < t.len(),
        p < t.len(),
        t.len() <= usize::MAX,
        0 <= a <= t.len(),
        wedged(t, n, p, e, as_real, keys, promote)[a].real.dom().contains(j),
    ensures
        ({
            let t2 = wedged(t, n, p, e, as_real, keys, promote);
            let c = t2[a].real[j];
            if a == t.len() {
                c == p && as_real
            } else if c == t.len() {
                a == n && keys.contains(j)
            } else {
                c < t.len() && exists|w: Symbol| t[a].real.dom().contains(w) && t[a].real[w] == c
            }
        }),
{
    let t2 = wedged(t, n, p, e, as_real, keys, promote);
    assert(t2[t.len() as int] == abstraction(t, p, e, as_real));
    if a < t.len() {
        assert(node_ok(t, a));
        if !(a == n && keys.contains(j)) {
            assert(t[a].real.dom().contains(j) && t[a].real[j] == t2[a].real[j]);
            assert(edge_ok(t, a, t[a].real[j] as int, j));
        }
    }
}

/// What wedging an abstraction in at node `n` keeps: it is an advance
/// through the first phase, the new node is through the first phase, no
/// strength changes, and only `n` and the new node are touched. Where the
/// new node takes over virtual keys, the change is quiet through the second
/// phase at every node but `n`.
pub proof fn lemma_wedge_advances(
    t: Seq<MopView>,
    n: int,
    p: usize,
    e: Set<Symbol>,
    as_real: bool,
    keys: Set<Symbol>,
    promote: bool,
    j: Symbol,
)
    requires
        well_formed(t),
        well_formed(wedged(t, n, p, e, as_real, keys, promote)),
        0 <= n < t.len(),
        p < t.len(),
        t.len() <= usize::MAX,
        e.finite(),
        t[n].elements.subset_of(e),
        keys.subset_of(e),
        keys.contains(j),
        promote ==> !as_real && keys.subset_of(virt_indices(t, n, p)),
        !promote ==> keys.subset_of(real_indices(t, n, p)),
        !promote && as_real ==> !t[p as int].elements.subset_of(e) && keys == real_indices(t, n, p),
        !promote && !as_real ==> exists|k: Symbol|
            real_indices(t, n, p).contains(k) && !keys.contains(k),
    ensures
        advances(t, wedged(t, n, p, e, as_real, keys, promote), e, 1),
        promote ==> quiet_but(t, wedged(t, n, p, e, as_real, keys, promote), e, 2, n),
        real_kept_outside(t, wedged(t, n, p, e, as_real, keys, promote), n),
        ready(wedged(t, n, p, e, as_real, keys, promote), t.len() as int, e, 1),
        forall|x: int|
            0 <= x < t.len() && x != n ==> #[trigger] wedged(t, n, p, e, as_real, keys, promote)[x]
                == t[x],
        strengths_kept(t, wedged(t, n, p, e, as_real, keys, promote)),
{
    let t2 = wedged(t, n, p, e, as_real, keys, promote);
    let m = t.len() as int;
    lemma_abstraction_ok(t, p, e, as_real);
    lemma_wedge_keeps_order(t, n, p, e, as_real, keys, promote, j);
    assert(t2[m] == abstraction(t, p, e, as_real));
    assert(node_ok(t, n));
    if unique_parent(t) {
        lemma_real_indices(t, n, p);
        assert forall|a: int, j1: Symbol, b: int, k: Symbol|
            0 <= a < t2.len() && 0 <= b < t2.len() && #[trigger] t2[a].real.dom().contains(j1)
                && #[trigger] t2[b].real.dom().contains(k) && t2[a].real[j1] == t2[b].real[k] implies a
            == b by {
            lemma_wedge_parent(t, n, p, e, as_real, keys, promote, a, j1);
            lemma_wedge_parent(t, n, p, e, as_real, keys, promote, b, k);
            let c = t2[a].real[j1];
            if c != m && a != b {
                if a == m {
                    assert(c == p);
                    assert(t[n].real.dom().contains(j));
                    let w = choose|w: Symbol| t[b].real.dom().contains(w) && t[b].real[w] == p;
                    assert(b == n);
                    assert(real_indices(t, n, p).contains(k));
                } else if b == m {
                    assert(c == p);
                    assert(t[n].real.dom().contains(j));
                    let w = choose|w: Symbol| t[a].real.dom().contains(w) && t[a].real[w] == p;
                    assert(a == n);
                    assert(real_indices(t, n, p).contains(j1));
                } else {
                    let w1 = choose|w: Symbol| t[a].real.dom().contains(w) && t[a].real[w] == c;
                    let w2 = choose|w: Symbol| t[b].real.dom().contains(w) && t[b].real[w] == c;
                }
            }
        }
    }
    assert(ready(t2, m, e, 1)) by {
        assert forall|k: Symbol| e.contains(k) implies !#[trigger] t2[m].real.dom().contains(k) by {}
    }
    assert forall|x: int| 0 <= x < t.len() implies (#[trigger] t2[x]).elements == t[x].elements by {}
    assert forall|x: int| #![trigger t2[x]] 0 <= x < t.len() implies {
        &&& t2[x].elements == t[x].elements
        &&& t[x].real.dom().subset_of(t2[x].real.dom())
        &&& t[x].virt.dom().subset_of(t2[x].virt.dom().union(t2[x].real.dom()))
        &&& t[x].trace <= t2[x].trace
        &&& t[x].epitome <= t2[x].epitome
        &&& t[x].undif <= t2[x].undif
    } by {}
    assert forall|x: int, q: int|
        0 <= x < t.len() && 1 <= q <= 1 && #[trigger] local_ok(t, x, e, q) implies local_ok(
        t2,
        x,
        e,
        q,
    ) by {}
    assert forall|x: int, k: Symbol|
        0 <= x < t.len() && e.contains(k) && #[trigger] t2[x].real.dom().contains(k) implies {
        ||| (t[x].real.dom().contains(k) && t[x].real[k] == t2[x].real[k])
        ||| ready(t2, t2[x].real[k] as int, e, 1)
    } by {
        if x == n && keys.contains(k) {
            assert(t2[x].real[k] == m);
        }
    }
    if connected(t) {
        assert forall|x: int| 0 <= x < t2.len() implies #[trigger] reached(t2, 0, x) by {
            if promote {
                assert(real_edges_kept(t, t2)) by {
                    assert forall|y: int| #![trigger t2[y]] 0 <= y < t.len() implies {
                        &&& t2[y].elements == t[y].elements
                        &&& forall|k: Symbol| #[trigger]
                            t[y].real.dom().contains(k) ==> t2[y].real.dom().contains(k)
                                && t2[y].real[k] == t[y].real[k]
                    } by {}
                }
            }
            if x < t.len() {
                assert(reached(t, 0, x));
                if promote {
                    lemma_reached_kept(t, t2, 0, x);
                } else {
                    lemma_reached_wedged(t, n, p, e, as_real, keys, 0, x);
                }
            } else {
                assert(reached(t, 0, n));
                if promote {
                    lemma_reached_kept(t, t2, 0, n);
                } else {
                    lemma_reached_wedged(t, n, p, e, as_real, keys, 0, n);
                }
                assert(t2[n].real.dom().contains(j));
                assert(t2[n].real[j] == m);
                lemma_reached_edge(t2, n, j);
                lemma_reached_trans(t2, 0, n, x);
            }
        }
    }
    if promote {
        assert forall|x: int, q: int|
            0 <= x < t.len() && 1 <= q <= 2 && #[trigger] local_ok(t, x, e, q) implies local_ok(
            t2,
            x,
            e,
            q,
        ) by {
            if x != n {
                lemma_local_elsewhere(t, t2, e, q, x, n);
            } else if q >= 2 {
                assert forall|k: Symbol|
                    e.contains(k) && #[trigger] t2[x].virt.dom().contains(k) implies t2[t2[x].virt[k] as int].elements.subset_of(
                    e,
                ) by {
                    assert(t[x].virt.dom().contains(k));
                    assert(edge_ok(t, x, t[x].virt[k] as int, k));
                    assert(t2[t2[x].virt[k] as int].elements == t[t[x].virt[k] as int].elements);
                }
            }
        }
        assert forall|x: int| 0 <= x < t.len() && x != n implies (#[trigger] t2[x]).real == t[x].real by {}
    }
}

/// Once the tree is through the third phase for `e`, the descent from a
/// compatible node for what it lacks of `e` ends in a trace whose set is `e`.
pub proof fn lemma_descent_finds(t: Seq<MopView>, e: Set<Symbol>, n: int)
    requires
        well_formed(t),
        connected(t),
        e.finite(),
        ready(t, 0, e, 3),
        0 <= n < t.len(),
        t[n].elements.subset_of(e),
    ensures
        descent(t, n, e.difference(t[n].elements)) is Some,
        0 <= descent(t, n, e.difference(t[n].elements)).unwrap() < t.len(),
        t[descent(t, n, e.difference(t[n].elements)).unwrap()].elements == e,
        t[descent(t, n, e.difference(t[n].elements)).unwrap()].trace > 0,
    decreases e.difference(t[n].elements).len(),
{
    assert(reached(t, 0, n));
    lemma_ready_reached(t, 0, n, e, 3);
    let rest = e.difference(t[n].elements);
    if rest.is_empty() {
        assert(t[n].elements =~= e);
    } else {
        let x0 = choose|x0: Symbol| rest.contains(x0);
        lemma_has_least(rest, x0);
        let j = least(rest);
        assert(is_least(rest, j));
        assert(t[n].elements != e);
        assert(child(t, n, j) is Some);
        let c = child(t, n, j).unwrap() as int;
        lemma_child_edge(t, n, j);
        assert(node_ok(t, n));
        if t[n].real.dom().contains(j) {
            assert(ready(t, c, e, 3));
        } else {
            assert(t[n].virt.dom().contains(j));
            assert(local_ok(t, n, e, 2));
        }
        assert(t[c].elements.subset_of(e));
        lemma_less_left(e, t[n].elements, t[c].elements, j);
        assert(rest.difference(t[c].elements) =~= e.difference(t[c].elements));
        lemma_descent_finds(t, e, c);
    }
}

/// The second nodes of the pairs.
pub open spec fn seconds(pairs: Seq<(usize, usize)>) -> Set<usize> {
    Set::new(|m: usize| exists|i: int| 0 <= i < pairs.len() && (#[trigger] pairs[i]).1 == m)
}

/// Each pair names two nodes of the tree, the second of them compatible
/// with `e` and with its set within the set of the first.
pub open spec fn pairs_fit(pairs: Seq<(usize, usize)>, t: Seq<MopView>, e: Set<Symbol>) -> bool {
    forall|i: int|
        0 <= i < pairs.len() ==> {
            &&& (#[trigger] pairs[i]).0 < t.len()
            &&& pairs[i].1 < t.len()
            &&& t[pairs[i].1 as int].elements.subset_of(e)
            &&& t[pairs[i].1 as int].elements.subset_of(t[pairs[i].0 as int].elements)
        }
}

/// Pairs that fit a tree fit the tree it grows to.
pub proof fn lemma_pairs_fit_grown(
    pairs: Seq<(usize, usize)>,
    t: Seq<MopView>,
    t2: Seq<MopView>,
    e: Set<Symbol>,
)
    requires
        pairs_fit(pairs, t, e),
        grows(t, t2),
    ensures
        pairs_fit(pairs, t2, e),
{
    assert forall|i: int| 0 <= i < pairs.len() implies {
        &&& (#[trigger] pairs[i]).0 < t2.len()
        &&& pairs[i].1 < t2.len()
        &&& t2[pairs[i].1 as int].elements.subset_of(e)
        &&& t2[pairs[i].1 as int].elements.subset_of(t2[pairs[i].0 as int].elements)
    } by {
        let a = t2[pairs[i].1 as int];
        let b = t2[pairs[i].0 as int];
    }
}

/// From `t` to `t2` every node has kept its three strengths.
pub open spec fn strengths_kept(t: Seq<MopView>, t2: Seq<MopView>) -> bool {
    &&& t.len() <= t2.len()
    &&& forall|x: int|
        #![trigger t2[x]]
        0 <= x < t.len() ==> {
            &&& t2[x].trace == t[x].trace
            &&& t2[x].epitome == t[x].epitome
            &&& t2[x].undif == t[x].undif
        }
}

/// Keeping the strengths is transitive.
pub proof fn lemma_strengths_kept_trans(t: Seq<MopView>, t2: Seq<MopView>, t3: Seq<MopView>)
    requires
        strengths_kept(t, t2),
        strengths_kept(t2, t3),
    ensures
        strengths_kept(t, t3),
{
    assert forall|x: int| #![trigger t3[x]] 0 <= x < t.len() implies {
        &&& t3[x].trace == t[x].trace
        &&& t3[x].epitome == t[x].epitome
        &&& t3[x].undif == t[x].undif
    } by {
        let a = t2[x];
    }
}

/// A relinking keeps the strengths.
pub proof fn lemma_relinked_strengths(t: Seq<MopView>, t2: Seq<MopView>)
    requires
        relinked(t, t2),
    ensures
        strengths_kept(t, t2),
{
    assert forall|x: int| #![trigger t2[x]] 0 <= x < t.len() implies {
        &&& t2[x].trace == t[x].trace
        &&& t2[x].epitome == t[x].epitome
        &&& t2[x].undif == t[x].undif
    } by {}
}

/// From `t` to `t2` the nodes, their sets and their edges are the same:
/// at most strengths have changed.
pub open spec fn same_shape(t: Seq<MopView>, t2: Seq<MopView>) -> bool {
    &&& t2.len() == t.len()
    &&& forall|x: int|
        #![trigger t2[x]]
        0 <= x < t.len() ==> {
            &&& t2[x].elements == t[x].elements
            &&& t2[x].real == t[x].real
            &&& t2[x].virt == t[x].virt
        }
}

/// Keeping the shape is transitive.
pub proof fn lemma_same_shape_trans(t: Seq<MopView>, t2: Seq<MopView>, t3: Seq<MopView>)
    requires
        same_shape(t, t2),
        same_shape(t2, t3),
    ensures
        same_shape(t, t3),
{
    assert forall|x: int| #![trigger t3[x]] 0 <= x < t.len() implies {
        &&& t3[x].elements == t[x].elements
        &&& t3[x].real == t[x].real
        &&& t3[x].virt == t[x].virt
    } by {
        let a = t2[x];
    }
}

/// Outside the nodes whose set includes that of node `n`, the nodes of
/// `t2` are those of `t`.
pub open spec fn kept_outside(t: Seq<MopView>, t2: Seq<MopView>, n: int) -> bool {
    forall|x: int|
        #![trigger t2[x]]
        0 <= x < t.len() && !t[n].elements.subset_of(t[x].elements) ==> t2[x] == t[x]
}

/// The handle, if there is one, names a node whose set is `e` and whose
/// trace strength is above zero.
pub open spec fn names_trace(found: Option<usize>, t: Seq<MopView>, e: Set<Symbol>) -> bool {
    found matches Some(p) ==> p < t.len() && t[p as int].elements == e && t[p as int].trace > 0
}

/// The sequence is a tree that retains what it took in: every node is in
/// order, the root is the node of the empty set, every node is reached from
/// the root by real edges and is the real child of one node only, the tree
/// is organised for the set of each of its nodes, and no two nodes have
/// the same set.
pub open spec fn whole(t: Seq<MopView>) -> bool {
    &&& well_formed(t)
    &&& connected(t)
    &&& unique_parent(t)
    &&& retentive(t)
    &&& crate::identity::distinct(t)
}

/// What taking the excerpt `e` into the tree `t` leaves, in `t2`: a whole
/// tree that has grown out of `t`, is through all three phases for `e`,
/// and in which the complete match of `e` is a trace whose set is `e`. The
/// set of each node gained is `e`, or what the set of a node of `t` shares
/// with `e`. Every node that `e` reaches from the root has its set within
/// `e`. If `t` was through the three phases for `e` already, the shape is
/// that of `t`.
pub open spec fn included(t: Seq<MopView>, t2: Seq<MopView>, e: Set<Symbol>) -> bool {
    &&& whole(t2)
    &&& grows(t, t2)
    &&& newcomers(t, t2, e)
    &&& crate::model::compatible(t2, 0, e)
    &&& ready(t2, 0, e, 3)
    &&& complete_match_of(t2, e) matches Some(x) && 0 <= x < t2.len() && t2[x].elements == e
        && t2[x].trace > 0
    &&& ready(t, 0, e, 3) ==> same_shape(t, t2)
}

/// From `t` to `t2` every edge under a key outside `e` is kept: a real
/// edge as a real edge and a virtual edge as a virtual edge, each with
/// the child it led to.
pub open spec fn kept_beyond(t: Seq<MopView>, t2: Seq<MopView>, e: Set<Symbol>) -> bool {
    &&& t.len() <= t2.len()
    &&& forall|x: int, k: Symbol|
        0 <= x < t.len() && !e.contains(k) && #[trigger] t[x].real.dom().contains(k) ==> t2[x].real.dom().contains(k)
            && t2[x].real[k] == t[x].real[k]
    &&& forall|x: int, k: Symbol|
        0 <= x < t.len() && !e.contains(k) && #[trigger] t[x].virt.dom().contains(k) ==> t2[x].virt.dom().contains(k)
            && t2[x].virt[k] == t[x].virt[k]
}

/// Keeping the edges under keys outside `e` is transitive.
pub proof fn lemma_kept_beyond_trans(t: Seq<MopView>, t2: Seq<MopView>, t3: Seq<MopView>, e: Set<Symbol>)
    requires
        kept_beyond(t, t2, e),
        kept_beyond(t2, t3, e),
    ensures
        kept_beyond(t, t3, e),
{
    assert forall|x: int, k: Symbol|
        0 <= x < t.len() && !e.contains(k) && #[trigger] t[x].real.dom().contains(k) implies t3[x].real.dom().contains(k)
        && t3[x].real[k] == t[x].real[k] by {
        assert(t2[x].real.dom().contains(k));
    }
    assert forall|x: int, k: Symbol|
        0 <= x < t.len() && !e.contains(k) && #[trigger] t[x].virt.dom().contains(k) implies t3[x].virt.dom().contains(k)
        && t3[x].virt[k] == t[x].virt[k] by {
        assert(t2[x].virt.dom().contains(k));
    }
}

/// A new node put in under keys of `e` keeps the edges under keys outside `e`.
pub proof fn lemma_wedge_beyond(
    t: Seq<MopView>,
    n: int,
    p: usize,
    e: Set<Symbol>,
    as_real: bool,
    keys: Set<Symbol>,
    promote: bool,
)
    requires
        0 <= n < t.len(),
        keys.subset_of(e),
    ensures
        kept_beyond(t, wedged(t, n, p, e, as_real, keys, promote), e),
{
    let t2 = wedged(t, n, p, e, as_real, keys, promote);
    assert forall|x: int, k: Symbol|
        0 <= x < t.len() && !e.contains(k) && #[trigger] t[x].real.dom().contains(k) implies t2[x].real.dom().contains(k)
        && t2[x].real[k] == t[x].real[k] by {
        if x == n {
            assert(!keys.contains(k));
        }
    }
    assert forall|x: int, k: Symbol|
        0 <= x < t.len() && !e.contains(k) && #[trigger] t[x].virt.dom().contains(k) implies t2[x].virt.dom().contains(k)
        && t2[x].virt[k] == t[x].virt[k] by {
        if x == n {
            assert(!keys.contains(k));
        }
    }
}

/// What begins a sequence of pairs begins every sequence that this one begins.
pub proof fn lemma_prefix_trans(
    a: Seq<(usize, usize)>,
    b: Seq<(usize, usize)>,
    c: Seq<(usize, usize)>,
)
    requires
        a.is_prefix_of(b),
        b.is_prefix_of(c),
    ensures
        a.is_prefix_of(c),
{
    assert forall|i: int| 0 <= i < a.len() implies a[i] == c.subrange(0, a.len() as int)[i] by {
        assert(a[i] == b.subrange(0, a.len() as int)[i]);
        assert(b[i] == c.subrange(0, b.len() as int)[i]);
    }
    assert(a =~= c.subrange(0, a.len() as int));
}

/// A sequence of pairs begins itself, and begins what it becomes with one pair more.
pub proof fn lemma_prefix_push(a: Seq<(usize, usize)>, pair: (usize, usize))
    ensures
        a.is_prefix_of(a),
        a.is_prefix_of(a.push(pair)),
{
    assert(a =~= a.subrange(0, a.len() as int));
    assert(a =~= a.push(pair).subrange(0, a.len() as int));
}

} // verus!
