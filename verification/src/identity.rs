//! One node for each set: no two nodes of the tree have the same set.
//!
//! While an excerpt `e` is taken in, a node that is not compatible with `e`
//! may get a new node put before it, whose set is what the old node shares
//! with `e`. The pairs of such an old and its new node are what this
//! module reasons about: once a pair stands, no edge under a symbol of the
//! new node's set leads from a node within that set to the old node, so
//! the old node gets no second new node, and every new set is new.
use vstd::prelude::*;
use crate::model::{abstraction, child, edge_ok, lemma_child_edge, lemma_real_indices,
    lemma_virt_indices, node_ok, real_indices, relinked, virt_indices, wedged, well_formed};
use crate::mop::MopView;
use crate::ordered_set::Symbol;
use crate::readiness::{relinked_to, seconds, unique_parent};
use crate::retention::{keeps_order, organised, organised_at};

verus! {

/// No two nodes have the same set.
pub open spec fn distinct(t: Seq<MopView>) -> bool {
    forall|x: int, y: int|
        #![trigger t[x], t[y]]
        0 <= x < t.len() && 0 <= y < t.len() && x != y ==> t[x].elements != t[y].elements
}

/// Every real child, under a key of `e`, of a node within `e` has its set within `e`.
pub open spec fn real_settled(t: Seq<MopView>, e: Set<Symbol>) -> bool {
    forall|x: int, k: Symbol|
        0 <= x < t.len() && t[x].elements.subset_of(e) && e.contains(k)
            && #[trigger] t[x].real.dom().contains(k) ==> t[t[x].real[k] as int].elements.subset_of(e)
}

/// What holds of a pair of a replaced node and its new node, whatever else
/// happens: both are nodes, the old one is not compatible with `e`, the
/// set of the new one is what the old one shares with `e`, the new one
/// has no trace strength and for its other two strengths the
/// undifferentiated strength of the old one, and under each symbol that the
/// old one has beyond `e` the new one holds the old one as a child.
pub open spec fn pair_stands(t: Seq<MopView>, pair: (usize, usize), e: Set<Symbol>) -> bool {
    &&& pair.0 < t.len()
    &&& pair.1 < t.len()
    &&& !t[pair.0 as int].elements.subset_of(e)
    &&& t[pair.1 as int].elements == t[pair.0 as int].elements.intersect(e)
    &&& t[pair.1 as int].trace == 0
    &&& t[pair.1 as int].epitome == t[pair.0 as int].undif
    &&& t[pair.1 as int].undif == t[pair.0 as int].undif
    &&& forall|k: Symbol|
        t[pair.0 as int].elements.contains(k) && !e.contains(k) ==> #[trigger] child(
            t,
            pair.1 as int,
            k,
        ) == Some(pair.0)
}

/// No real edge under a symbol of the new node's set leads from a node
/// within that set to the old node of the pair.
pub open spec fn done_real(t: Seq<MopView>, pair: (usize, usize)) -> bool {
    forall|x: int, k: Symbol|
        0 <= x < t.len() && t[x].elements.subset_of(t[pair.1 as int].elements)
            && t[pair.1 as int].elements.contains(k) && #[trigger] t[x].real.dom().contains(k)
            ==> t[x].real[k] != pair.0
}

/// No virtual edge under a symbol of the new node's set leads from a node
/// within that set, other than `but`, to the old node of the pair.
pub open spec fn done_virt(t: Seq<MopView>, pair: (usize, usize), but: int) -> bool {
    forall|x: int, k: Symbol|
        0 <= x < t.len() && x != but && t[x].elements.subset_of(t[pair.1 as int].elements)
            && t[pair.1 as int].elements.contains(k) && #[trigger] t[x].virt.dom().contains(k)
            ==> t[x].virt[k] != pair.0
}

/// The pairs stand and are done with, at every node other than `but`; each
/// node other than `but` is the new node of a pair, or has a set for which
/// the tree is organised; and no two nodes have the same set.
pub open spec fn sorted_out(
    t: Seq<MopView>,
    pairs: Seq<(usize, usize)>,
    e: Set<Symbol>,
    but: int,
) -> bool {
    &&& forall|i: int|
        0 <= i < pairs.len() ==> {
            &&& pair_stands(t, #[trigger] pairs[i], e)
            &&& done_real(t, pairs[i])
            &&& done_virt(t, pairs[i], but)
        }
    &&& forall|z: int|
        0 <= z < t.len() && z != but ==> seconds(pairs).contains(z as usize) || organised(
            t,
            (#[trigger] t[z]).elements,
        )
    &&& distinct(t)
}

/// No edge under a symbol of the new node's set leads from a node within
/// that set to the old node of a pair that is done with.
pub proof fn lemma_done(t: Seq<MopView>, pair: (usize, usize), x: int, k: Symbol)
    requires
        done_real(t, pair),
        done_virt(t, pair, -1),
        0 <= x < t.len(),
        t[x].elements.subset_of(t[pair.1 as int].elements),
        t[pair.1 as int].elements.contains(k),
    ensures
        child(t, x, k) != Some(pair.0),
{
    if t[x].real.dom().contains(k) {
    } else if t[x].virt.dom().contains(k) {
    }
}

/// What a node that is not compatible with `e` shares with `e` is the set
/// of no node, if the node is a child, under a symbol of `e`, of a node
/// that is compatible with `e`.
pub proof fn lemma_fresh_set(
    t: Seq<MopView>,
    pairs: Seq<(usize, usize)>,
    e: Set<Symbol>,
    n: int,
    p: usize,
    j0: Symbol,
)
    requires
        well_formed(t),
        t.len() <= usize::MAX,
        sorted_out(t, pairs, e, -1),
        0 <= n < t.len(),
        child(t, n, j0) == Some(p),
        e.contains(j0),
        t[n].elements.subset_of(e),
        !t[p as int].elements.subset_of(e),
    ensures
        forall|z: int| 0 <= z < t.len() ==> (#[trigger] t[z]).elements != t[p as int].elements.intersect(e),
        !seconds(pairs).contains(p),
        organised(t, t[p as int].elements),
{
    lemma_child_edge(t, n, j0);
    let f = t[p as int].elements.intersect(e);
    assert(!seconds(pairs).contains(p)) by {
        if seconds(pairs).contains(p) {
            let i = choose|i: int| 0 <= i < pairs.len() && (#[trigger] pairs[i]).1 == p;
            assert(pair_stands(t, pairs[i], e));
        }
    }
    assert(organised(t, t[p as int].elements));
    assert forall|z: int| 0 <= z < t.len() implies (#[trigger] t[z]).elements != f by {
        if t[z].elements == f {
            assert(t[n].elements.subset_of(f));
            if organised(t, t[z].elements) {
                assert(organised_at(t, n, f));
                assert(f.contains(j0));
                assert(child(t, n, j0) is Some);
                assert(t[p as int].elements.subset_of(f));
            } else {
                assert(seconds(pairs).contains(z as usize));
                let i = choose|i: int| 0 <= i < pairs.len() && (#[trigger] pairs[i]).1 == z as usize;
                let q = pairs[i].0;
                assert(pair_stands(t, pairs[i], e));
                assert(pairs[i].1 as int == z);
                assert(t[z].elements == t[q as int].elements.intersect(e));
                assert(!seconds(pairs).contains(q)) by {
                    if seconds(pairs).contains(q) {
                        let w = choose|w: int| 0 <= w < pairs.len() && (#[trigger] pairs[w]).1 == q;
                        assert(pair_stands(t, pairs[w], e));
                    }
                }
                assert(organised(t, t[q as int].elements));
                assert(organised_at(t, n, t[q as int].elements));
                assert(f.contains(j0));
                assert(t[q as int].elements.contains(j0));
                assert(child(t, n, j0) is Some);
                assert(t[p as int].elements.subset_of(t[q as int].elements));
                let k = choose|k: Symbol| t[p as int].elements.contains(k) && !e.contains(k);
                assert(child(t, z, k) == Some(q));
                assert(organised_at(t, z, t[p as int].elements));
                assert(child(t, z, k) is Some);
                assert(t[q as int].elements.subset_of(t[p as int].elements));
                assert(t[q as int].elements =~= t[p as int].elements);
                assert(q == p);
                lemma_done(t, pairs[i], n, j0);
            }
        }
    }
}

/// What wedging an abstraction in at node `n` leaves sorted out: all but
/// the new node, and the virtual edges of the new node.
pub proof fn lemma_wedge_sorted(
    t: Seq<MopView>,
    pairs: Seq<(usize, usize)>,
    n: int,
    p: usize,
    e: Set<Symbol>,
    as_real: bool,
    keys: Set<Symbol>,
    promote: bool,
    j0: Symbol,
)
    requires
        well_formed(t),
        well_formed(wedged(t, n, p, e, as_real, keys, promote)),
        keeps_order(t, wedged(t, n, p, e, as_real, keys, promote)),
        sorted_out(t, pairs, e, -1),
        unique_parent(t),
        promote ==> real_settled(t, e),
        0 <= n < t.len(),
        p < t.len(),
        t.len() <= usize::MAX,
        t[n].elements.subset_of(e),
        !t[p as int].elements.subset_of(e),
        keys.subset_of(e),
        keys.contains(j0),
        promote ==> !as_real && keys == e.intersect(virt_indices(t, n, p)),
        !promote ==> keys.subset_of(real_indices(t, n, p)) && e.intersect(
            real_indices(t, n, p),
        ).subset_of(keys),
    ensures
        sorted_out(wedged(t, n, p, e, as_real, keys, promote), pairs, e, t.len() as int),
        pair_stands(wedged(t, n, p, e, as_real, keys, promote), (p, t.len() as usize), e),
        done_real(wedged(t, n, p, e, as_real, keys, promote), (p, t.len() as usize)),
        promote ==> real_settled(wedged(t, n, p, e, as_real, keys, promote), e),
{
    let t2 = wedged(t, n, p, e, as_real, keys, promote);
    let m = t.len() as int;
    assert(t2[m] == abstraction(t, p, e, as_real));
    assert(node_ok(t, n));
    assert(node_ok(t, p as int));
    lemma_real_indices(t, n, p);
    lemma_virt_indices(t, n, p);
    assert(child(t, n, j0) == Some(p));
    lemma_fresh_set(t, pairs, e, n, p, j0);
    assert forall|y: int| 0 <= y < t.len() implies (#[trigger] t2[y]).elements == t[y].elements by {}
    assert(distinct(t2)) by {
        assert forall|x: int, y: int|
            #![trigger t2[x], t2[y]]
            0 <= x < t2.len() && 0 <= y < t2.len() && x != y implies t2[x].elements != t2[y].elements by {
            if x < t.len() && y < t.len() {
                assert(t[x].elements != t[y].elements);
            } else if x < t.len() {
                assert(t[x].elements != t[p as int].elements.intersect(e));
            } else {
                assert(t[y].elements != t[p as int].elements.intersect(e));
            }
        }
    }
    let beyond = t[p as int].elements.difference(t[p as int].elements.intersect(e));
    assert forall|y: int, k: Symbol|
        #![trigger child(t2, y, k)]
        0 <= y < t.len() && !e.contains(k) implies child(t2, y, k) == child(t, y, k) by {}
    assert forall|i: int| 0 <= i < pairs.len() implies {
        &&& pair_stands(t2, #[trigger] pairs[i], e)
        &&& done_real(t2, pairs[i])
        &&& done_virt(t2, pairs[i], m)
    } by {
        let pair = pairs[i];
        assert(pair_stands(t, pair, e));
        assert(done_real(t, pair));
        assert(done_virt(t, pair, -1));
        assert(t2[pair.0 as int].elements == t[pair.0 as int].elements);
        assert(t2[pair.1 as int].elements == t[pair.1 as int].elements);
        assert forall|k: Symbol|
            t2[pair.0 as int].elements.contains(k) && !e.contains(k) implies #[trigger] child(
            t2,
            pair.1 as int,
            k,
        ) == Some(pair.0) by {
            assert(child(t, pair.1 as int, k) == Some(pair.0));
        }
        assert forall|x: int, k: Symbol|
            0 <= x < t2.len() && t2[x].elements.subset_of(t2[pair.1 as int].elements)
                && t2[pair.1 as int].elements.contains(k) && #[trigger] t2[x].real.dom().contains(
                k,
            ) implies t2[x].real[k] != pair.0 by {
            if x == m {
                assert(beyond.contains(k));
            } else if x == n && keys.contains(k) {
            } else {
                assert(t[x].real.dom().contains(k));
            }
        }
        assert forall|x: int, k: Symbol|
            0 <= x < t2.len() && x != m && t2[x].elements.subset_of(t2[pair.1 as int].elements)
                && t2[pair.1 as int].elements.contains(k) && #[trigger] t2[x].virt.dom().contains(
                k,
            ) implies t2[x].virt[k] != pair.0 by {
            assert(t[x].virt.dom().contains(k));
        }
    }
    assert forall|z: int| 0 <= z < t2.len() && z != m implies seconds(pairs).contains(z as usize)
        || organised(t2, (#[trigger] t2[z]).elements) by {
        if !seconds(pairs).contains(z as usize) {
            assert(organised(t, t[z].elements));
        }
    }
    assert(pair_stands(t2, (p, m as usize), e)) by {
        assert forall|k: Symbol|
            t2[p as int].elements.contains(k) && !e.contains(k) implies #[trigger] child(t2, m, k)
            == Some(p) by {
            assert(beyond.contains(k));
            assert(!t[p as int].real.dom().contains(k));
            assert(!t[p as int].virt.dom().contains(k));
        }
    }
    assert(done_real(t2, (p, m as usize))) by {
        assert forall|x: int, k: Symbol|
            0 <= x < t2.len() && t2[x].elements.subset_of(t2[m].elements) && t2[m].elements.contains(k)
                && #[trigger] t2[x].real.dom().contains(k) implies t2[x].real[k] != p by {
            if t2[x].real[k] == p {
                if x == m {
                    assert(beyond.contains(k));
                } else if x == n && keys.contains(k) {
                } else {
                    assert(t[x].real.dom().contains(k) && t[x].real[k] == p);
                    if promote {
                        assert(t[x].elements.subset_of(e));
                        assert(t[t[x].real[k] as int].elements.subset_of(e));
                    } else {
                        assert(t[n].real.dom().contains(j0) && t[n].real[j0] == p);
                        assert(x == n);
                        assert(real_indices(t, n, p).contains(k));
                        assert(e.intersect(real_indices(t, n, p)).contains(k));
                    }
                }
            }
        }
    }
    if promote {
        assert forall|x: int, k: Symbol|
            0 <= x < t2.len() && t2[x].elements.subset_of(e) && e.contains(k)
                && #[trigger] t2[x].real.dom().contains(k) implies t2[t2[x].real[k] as int].elements.subset_of(
            e,
        ) by {
            if x == n && keys.contains(k) {
            } else {
                assert(x < t.len());
                assert(t[x].real.dom().contains(k));
                assert(node_ok(t, x));
                assert(edge_ok(t, x, t[x].real[k] as int, k));
                assert(t2[t[x].real[k] as int].elements == t[t[x].real[k] as int].elements);
            }
        }
    }
}

/// After the virtual edges have been relinked for the pair of `p` and its
/// new node `m`, all is sorted out again, with that pair among the pairs.
pub proof fn lemma_fixed_sorted(
    mid: Seq<MopView>,
    fin: Seq<MopView>,
    pairs: Seq<(usize, usize)>,
    e: Set<Symbol>,
    p: usize,
    m: usize,
    targets: Set<usize>,
)
    requires
        well_formed(mid),
        well_formed(fin),
        mid.len() <= usize::MAX,
        keeps_order(mid, fin),
        sorted_out(mid, pairs, e, m as int),
        pair_stands(mid, (p, m), e),
        done_real(mid, (p, m)),
        relinked_to(mid, fin, targets),
        forall|x: usize| targets.contains(x) ==> x < mid.len() && mid[x as int].elements.subset_of(e),
        forall|x: int, k: Symbol|
            0 <= x < mid.len() && #[trigger] fin[x].virt.dom().contains(k) && fin[x].virt[k]
                != mid[x].virt[k] ==> e.contains(k),
        forall|i: int, k: Symbol|
            0 <= i < pairs.len() && mid[m as int].elements.subset_of(mid[pairs[i].1 as int].elements)
                && mid[pairs[i].1 as int].elements.contains(k) && #[trigger] fin[m as int].virt.dom().contains(
                k,
            ) ==> fin[m as int].virt[k] != (#[trigger] pairs[i]).0,
        done_virt(fin, (p, m), -1),
    ensures
        sorted_out(fin, pairs.push((p, m)), e, -1),
{
    let all = pairs.push((p, m));
    assert forall|y: int| 0 <= y < mid.len() implies (#[trigger] fin[y]).elements == mid[y].elements by {}
    assert forall|y: int, k: Symbol|
        #![trigger child(fin, y, k)]
        0 <= y < mid.len() && !e.contains(k) implies child(fin, y, k) == child(mid, y, k) by {
        let a = fin[y];
        if mid[y].virt.dom().contains(k) {
            assert(fin[y].virt.dom().contains(k));
        }
    }
    assert forall|i: int| 0 <= i < all.len() implies {
        &&& pair_stands(fin, #[trigger] all[i], e)
        &&& done_real(fin, all[i])
        &&& done_virt(fin, all[i], -1)
    } by {
        let pair = all[i];
        if i < pairs.len() {
            assert(pair == pairs[i]);
            assert(pair_stands(mid, pairs[i], e));
            assert(done_real(mid, pairs[i]));
            assert(done_virt(mid, pairs[i], m as int));
        }
        assert(pair_stands(mid, pair, e));
        assert(done_real(mid, pair));
        assert(fin[pair.0 as int].elements == mid[pair.0 as int].elements);
        assert(fin[pair.1 as int].elements == mid[pair.1 as int].elements);
        assert forall|k: Symbol|
            fin[pair.0 as int].elements.contains(k) && !e.contains(k) implies #[trigger] child(
            fin,
            pair.1 as int,
            k,
        ) == Some(pair.0) by {
            assert(child(mid, pair.1 as int, k) == Some(pair.0));
        }
        assert forall|x: int, k: Symbol|
            0 <= x < fin.len() && fin[x].elements.subset_of(fin[pair.1 as int].elements)
                && fin[pair.1 as int].elements.contains(k) && #[trigger] fin[x].real.dom().contains(
                k,
            ) implies fin[x].real[k] != pair.0 by {
            let a = fin[x];
            assert(mid[x].real.dom().contains(k));
        }
        if i < pairs.len() {
            assert forall|x: int, k: Symbol|
                0 <= x < fin.len() && fin[x].elements.subset_of(fin[pair.1 as int].elements)
                    && fin[pair.1 as int].elements.contains(k) && #[trigger] fin[x].virt.dom().contains(
                    k,
                ) implies fin[x].virt[k] != pair.0 by {
                let a = fin[x];
                assert(mid[x].virt.dom().contains(k));
                if fin[x].virt[k] != mid[x].virt[k] {
                    assert(targets.contains(fin[x].virt[k]));
                } else if x == m {
                    assert(fin[m as int].virt[k] != pairs[i].0);
                }
            }
        }
    }
    assert forall|z: int| 0 <= z < fin.len() implies seconds(all).contains(z as usize) || organised(
        fin,
        (#[trigger] fin[z]).elements,
    ) by {
        if z == m {
            assert(all[pairs.len() as int] == (p, m));
        } else if seconds(pairs).contains(z as usize) {
            let i = choose|i: int| 0 <= i < pairs.len() && (#[trigger] pairs[i]).1 == z as usize;
            assert(all[i] == pairs[i]);
        } else {
            assert(organised(mid, mid[z].elements));
        }
    }
    assert(distinct(fin)) by {
        assert forall|x: int, y: int|
            #![trigger fin[x], fin[y]]
            0 <= x < fin.len() && 0 <= y < fin.len() && x != y implies fin[x].elements != fin[y].elements by {
            assert(mid[x].elements != mid[y].elements);
        }
    }
}

/// If a node has the set `e`, the tree is organised for a set that holds `e`.
pub open spec fn over(t: Seq<MopView>, e: Set<Symbol>) -> bool {
    (exists|z: int| 0 <= z < t.len() && (#[trigger] t[z]).elements == e) ==> exists|s: Set<Symbol>|
        e.subset_of(s) && #[trigger] organised(t, s)
}

/// Where all is sorted out, the tree is organised over `e` if a node has the set `e`.
pub proof fn lemma_sorted_over(t: Seq<MopView>, pairs: Seq<(usize, usize)>, e: Set<Symbol>)
    requires
        t.len() <= usize::MAX,
        sorted_out(t, pairs, e, -1),
    ensures
        over(t, e),
        distinct(t),
{
    if exists|z: int| 0 <= z < t.len() && (#[trigger] t[z]).elements == e {
        let z = choose|z: int| 0 <= z < t.len() && (#[trigger] t[z]).elements == e;
        if organised(t, t[z].elements) {
            assert(e.subset_of(e));
        } else {
            assert(seconds(pairs).contains(z as usize));
            let i = choose|i: int| 0 <= i < pairs.len() && (#[trigger] pairs[i]).1 == z as usize;
            let q = pairs[i].0;
            assert(pair_stands(t, pairs[i], e));
            assert(pairs[i].1 as int == z);
            assert(!seconds(pairs).contains(q)) by {
                if seconds(pairs).contains(q) {
                    let w = choose|w: int| 0 <= w < pairs.len() && (#[trigger] pairs[w]).1 == q;
                    assert(pair_stands(t, pairs[w], e));
                }
            }
            assert(organised(t, t[q as int].elements));
            assert(e.subset_of(t[q as int].elements));
        }
    }
}

/// Where no node is gained and no set changes, the tree stays organised
/// over `e`, and no two nodes come to have the same set.
pub proof fn lemma_over_kept(t: Seq<MopView>, t2: Seq<MopView>, e: Set<Symbol>)
    requires
        keeps_order(t, t2),
        t2.len() == t.len(),
        forall|x: int| 0 <= x < t.len() ==> (#[trigger] t2[x]).elements == t[x].elements,
    ensures
        over(t, e) ==> over(t2, e),
        distinct(t) ==> distinct(t2),
{
    if over(t, e) {
        if exists|z: int| 0 <= z < t2.len() && (#[trigger] t2[z]).elements == e {
            let z = choose|z: int| 0 <= z < t2.len() && (#[trigger] t2[z]).elements == e;
            assert(t[z].elements == e);
            let s = choose|s: Set<Symbol>| e.subset_of(s) && #[trigger] organised(t, s);
            assert(organised(t2, s));
        }
    }
    if distinct(t) {
        assert forall|x: int, y: int|
            #![trigger t2[x], t2[y]]
            0 <= x < t2.len() && 0 <= y < t2.len() && x != y implies t2[x].elements != t2[y].elements by {
            assert(t[x].elements != t[y].elements);
        }
    }
}

/// A node within `e` that lacks a child under a symbol of `e` shows that
/// no node has the set `e`, in a tree that is organised over `e`.
pub proof fn lemma_no_such_node(t: Seq<MopView>, e: Set<Symbol>, n: int, k0: Symbol)
    requires
        over(t, e),
        0 <= n < t.len(),
        t[n].elements.subset_of(e),
        e.contains(k0),
        !t[n].elements.contains(k0),
        child(t, n, k0) is None,
    ensures
        forall|z: int| 0 <= z < t.len() ==> (#[trigger] t[z]).elements != e,
{
    if exists|z: int| 0 <= z < t.len() && (#[trigger] t[z]).elements == e {
        let s = choose|s: Set<Symbol>| e.subset_of(s) && #[trigger] organised(t, s);
        assert(organised_at(t, n, s));
        assert(s.contains(k0));
        assert(t[n].elements != s);
        assert(child(t, n, k0) is Some);
    }
}

/// Where the real children of the compatible nodes that the excerpt
/// reaches are compatible, and every node is reached, the real children of
/// all compatible nodes are.
pub proof fn lemma_ready_settled(t: Seq<MopView>, e: Set<Symbol>)
    requires
        well_formed(t),
        crate::readiness::connected(t),
        crate::readiness::ready(t, 0, e, 1),
    ensures
        real_settled(t, e),
{
    assert forall|x: int, k: Symbol|
        0 <= x < t.len() && t[x].elements.subset_of(e) && e.contains(k)
            && #[trigger] t[x].real.dom().contains(k) implies t[t[x].real[k] as int].elements.subset_of(
        e,
    ) by {
        assert(crate::model::reached(t, 0, x));
        crate::readiness::lemma_ready_reached(t, 0, x, e, 1);
        assert(crate::readiness::ready(t, t[x].real[k] as int, e, 1));
    }
}

/// Each node that `t2` has beyond those of `t` is the new node of a pair
/// of `pairs2`, which holds the new nodes of `pairs` too.
pub open spec fn hatched(
    t: Seq<MopView>,
    t2: Seq<MopView>,
    pairs: Seq<(usize, usize)>,
    pairs2: Seq<(usize, usize)>,
) -> bool {
    &&& seconds(pairs).subset_of(seconds(pairs2))
    &&& forall|y: int| t.len() <= y < t2.len() ==> #[trigger] seconds(pairs2).contains(y as usize)
}

/// Hatching is transitive.
pub proof fn lemma_hatched_trans(
    t: Seq<MopView>,
    t2: Seq<MopView>,
    t3: Seq<MopView>,
    a: Seq<(usize, usize)>,
    b: Seq<(usize, usize)>,
    c: Seq<(usize, usize)>,
)
    requires
        hatched(t, t2, a, b),
        hatched(t2, t3, b, c),
    ensures
        hatched(t, t3, a, c),
{
    assert forall|y: int| t.len() <= y < t3.len() implies #[trigger] seconds(c).contains(y as usize) by {
        if y < t2.len() {
            assert(seconds(b).contains(y as usize));
        }
    }
}

/// A pair added to the pairs hatches its new node.
pub proof fn lemma_hatched_push(
    t: Seq<MopView>,
    t2: Seq<MopView>,
    pairs: Seq<(usize, usize)>,
    p: usize,
)
    requires
        t2.len() == t.len() + 1,
        t.len() < usize::MAX,
    ensures
        hatched(t, t2, pairs, pairs.push((p, t.len() as usize))),
{
    let all = pairs.push((p, t.len() as usize));
    assert forall|m: usize| seconds(pairs).contains(m) implies seconds(all).contains(m) by {
        let i = choose|i: int| 0 <= i < pairs.len() && (#[trigger] pairs[i]).1 == m;
        assert(all[i] == pairs[i]);
    }
    assert forall|y: int| t.len() <= y < t2.len() implies #[trigger] seconds(all).contains(y as usize) by {
        assert(all[pairs.len() as int].1 == t.len() as usize);
    }
}

} // verus!
