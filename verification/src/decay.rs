//! Decay: the step that lets every strength in the tree fall.
use vstd::prelude::*;
use vstd::set_lib::lemma_len_subset;
use crate::model::{child, child_below, edge_ok, faded, lemma_child_edge, lemma_real_indices,
    lemma_room_child, node_ok, reached, room, weakened, well_formed, widest};
use crate::mop::MopView;
use crate::ordered_set::Symbol;
use crate::readiness::{lemma_reached_edge, lemma_reached_trans, lemma_reached_within, same_shape,
    unique_parent};
use crate::retention::lemma_same_shape_keeps_order;
use crate::strength::{Strength};
use crate::tree::RedundantDiscriminationTree;

verus! {

/// The node after one decay step of each of its three strengths.
pub open spec fn decayed_once<S: Strength>(v: MopView) -> MopView {
    MopView { trace: S::decay(v.trace), epitome: S::decay(v.epitome), undif: S::decay(v.undif), ..v }
}

/// Node `x` is `n`, or is reached from a real child of `n` under a key
/// that is not in `waiting`.
pub open spec fn visited(t: Seq<MopView>, n: int, waiting: Set<Symbol>, x: int) -> bool {
    x == n || exists|k: Symbol|
        #![trigger t[n].real.dom().contains(k)]
        t[n].real.dom().contains(k) && !waiting.contains(k) && reached(t, t[n].real[k] as int, x)
}

/// Trees of the same shape have the same widest set.
pub proof fn lemma_same_shape_widest(t: Seq<MopView>, t2: Seq<MopView>)
    requires
        same_shape(t, t2),
    ensures
        widest(t2) == widest(t),
    decreases t.len(),
{
    if t.len() > 0 {
        let a = t.drop_last();
        let b = t2.drop_last();
        assert forall|x: int| #![trigger b[x]] 0 <= x < a.len() implies {
            &&& b[x].elements == a[x].elements
            &&& b[x].real == a[x].real
            &&& b[x].virt == a[x].virt
        } by {
            assert(b[x] == t2[x]);
        }
        lemma_same_shape_widest(a, b);
        assert(t2.last() == t2[t.len() - 1]);
    }
}

/// In trees of the same shape the same nodes are reached.
pub proof fn lemma_same_shape_reached(t: Seq<MopView>, t2: Seq<MopView>, n: int, x: int)
    requires
        same_shape(t, t2),
        0 <= n < t.len(),
        reached(t, n, x),
    ensures
        reached(t2, n, x),
    decreases room(t, n),
{
    lemma_same_shape_widest(t, t2);
    if x != n {
        let j = choose|j: Symbol|
            #![trigger t[n].real.dom().contains(j)]
            {
                &&& t[n].real.dom().contains(j)
                &&& child_below(t, n, j)
                &&& reached(t, t[n].real[j] as int, x)
            };
        let c = t[n].real[j] as int;
        assert(t2[n].real == t[n].real);
        assert(t2[c].elements == t[c].elements);
        assert(child(t2, n, j) == child(t, n, j));
        lemma_same_shape_reached(t, t2, c, x);
        assert(t2[n].real.dom().contains(j));
        assert(child_below(t2, n, j));
    }
}

/// A node reached from another node is the real child of a node reached from it.
pub proof fn lemma_last_edge(t: Seq<MopView>, a: int, x: int) -> (r: (int, Symbol))
    requires
        well_formed(t),
        0 <= a < t.len(),
        reached(t, a, x),
        x != a,
    ensures
        0 <= r.0 < t.len(),
        reached(t, a, r.0),
        t[r.0].real.dom().contains(r.1),
        t[r.0].real[r.1] == x,
    decreases room(t, a),
{
    let j = choose|j: Symbol|
        #![trigger t[a].real.dom().contains(j)]
        {
            &&& t[a].real.dom().contains(j)
            &&& child_below(t, a, j)
            &&& reached(t, t[a].real[j] as int, x)
        };
    let c = t[a].real[j] as int;
    assert(child(t, a, j) == Some(t[a].real[j]));
    if x == c {
        (a, j)
    } else {
        let r = lemma_last_edge(t, c, x);
        lemma_reached_edge(t, a, j);
        lemma_reached_trans(t, a, c, r.0);
        r
    }
}

/// Where each node has one real parent, two nodes from which the same
/// node is reached are reached one from the other.
pub proof fn lemma_comparable(t: Seq<MopView>, a: int, b: int, x: int)
    requires
        well_formed(t),
        unique_parent(t),
        0 <= a < t.len(),
        0 <= b < t.len(),
        reached(t, a, x),
        reached(t, b, x),
    ensures
        reached(t, a, b) || reached(t, b, a),
    decreases t[x].elements.len(),
{
    if x != a && x != b {
        let r1 = lemma_last_edge(t, a, x);
        let r2 = lemma_last_edge(t, b, x);
        assert(r1.0 == r2.0);
        assert(node_ok(t, r1.0));
        assert(child(t, r1.0, r1.1) == Some(t[r1.0].real[r1.1]));
        lemma_child_edge(t, r1.0, r1.1);
        lemma_comparable(t, a, b, r1.0);
    }
}

/// Where each node has one real parent, no node is reached from two
/// different real children of a node, and the node is reached from none of them.
pub proof fn lemma_children_apart(t: Seq<MopView>, n: int, j: Symbol, k: Symbol, x: int)
    requires
        well_formed(t),
        unique_parent(t),
        0 <= n < t.len(),
        t[n].real.dom().contains(j),
        t[n].real.dom().contains(k),
        reached(t, t[n].real[j] as int, x),
    ensures
        x != n,
        t[n].real[j] != t[n].real[k] ==> !reached(t, t[n].real[k] as int, x),
{
    let c = t[n].real[j] as int;
    let d = t[n].real[k] as int;
    assert(node_ok(t, n));
    assert(edge_ok(t, n, c, j));
    assert(edge_ok(t, n, d, k));
    lemma_reached_within(t, c, x);
    if c != d && reached(t, d, x) {
        lemma_comparable(t, c, d, x);
        if reached(t, c, d) {
            let r = lemma_last_edge(t, c, d);
            assert(r.0 == n);
            lemma_reached_within(t, c, n);
        } else {
            let r = lemma_last_edge(t, d, c);
            assert(r.0 == n);
            lemma_reached_within(t, d, n);
        }
    }
}

impl<S: Strength> RedundantDiscriminationTree<S> {
    /// One decay step of the three strengths of node `n`, and then of
    /// every node below it, by real edges. A child is visited once for all
    /// the keys under which `n` holds it.
    pub(crate) fn decr_strengths(&mut self, n: usize)
        requires
            old(self).sound(),
            unique_parent(old(self)@),
            n < old(self)@.len(),
        ensures
            final(self).sound(),
            final(self)@.len() == old(self)@.len(),
            forall|x: int|
                0 <= x < old(self)@.len() ==> #[trigger] final(self)@[x] == (if reached(
                    old(self)@,
                    n as int,
                    x,
                ) {
                    decayed_once::<S>(old(self)@[x])
                } else {
                    old(self)@[x]
                }),
        decreases room(old(self)@, n as int),
    {
        let ghost t = self@;
        self.decay(n);
        let mut big_a = self.mop(n).children_r().keys();
        proof {
            big_a.lemma_finite();
            assert(same_shape(t, self@));
            assert forall|x: int| 0 <= x < t.len() implies #[trigger] self@[x] == (if visited(
                t,
                n as int,
                big_a@,
                x,
            ) {
                decayed_once::<S>(t[x])
            } else {
                t[x]
            }) by {}
        }
        loop
            invariant
                t == old(self)@,
                well_formed(t),
                unique_parent(t),
                n < t.len(),
                self.sound(),
                same_shape(t, self@),
                big_a@.finite(),
                big_a@.subset_of(t[n as int].real.dom()),
                forall|k: Symbol, w: Symbol|
                    #![trigger big_a@.contains(k), t[n as int].real.dom().contains(w)]
                    big_a@.contains(k) && t[n as int].real.dom().contains(w) && t[n as int].real[w]
                        == t[n as int].real[k] ==> big_a@.contains(w),
                forall|x: int|
                    0 <= x < t.len() ==> #[trigger] self@[x] == (if visited(t, n as int, big_a@, x) {
                        decayed_once::<S>(t[x])
                    } else {
                        t[x]
                    }),
            ensures
                big_a@ == Set::<Symbol>::empty(),
            decreases big_a@.len(),
        {
            match big_a.first() {
                None => {
                    break ;
                },
                Some(j) => {
                    let ghost cur = self@;
                    proof {
                        assert(cur[n as int].real == t[n as int].real);
                        lemma_same_shape_unique(t, cur);
                    }
                    let (c, indices) = self.get_r_child_and_indices(n, j).unwrap();
                    proof {
                        assert(child(t, n as int, j) == Some(c));
                        lemma_room_child(t, n as int, j);
                        lemma_same_shape_widest(t, cur);
                        assert(cur[c as int].elements == t[c as int].elements);
                        lemma_real_indices(cur, n as int, c);
                    }
                    self.decr_strengths(c);
                    proof {
                        let fin = self@;
                        let rest = big_a@.difference(indices@);
                        lemma_len_subset(rest, big_a@);
                        rest.lemma_subset_not_in_lt(big_a@, j);
                        assert forall|x: int| #![trigger fin[x]] 0 <= x < t.len() implies {
                            &&& fin[x].elements == t[x].elements
                            &&& fin[x].real == t[x].real
                            &&& fin[x].virt == t[x].virt
                        } by {
                            let a = cur[x];
                        }
                        assert forall|x: int| 0 <= x < t.len() implies #[trigger] fin[x] == (if visited(
                            t,
                            n as int,
                            rest,
                            x,
                        ) {
                            decayed_once::<S>(t[x])
                        } else {
                            t[x]
                        }) by {
                            let a = cur[x];
                            if reached(cur, c as int, x) {
                                lemma_same_shape_reached(cur, t, c as int, x);
                            }
                            if reached(t, c as int, x) {
                                lemma_same_shape_reached(t, cur, c as int, x);
                                lemma_children_apart(t, n as int, j, j, x);
                                assert(!visited(t, n as int, big_a@, x)) by {
                                    if visited(t, n as int, big_a@, x) {
                                        let k = choose|k: Symbol|
                                            #![trigger t[n as int].real.dom().contains(k)]
                                            t[n as int].real.dom().contains(k) && !big_a@.contains(k)
                                                && reached(t, t[n as int].real[k] as int, x);
                                        lemma_children_apart(t, n as int, j, k, x);
                                    }
                                }
                                assert(t[n as int].real.dom().contains(j) && !rest.contains(j));
                                assert(visited(t, n as int, rest, x));
                            } else {
                                if visited(t, n as int, rest, x) && x != n {
                                    let k = choose|k: Symbol|
                                        #![trigger t[n as int].real.dom().contains(k)]
                                        t[n as int].real.dom().contains(k) && !rest.contains(k) && reached(
                                            t,
                                            t[n as int].real[k] as int,
                                            x,
                                        );
                                    if big_a@.contains(k) {
                                        assert(indices@.contains(k));
                                    }
                                    assert(t[n as int].real.dom().contains(k) && !big_a@.contains(k));
                                    assert(visited(t, n as int, big_a@, x));
                                }
                                if visited(t, n as int, big_a@, x) && x != n {
                                    let k = choose|k: Symbol|
                                        #![trigger t[n as int].real.dom().contains(k)]
                                        t[n as int].real.dom().contains(k) && !big_a@.contains(k) && reached(
                                            t,
                                            t[n as int].real[k] as int,
                                            x,
                                        );
                                    assert(t[n as int].real.dom().contains(k) && !rest.contains(k));
                                    assert(visited(t, n as int, rest, x));
                                }
                            }
                        }
                        assert forall|k: Symbol, w: Symbol|
                            #![trigger rest.contains(k), t[n as int].real.dom().contains(w)]
                            rest.contains(k) && t[n as int].real.dom().contains(w) && t[n as int].real[w]
                                == t[n as int].real[k] implies rest.contains(w) by {
                            assert(big_a@.contains(w));
                            if indices@.contains(w) {
                                assert(indices@.contains(k));
                            }
                        }
                    }
                    big_a = big_a.difference(&indices);
                },
            }
        }
        proof {
            let fin = self@;
            assert forall|x: int| 0 <= x < t.len() implies (visited(
                t,
                n as int,
                Set::<Symbol>::empty(),
                x,
            ) <==> reached(t, n as int, x)) by {
                if reached(t, n as int, x) && x != n {
                    let j = choose|j: Symbol|
                        #![trigger t[n as int].real.dom().contains(j)]
                        {
                            &&& t[n as int].real.dom().contains(j)
                            &&& child_below(t, n as int, j)
                            &&& reached(t, t[n as int].real[j] as int, x)
                        };
                    assert(t[n as int].real.dom().contains(j) && !Set::<Symbol>::empty().contains(j));
                }
                if visited(t, n as int, Set::<Symbol>::empty(), x) && x != n {
                    let k = choose|k: Symbol|
                        #![trigger t[n as int].real.dom().contains(k)]
                        t[n as int].real.dom().contains(k) && !Set::<Symbol>::empty().contains(k)
                            && reached(t, t[n as int].real[k] as int, x);
                    assert(child(t, n as int, k) == Some(t[n as int].real[k]));
                    lemma_room_child(t, n as int, k);
                }
            }
        }
    }

    /// One decay step for the tree: each of the three strengths of every
    /// node takes one decay step, and nothing else changes. No strength
    /// rises, and each strength that was above zero falls.
    pub fn decrement_strengths(&mut self)
        requires
            old(self).wf(),
        ensures
            final(self).wf(),
            faded(old(self)@, final(self)@),
            forall|x: int|
                0 <= x < old(self)@.len() ==> #[trigger] final(self)@[x] == decayed_once::<S>(
                    old(self)@[x],
                ),
            forall|x: int|
                0 <= x < old(self)@.len() ==> weakened(old(self)@[x], #[trigger] final(self)@[x]),
    {
        let ghost t = self@;
        self.decr_strengths(0);
        proof {
            let fin = self@;
            assert forall|x: int| 0 <= x < t.len() implies #[trigger] fin[x] == decayed_once::<S>(
                t[x],
            ) by {
                assert(reached(t, 0, x));
            }
            assert forall|x: int| #![trigger fin[x]] 0 <= x < t.len() implies {
                &&& fin[x].elements == t[x].elements
                &&& fin[x].real == t[x].real
                &&& fin[x].virt == t[x].virt
                &&& fin[x].trace <= t[x].trace
                &&& fin[x].epitome <= t[x].epitome
                &&& fin[x].undif <= t[x].undif
                &&& weakened(t[x], fin[x])
            } by {
                assert(node_ok(t, x));
                assert(fin[x] == decayed_once::<S>(t[x]));
                S::lemma_decay(t[x].trace);
                S::lemma_decay(t[x].epitome);
                S::lemma_decay(t[x].undif);
            }
            assert(same_shape(t, fin));
            assert forall|x: int| 0 <= x < fin.len() implies #[trigger] reached(fin, 0, x) by {
                assert(reached(t, 0, x));
                lemma_same_shape_reached(t, fin, 0, x);
            }
            lemma_same_shape_unique(t, fin);
            lemma_same_shape_keeps_order(t, fin);
            crate::identity::lemma_over_kept(t, fin, Set::<Symbol>::empty());
        }
    }
}

/// In trees of the same shape each node has one real parent, if it has in one of them.
pub proof fn lemma_same_shape_unique(t: Seq<MopView>, t2: Seq<MopView>)
    requires
        same_shape(t, t2),
        unique_parent(t),
    ensures
        unique_parent(t2),
{
    assert forall|a: int, j: Symbol, b: int, k: Symbol|
        0 <= a < t2.len() && 0 <= b < t2.len() && #[trigger] t2[a].real.dom().contains(j)
            && #[trigger] t2[b].real.dom().contains(k) && t2[a].real[j] == t2[b].real[k] implies a
        == b by {
        let u = t2[a];
        let v = t2[b];
        assert(t[a].real.dom().contains(j) && t[b].real.dom().contains(k));
    }
}

} // verus!
