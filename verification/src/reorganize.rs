//! Reorganisation: the steps that prepare the tree for an excerpt, so that
//! every node which the excerpt reaches by real edges is compatible with it,
//! and so is every virtual child of such a node under a key of the excerpt.
use vstd::prelude::*;
use vstd::set_lib::lemma_len_subset;
use crate::model::{abstraction, distance, edge_ok, lemma_abstraction_ok, lemma_distance_child,
    lemma_less_left, lemma_real_indices, lemma_virt_indices, node_ok, real_indices,
    real_kept_outside, relinked, virt_indices, wedged, well_formed};
use crate::mop::{installed, Mop, MopView};
use crate::ordered_set::{OrderedSet, Symbol};
use crate::readiness::{advances, lemma_advances_earlier, lemma_advances_trans,
    lemma_pairs_fit_grown, lemma_quiet_step, lemma_quiet_trans, lemma_ready_step,
    lemma_relinked_advances, lemma_relinked_strengths, lemma_relinked_to_trans, lemma_step_trans,
    lemma_strengths_kept_trans, lemma_wedge_advances, local_ok, pairs_fit, quiet_but, ready,
    relinked_to, seconds, step_ok, strengths_kept};
use crate::decay::visited;
use crate::absorb::lemma_visited_all;
use crate::identity::{done_real, done_virt, hatched, lemma_fixed_sorted, lemma_hatched_push,
    lemma_hatched_trans, lemma_wedge_sorted, pair_stands, real_settled, sorted_out};
use crate::readiness::{connected, kept_beyond, lemma_kept_beyond_trans, lemma_prefix_push,
    lemma_prefix_trans, lemma_wedge_beyond, lemma_reached_edge, lemma_reached_kept, lemma_reached_trans,
    lemma_reached_within, real_edges_kept,
    unique_parent};
use crate::model::reached;
use crate::retention::{lemma_relinked_down_trans, relinked_down};
use crate::strength::Strength;
use crate::tree::RedundantDiscriminationTree;

verus! {

impl<S: Strength> RedundantDiscriminationTree<S> {
    /// Adds the abstraction of node `p` for `excerpt` and returns its handle.
    fn new_abstraction(&mut self, p: usize, excerpt: &OrderedSet, as_real: bool) -> (m: usize)
        requires
            old(self).sound(),
            p < old(self)@.len(),
        ensures
            final(self).sound(),
            final(self)@ == old(self)@.push(abstraction(old(self)@, p, excerpt@, as_real)),
            m == old(self)@.len(),
            old(self)@.len() < usize::MAX,
    {
        let elements = self.mop(p).elements().intersection(excerpt);
        let beyond = self.mop(p).elements().difference(&elements);
        let mut mop = Mop::new_epitome(
            elements,
            self.mop(p).merged_children(),
            self.mop(p).undif_strength(),
        );
        if as_real {
            mop.insert_r_child(&beyond, p);
        } else {
            mop.insert_v_child(&beyond, p);
        }
        proof {
            excerpt.lemma_finite();
            lemma_abstraction_ok(self@, p, excerpt@, as_real);
        }
        self.add_mop(mop)
    }

    /// Puts a new node between node `n` and its real child under `j`, for
    /// the keys of that child that are in `excerpt`. The child becomes a
    /// virtual child of the new node.
    pub(crate) fn split(&mut self, n: usize, j: Symbol, excerpt: &OrderedSet)
        requires
            old(self).sound(),
            n < old(self)@.len(),
            old(self)@[n as int].real.dom().contains(j),
            old(self)@[n as int].elements.subset_of(excerpt@),
        ensures
            final(self).sound(),
            final(self)@ == wedged(
                old(self)@,
                n as int,
                old(self)@[n as int].real[j],
                excerpt@,
                false,
                excerpt@.intersect(
                    real_indices(old(self)@, n as int, old(self)@[n as int].real[j]),
                ),
                false,
            ),
            old(self)@.len() < usize::MAX,
    {
        let ghost t = self@;
        let (p, indices) = self.get_r_child_and_indices(n, j).unwrap();
        proof {
            assert(node_ok(t, n as int));
            assert(edge_ok(t, n as int, p as int, j));
        }
        let m = self.new_abstraction(p, excerpt, false);
        let keys = excerpt.intersection(&indices);
        proof {
            assert forall|k: Symbol| keys@.contains(k) implies t[n as int].real.dom().contains(k)
                && t[p as int].elements.contains(k) by {}
            assert(keys@.disjoint(self@[n as int].elements));
            assert(keys@.disjoint(self@[n as int].virt.dom()));
        }
        self.install_real(n, &keys, m);
        proof {
            assert(keys@ =~= excerpt@.intersect(real_indices(t, n as int, p)));
        }
    }

    /// Puts a new node between node `n` and its real child under `j`, all
    /// of whose keys are in `excerpt`. The child becomes a real child of the
    /// new node.
    pub(crate) fn interpose_real(&mut self, n: usize, j: Symbol, excerpt: &OrderedSet)
        requires
            old(self).sound(),
            n < old(self)@.len(),
            old(self)@[n as int].real.dom().contains(j),
            old(self)@[n as int].elements.subset_of(excerpt@),
            real_indices(old(self)@, n as int, old(self)@[n as int].real[j]).subset_of(excerpt@),
        ensures
            final(self).sound(),
            final(self)@ == wedged(
                old(self)@,
                n as int,
                old(self)@[n as int].real[j],
                excerpt@,
                true,
                real_indices(old(self)@, n as int, old(self)@[n as int].real[j]),
                false,
            ),
            old(self)@.len() < usize::MAX,
    {
        let ghost t = self@;
        let (p, indices) = self.get_r_child_and_indices(n, j).unwrap();
        proof {
            assert(node_ok(t, n as int));
            assert(edge_ok(t, n as int, p as int, j));
        }
        let m = self.new_abstraction(p, excerpt, true);
        proof {
            assert forall|k: Symbol| indices@.contains(k) implies t[n as int].real.dom().contains(k)
                && t[p as int].elements.contains(k) by {}
            assert(indices@.disjoint(self@[n as int].elements));
            assert(indices@.disjoint(self@[n as int].virt.dom()));
        }
        self.install_real(n, &indices, m);
    }

    /// Puts a new node between node `n` and its virtual child under `j`,
    /// for the keys of that child that are in `excerpt`: under those keys
    /// the new node becomes a real child of `n`. The old child becomes a
    /// virtual child of the new node.
    pub(crate) fn interpose_virtual(&mut self, n: usize, j: Symbol, excerpt: &OrderedSet)
        requires
            old(self).sound(),
            n < old(self)@.len(),
            old(self)@[n as int].virt.dom().contains(j),
            old(self)@[n as int].elements.subset_of(excerpt@),
        ensures
            final(self).sound(),
            final(self)@ == wedged(
                old(self)@,
                n as int,
                old(self)@[n as int].virt[j],
                excerpt@,
                false,
                excerpt@.intersect(
                    virt_indices(old(self)@, n as int, old(self)@[n as int].virt[j]),
                ),
                true,
            ),
            old(self)@.len() < usize::MAX,
    {
        let ghost t = self@;
        let (p, indices) = self.get_v_child_and_indices(n, j).unwrap();
        proof {
            assert(node_ok(t, n as int));
            assert(edge_ok(t, n as int, p as int, j));
        }
        let m = self.new_abstraction(p, excerpt, false);
        let keys = excerpt.intersection(&indices);
        proof {
            assert forall|k: Symbol| keys@.contains(k) implies t[n as int].virt.dom().contains(k)
                && t[p as int].elements.contains(k) by {}
        }
        self.promote(n, &keys, m);
        proof {
            assert(keys@ =~= excerpt@.intersect(virt_indices(t, n as int, p)));
        }
    }

    /// At node `n`, for each pair of `pairs` in turn whose second node
    /// includes the set of `n`: every virtual edge of `n` that leads to the
    /// first node of the pair, under a key in the set of the second, is led
    /// to the second.
    pub(crate) fn fix_v_links_local(&mut self, n: usize, pairs: &Vec<(usize, usize)>)
        requires
            old(self).sound(),
            n < old(self)@.len(),
            forall|i: int|
                0 <= i < pairs@.len() ==> (#[trigger] pairs@[i]).0 < old(self)@.len() && pairs@[i].1
                    < old(self)@.len() && old(self)@[pairs@[i].1 as int].elements.subset_of(
                    old(self)@[pairs@[i].0 as int].elements,
                ),
            forall|i: int, j: int|
                0 <= i < pairs@.len() && 0 <= j < pairs@.len() ==> (#[trigger] pairs@[i]).0 != (
                #[trigger] pairs@[j]).1,
        ensures
            final(self).sound(),
            relinked_to(old(self)@, final(self)@, seconds(pairs@)),
            relinked_down(old(self)@, final(self)@),
            forall|i: int, k: Symbol|
                0 <= i < pairs@.len() && old(self)@[n as int].elements.subset_of(
                    old(self)@[pairs@[i].1 as int].elements,
                ) && old(self)@[pairs@[i].1 as int].elements.contains(k)
                    && #[trigger] final(self)@[n as int].virt.dom().contains(k) ==> final(self)@[n as int].virt[k] != (#[trigger] pairs@[i]).0,
    {
        proof {
            lemma_no_relink(self@);
        }
        let mut i: usize = 0;
        while i < pairs.len()
            invariant
                i <= pairs.len(),
                self.sound(),
                n < self@.len(),
                self@.len() == old(self)@.len(),
                well_formed(old(self)@),
                relinked_to(old(self)@, self@, seconds(pairs@)),
                relinked_down(old(self)@, self@),
                forall|i: int|
                    0 <= i < pairs@.len() ==> (#[trigger] pairs@[i]).0 < old(self)@.len()
                        && pairs@[i].1 < old(self)@.len() && old(self)@[pairs@[i].1 as int].elements.subset_of(
                        old(self)@[pairs@[i].0 as int].elements,
                    ),
                forall|i: int, j: int|
                    0 <= i < pairs@.len() && 0 <= j < pairs@.len() ==> (#[trigger] pairs@[i]).0 != (
                    #[trigger] pairs@[j]).1,
                forall|a: int, k: Symbol|
                    0 <= a < i && old(self)@[n as int].elements.subset_of(
                        old(self)@[pairs@[a].1 as int].elements,
                    ) && old(self)@[pairs@[a].1 as int].elements.contains(k)
                        && #[trigger] self@[n as int].virt.dom().contains(k) ==> self@[n as int].virt[k]
                        != (#[trigger] pairs@[a]).0,
            decreases pairs.len() - i,
        {
            let m1: usize = pairs[i].0;
            let m2: usize = pairs[i].1;
            let ghost cur = self@;
            proof {
                assert(cur[m1 as int].elements == old(self)@[m1 as int].elements);
                assert(cur[m2 as int].elements == old(self)@[m2 as int].elements);
                assert(cur[n as int].elements == old(self)@[n as int].elements);
                assert(pairs@[i as int].0 != pairs@[i as int].1);
            }
            if self.mop(m2).elements().is_superset(self.mop(n).elements()) {
                self.relink(n, m1, m2, &self.mop(m2).elements().clone());
                proof {
                    assert(seconds(pairs@).contains(pairs@[i as int].1));
                    lemma_relinked_to_trans(old(self)@, cur, self@, seconds(pairs@), set![m2]);
                    assert(seconds(pairs@).union(set![m2]) =~= seconds(pairs@));
                    lemma_relinked_down_trans(old(self)@, cur, self@);
                }
            }
            proof {
                let fin = self@;
                assert forall|a: int, k: Symbol|
                    0 <= a < i + 1 && old(self)@[n as int].elements.subset_of(
                        old(self)@[pairs@[a].1 as int].elements,
                    ) && old(self)@[pairs@[a].1 as int].elements.contains(k)
                        && #[trigger] fin[n as int].virt.dom().contains(k) implies fin[n as int].virt[k]
                    != (#[trigger] pairs@[a]).0 by {
                    if fin != cur {
                        assert(cur[n as int].virt.dom().contains(k));
                        if fin[n as int].virt[k] != cur[n as int].virt[k] {
                            assert(fin[n as int].virt[k] == m2);
                            assert(pairs@[a].0 != pairs@[i as int].1);
                        }
                    }
                }
            }
            i = i + 1;
        }
    }

    /// At node `n`, every virtual edge that leads to `m1` under a key of
    /// `keys` is led to `m2`. No other edge changes.
    fn relink(&mut self, n: usize, m1: usize, m2: usize, keys: &OrderedSet)
        requires
            old(self).sound(),
            n < old(self)@.len(),
            m1 < old(self)@.len(),
            m2 < old(self)@.len(),
            m1 != m2,
            keys@.subset_of(old(self)@[m2 as int].elements),
            old(self)@[n as int].elements.subset_of(old(self)@[m2 as int].elements),
            old(self)@[m2 as int].elements.subset_of(old(self)@[m1 as int].elements),
        ensures
            final(self).sound(),
            relinked_to(old(self)@, final(self)@, set![m2]),
            relinked_down(old(self)@, final(self)@),
            forall|k: Symbol|
                keys@.contains(k) && #[trigger] final(self)@[n as int].virt.dom().contains(k) ==> final(self)@[n as int].virt[k] != m1,
            forall|x: int, k: Symbol|
                0 <= x < old(self)@.len() && #[trigger] final(self)@[x].virt.dom().contains(k) && final(self)@[x].virt[k] != old(self)@[x].virt[k] ==> x == n && keys@.contains(k) && old(self)@[x].virt[k] == m1
                    && final(self)@[x].virt[k] == m2,
            forall|k: Symbol|
                keys@.contains(k) && #[trigger] old(self)@[n as int].virt.dom().contains(k) && old(self)@[n as int].virt[k] == m1
                    ==> final(self)@[n as int].virt[k] == m2,
    {
        let items = keys.items();
        let mut i: usize = 0;
        proof {
            lemma_no_relink(self@);
        }
        while i < items.len()
            invariant
                i <= items.len(),
                self.sound(),
                well_formed(old(self)@),
                n < self@.len(),
                m1 < self@.len(),
                m2 < self@.len(),
                m1 != m2,
                old(self)@[m2 as int].elements.subset_of(old(self)@[m1 as int].elements),
                relinked_to(old(self)@, self@, set![m2]),
                relinked_down(old(self)@, self@),
                items@.to_set() == keys@,
                keys@.subset_of(old(self)@[m2 as int].elements),
                old(self)@[n as int].elements.subset_of(old(self)@[m2 as int].elements),
                forall|a: int|
                    0 <= a < i && self@[n as int].virt.dom().contains(#[trigger] items@[a]) ==> self@[n as int].virt[items@[a]]
                        != m1,
                forall|x: int, k: Symbol|
                    0 <= x < old(self)@.len() && #[trigger] self@[x].virt.dom().contains(k)
                        && self@[x].virt[k] != old(self)@[x].virt[k] ==> x == n && keys@.contains(k)
                        && old(self)@[x].virt[k] == m1 && self@[x].virt[k] == m2,
            decreases items.len() - i,
        {
            let k: Symbol = items[i];
            assert(items@.contains(k));
            assert(keys@.contains(k));
            let ghost before = self@;
            match self.mop(n).get_v_child(k) {
                Some(target) => {
                    if target == m1 {
                        proof {
                            let a = self@[n as int];
                            let b = self@[m2 as int];
                        }
                        self.retarget_virt(n, k, m2);
                        proof {
                            assert(relinked_to(before, self@, set![m2])) by {
                                assert forall|x: int| #![trigger self@[x]] 0 <= x < before.len() implies {
                                    &&& self@[x] == (MopView { virt: self@[x].virt, ..before[x] })
                                    &&& self@[x].virt.dom() == before[x].virt.dom()
                                } by {
                                    if x == n {
                                        assert(self@[x].virt.dom() =~= before[x].virt.dom());
                                    }
                                }
                                assert(before[m2 as int].elements == old(self)@[m2 as int].elements);
                            }
                            lemma_relinked_to_trans(old(self)@, before, self@, set![m2], set![m2]);
                            assert(set![m2].union(set![m2]) =~= set![m2]);
                            assert(relinked_down(before, self@)) by {
                                assert(before[m1 as int].elements == old(self)@[m1 as int].elements);
                                assert(before[m2 as int].elements == old(self)@[m2 as int].elements);
                                assert forall|x: int, j: Symbol|
                                    0 <= x < before.len() && #[trigger] self@[x].virt.dom().contains(j) implies before[self@[x].virt[j] as int].elements.subset_of(
                                    before[before[x].virt[j] as int].elements,
                                ) by {
                                    if x == n && j == k {
                                    } else {
                                        assert(self@[x].virt[j] == before[x].virt[j]);
                                    }
                                }
                            }
                            lemma_relinked_down_trans(old(self)@, before, self@);
                        }
                    }
                },
                None => {},
            }
            proof {
                let fin = self@;
                assert forall|a: int|
                    0 <= a < i + 1 && fin[n as int].virt.dom().contains(#[trigger] items@[a]) implies fin[n as int].virt[items@[a]]
                    != m1 by {
                    if fin != before {
                        assert(before[n as int].virt.dom().contains(items@[a]));
                    }
                }
                assert forall|x: int, j: Symbol|
                    0 <= x < old(self)@.len() && #[trigger] fin[x].virt.dom().contains(j) && fin[x].virt[j]
                        != old(self)@[x].virt[j] implies x == n && keys@.contains(j) && old(self)@[x].virt[j] == m1
                    && fin[x].virt[j] == m2 by {
                    if fin != before {
                        assert(before[x].virt.dom().contains(j));
                    }
                }
            }
            i = i + 1;
        }
        proof {
            let fin = self@;
            assert forall|k: Symbol| keys@.contains(k) && #[trigger] fin[n as int].virt.dom().contains(k) implies fin[n as int].virt[k]
                != m1 by {
                assert(items@.to_set().contains(k));
                let a = choose|a: int| 0 <= a < items@.len() && items@[a] == k;
                assert(fin[n as int].virt.dom().contains(items@[a]));
            }
            assert forall|k: Symbol|
                keys@.contains(k) && #[trigger] old(self)@[n as int].virt.dom().contains(k) && old(self)@[n as int].virt[k]
                    == m1 implies fin[n as int].virt[k] == m2 by {
                assert(fin[n as int].virt.dom().contains(k));
            }
        }
    }

    /// At node `n` and at every node below it, by real edges, whose set is
    /// within that of `m2`: every virtual edge that leads to `m1` under a
    /// key which `m2` has and the node has not is led to `m2`. No other
    /// edge changes, and nothing changes if the set of `n` is not within
    /// that of `m2`.
    pub(crate) fn fix_v_links_global(&mut self, n: usize, m1: usize, m2: usize)
        requires
            old(self).sound(),
            n < old(self)@.len(),
            m1 < old(self)@.len(),
            m2 < old(self)@.len(),
            m1 != m2,
            old(self)@[m2 as int].elements.subset_of(old(self)@[m1 as int].elements),
        ensures
            final(self).sound(),
            relinked_to(old(self)@, final(self)@, set![m2]),
            relinked_down(old(self)@, final(self)@),
            forall|x: int, k: Symbol|
                0 <= x < old(self)@.len() && reached(old(self)@, n as int, x) && old(self)@[x].elements.subset_of(
                    old(self)@[m2 as int].elements,
                ) && old(self)@[m2 as int].elements.contains(k)
                    && #[trigger] final(self)@[x].virt.dom().contains(k) ==> final(self)@[x].virt[k]
                    != m1,
            forall|x: int, k: Symbol|
                0 <= x < old(self)@.len() && #[trigger] final(self)@[x].virt.dom().contains(k) && final(self)@[x].virt[k]
                    != old(self)@[x].virt[k] ==> {
                    &&& old(self)@[x].virt[k] == m1
                    &&& final(self)@[x].virt[k] == m2
                    &&& old(self)@[m2 as int].elements.contains(k)
                    &&& reached(old(self)@, n as int, x)
                    &&& old(self)@[x].elements.subset_of(old(self)@[m2 as int].elements)
                },
            forall|x: int, k: Symbol|
                0 <= x < old(self)@.len() && reached(old(self)@, n as int, x) && old(self)@[x].elements.subset_of(
                    old(self)@[m2 as int].elements,
                ) && old(self)@[m2 as int].elements.contains(k) && #[trigger] old(self)@[x].virt.dom().contains(k)
                    && old(self)@[x].virt[k] == m1 ==> final(self)@[x].virt[k] == m2,
            !old(self)@[n as int].elements.subset_of(old(self)@[m2 as int].elements) ==> final(self)@
                == old(self)@,
        decreases distance(old(self)@, n as int, old(self)@[m2 as int].elements),
    {
        let ghost t = self@;
        proof {
            assert(node_ok(t, m2 as int));
            assert(node_ok(t, n as int));
        }
        if self.mop(m2).elements().is_superset(self.mop(n).elements()) {
            let big_c_r = self.mop(m2).elements().difference(self.mop(n).elements());
            self.relink(n, m1, m2, &big_c_r);
            let mut big_a = big_c_r.intersection(&self.mop(n).children_r().keys());
            proof {
                big_a.lemma_finite();
                let cur = self@;
                assert(cur[n as int].real == t[n as int].real);
                assert(node_ok(cur, n as int));
                assert forall|x: int, k: Symbol|
                    0 <= x < t.len() && visited(t, n as int, big_a@, x) && t[x].elements.subset_of(
                        t[m2 as int].elements,
                    ) && t[m2 as int].elements.contains(k) && #[trigger] cur[x].virt.dom().contains(k) implies cur[x].virt[k]
                    != m1 by {
                    if x == n {
                        assert(big_c_r@.contains(k));
                    } else {
                        let w = choose|w: Symbol|
                            #![trigger t[n as int].real.dom().contains(w)]
                            t[n as int].real.dom().contains(w) && !big_a@.contains(w) && reached(
                                t,
                                t[n as int].real[w] as int,
                                x,
                            );
                        assert(edge_ok(t, n as int, t[n as int].real[w] as int, w));
                        lemma_reached_within(t, t[n as int].real[w] as int, x);
                        assert(t[m2 as int].elements.contains(w));
                        assert(big_c_r@.contains(w));
                    }
                }
            }
            loop
                invariant
                    t == old(self)@,
                    self.sound(),
                    n < self@.len(),
                    m1 < self@.len(),
                    m2 < self@.len(),
                    m1 != m2,
                    t[m2 as int].elements.subset_of(t[m1 as int].elements),
                    relinked_to(t, self@, set![m2]),
                    relinked_down(t, self@),
                    big_a@.finite(),
                    big_a@.subset_of(t[n as int].real.dom()),
                    t[n as int].elements.subset_of(t[m2 as int].elements),
                    t[m2 as int].elements.finite(),
                    well_formed(t),
                    forall|x: int, k: Symbol|
                        0 <= x < t.len() && #[trigger] self@[x].virt.dom().contains(k) && self@[x].virt[k]
                            != t[x].virt[k] ==> {
                            &&& t[x].virt[k] == m1
                            &&& self@[x].virt[k] == m2
                            &&& t[m2 as int].elements.contains(k)
                            &&& reached(t, n as int, x)
                            &&& t[x].elements.subset_of(t[m2 as int].elements)
                        },
                    forall|x: int, k: Symbol|
                        0 <= x < t.len() && visited(t, n as int, big_a@, x) && t[x].elements.subset_of(
                            t[m2 as int].elements,
                        ) && t[m2 as int].elements.contains(k) && #[trigger] self@[x].virt.dom().contains(k)
                            ==> self@[x].virt[k] != m1,
                ensures
                    big_a@ == Set::<Symbol>::empty(),
                decreases big_a@.len(),
            {
                match big_a.first() {
                    None => {
                        break ;
                    },
                    Some(j) => {
                        let ghost cur = self@;
                        proof {
                            let a = cur[n as int];
                            assert(cur[n as int].real == t[n as int].real);
                        }
                        let (p, indices) = self.get_r_child_and_indices(n, j).unwrap();
                        proof {
                            assert(node_ok(t, n as int));
                            assert(edge_ok(t, n as int, p as int, j));
                            assert(cur[p as int].elements == t[p as int].elements);
                            assert(cur[m2 as int].elements == t[m2 as int].elements);
                            assert(cur[m1 as int].elements == t[m1 as int].elements);
                            lemma_distance_child(t, n as int, p as int, j, t[m2 as int].elements);
                            assert(distance(cur, p as int, cur[m2 as int].elements) == distance(
                                t,
                                p as int,
                                t[m2 as int].elements,
                            ));
                            lemma_real_indices(cur, n as int, p);
                        }
                        self.fix_v_links_global(p, m1, m2);
                        proof {
                            let fin = self@;
                            lemma_relinked_to_trans(t, cur, fin, set![m2], set![m2]);
                            assert(set![m2].union(set![m2]) =~= set![m2]);
                            lemma_relinked_down_trans(t, cur, fin);
                            let rest = big_a@.difference(indices@);
                            lemma_len_subset(rest, big_a@);
                            rest.lemma_subset_not_in_lt(big_a@, j);
                            assert(real_edges_kept(t, cur)) by {
                                assert forall|x: int| #![trigger cur[x]] 0 <= x < t.len() implies {
                                    &&& cur[x].elements == t[x].elements
                                    &&& forall|w: Symbol| #[trigger]
                                        t[x].real.dom().contains(w) ==> cur[x].real.dom().contains(w)
                                            && cur[x].real[w] == t[x].real[w]
                                } by {}
                            }
                            assert forall|x: int, k: Symbol|
                                0 <= x < t.len() && #[trigger] fin[x].virt.dom().contains(k) && fin[x].virt[k]
                                    != t[x].virt[k] implies {
                                &&& t[x].virt[k] == m1
                                &&& fin[x].virt[k] == m2
                                &&& t[m2 as int].elements.contains(k)
                                &&& reached(t, n as int, x)
                                &&& t[x].elements.subset_of(t[m2 as int].elements)
                            } by {
                                let a = cur[x];
                                assert(cur[x].virt.dom().contains(k));
                                assert(cur[x].elements == t[x].elements);
                                if fin[x].virt[k] != cur[x].virt[k] {
                                    assert(reached(cur, p as int, x));
                                    assert(real_edges_kept(cur, t)) by {
                                        assert forall|y: int| #![trigger t[y]] 0 <= y < cur.len() implies {
                                            &&& t[y].elements == cur[y].elements
                                            &&& forall|w: Symbol| #[trigger]
                                                cur[y].real.dom().contains(w) ==> t[y].real.dom().contains(w)
                                                    && t[y].real[w] == cur[y].real[w]
                                        } by {
                                            let b = cur[y];
                                        }
                                    }
                                    lemma_reached_kept(cur, t, p as int, x);
                                    lemma_reached_edge(t, n as int, j);
                                    lemma_reached_trans(t, n as int, p as int, x);
                                }
                            }
                            assert forall|x: int, k: Symbol|
                                0 <= x < t.len() && visited(t, n as int, rest, x) && t[x].elements.subset_of(
                                    t[m2 as int].elements,
                                ) && t[m2 as int].elements.contains(k) && #[trigger] fin[x].virt.dom().contains(
                                    k,
                                ) implies fin[x].virt[k] != m1 by {
                                let a = cur[x];
                                assert(cur[x].virt.dom().contains(k));
                                assert(cur[x].elements == t[x].elements);
                                if visited(t, n as int, big_a@, x) {
                                    assert(cur[x].virt[k] != m1);
                                } else {
                                    let w = choose|w: Symbol|
                                        #![trigger t[n as int].real.dom().contains(w)]
                                        t[n as int].real.dom().contains(w) && !rest.contains(w) && reached(
                                            t,
                                            t[n as int].real[w] as int,
                                            x,
                                        );
                                    if !big_a@.contains(w) {
                                        assert(visited(t, n as int, big_a@, x));
                                    }
                                    assert(indices@.contains(w));
                                    assert(t[n as int].real[w] == p);
                                    lemma_reached_kept(t, cur, p as int, x);
                                }
                            }
                        }
                        big_a = big_a.difference(&indices);
                    },
                }
            }
            proof {
                let fin = self@;
                assert forall|x: int, k: Symbol|
                    0 <= x < t.len() && reached(t, n as int, x) && t[x].elements.subset_of(
                        t[m2 as int].elements,
                    ) && t[m2 as int].elements.contains(k) && #[trigger] fin[x].virt.dom().contains(k) implies fin[x].virt[k]
                    != m1 by {
                    lemma_visited_all(t, n as int, x);
                }
                assert forall|x: int, k: Symbol|
                    0 <= x < t.len() && reached(t, n as int, x) && t[x].elements.subset_of(
                        t[m2 as int].elements,
                    ) && t[m2 as int].elements.contains(k) && #[trigger] t[x].virt.dom().contains(k) && t[x].virt[k]
                        == m1 implies fin[x].virt[k] == m2 by {
                    let a = fin[x];
                    assert(fin[x].virt.dom().contains(k));
                }
            }
        } else {
            proof {
                lemma_no_relink(t);
                assert forall|x: int|
                    0 <= x < t.len() && reached(t, n as int, x) implies !t[x].elements.subset_of(
                    t[m2 as int].elements,
                ) by {
                    lemma_reached_within(t, n as int, x);
                }
            }
        }
    }

    /// Leads the virtual edges that lead to the replaced node `p` to its
    /// new node `m`, in `m` itself for every pair found so far and then
    /// from the root down for the pair of `p` and `m`, and adds that pair
    /// to `pairs`. Edges under keys outside `e` are kept.
    pub(crate) fn fix_v_links(
        &mut self,
        p: usize,
        m: usize,
        pairs: &mut Vec<(usize, usize)>,
        Ghost(e): Ghost<Set<Symbol>>,
    )
        requires
            old(self).sound(),
            connected(old(self)@),
            p < old(self)@.len(),
            m < old(self)@.len(),
            old(self)@[m as int].elements.subset_of(e),
            old(self)@[m as int].elements.subset_of(old(self)@[p as int].elements),
            e.finite(),
            pairs_fit(old(pairs)@, old(self)@, e),
            sorted_out(old(self)@, old(pairs)@, e, m as int),
            pair_stands(old(self)@, (p, m), e),
            done_real(old(self)@, (p, m)),
        ensures
            final(self).sound(),
            relinked(old(self)@, final(self)@),
            advances(old(self)@, final(self)@, e, 2),
            forall|n: int| quiet_but(old(self)@, final(self)@, e, 2, n),
            forall|x: int, j: Symbol|
                0 <= x < old(self)@.len() && #[trigger] final(self)@[x].virt.dom().contains(j)
                    ==> final(self)@[x].virt[j] == old(self)@[x].virt[j]
                    || final(self)@[final(self)@[x].virt[j] as int].elements.subset_of(e),
            pairs_fit(final(pairs)@, final(self)@, e),
            final(pairs)@ == old(pairs)@.push((p, m)),
            sorted_out(final(self)@, final(pairs)@, e, -1),
            kept_beyond(old(self)@, final(self)@, e),
    {
        let ghost t = self@;
        let count: usize = self.node_count();
        proof {
            assert forall|i: int, j: int|
                0 <= i < pairs@.len() && 0 <= j < pairs@.len() implies (#[trigger] pairs@[i]).0 != (
            #[trigger] pairs@[j]).1 by {
                assert(pair_stands(t, pairs@[i], e));
                assert(pair_stands(t, pairs@[j], e));
            }
        }
        self.fix_v_links_local(m, pairs);
        let ghost mid = self@;
        proof {
            assert(mid[m as int].elements == t[m as int].elements);
            assert(mid[p as int].elements == t[p as int].elements);
        }
        self.fix_v_links_global(0, p, m);
        proof {
            let fin = self@;
            let targets = seconds(pairs@).union(set![m]);
            lemma_relinked_to_trans(t, mid, fin, seconds(pairs@), set![m]);
            lemma_relinked_down_trans(t, mid, fin);
            assert forall|x: usize| targets.contains(x) implies x < t.len() && t[x as int].elements.subset_of(
                e,
            ) by {
                if seconds(pairs@).contains(x) {
                    let i = choose|i: int| 0 <= i < pairs@.len() && (#[trigger] pairs@[i]).1 == x;
                    assert(pairs@[i].1 < t.len());
                }
            }
            lemma_relinked_advances(t, fin, e, 2, targets);
            lemma_pairs_fit_grown(pairs@, t, fin, e);
            assert forall|x: int, j: Symbol|
                0 <= x < t.len() && #[trigger] fin[x].virt.dom().contains(j) implies fin[x].virt[j]
                == t[x].virt[j] || fin[fin[x].virt[j] as int].elements.subset_of(e) by {
                if fin[x].virt[j] != t[x].virt[j] {
                    assert(targets.contains(fin[x].virt[j]));
                    assert(fin[fin[x].virt[j] as int].elements == t[fin[x].virt[j] as int].elements);
                }
            }
            assert forall|x: int, k: Symbol|
                0 <= x < t.len() && #[trigger] fin[x].virt.dom().contains(k) && fin[x].virt[k]
                    != t[x].virt[k] implies e.contains(k) by {
                assert(targets.contains(fin[x].virt[k]));
            }
            assert(kept_beyond(t, fin, e)) by {
                assert forall|x: int, k: Symbol|
                    0 <= x < t.len() && !e.contains(k) && #[trigger] t[x].real.dom().contains(k) implies fin[x].real.dom().contains(
                    k,
                ) && fin[x].real[k] == t[x].real[k] by {
                    let a = fin[x];
                }
                assert forall|x: int, k: Symbol|
                    0 <= x < t.len() && !e.contains(k) && #[trigger] t[x].virt.dom().contains(k) implies fin[x].virt.dom().contains(
                    k,
                ) && fin[x].virt[k] == t[x].virt[k] by {
                    let a = fin[x];
                    assert(fin[x].virt.dom().contains(k));
                }
            }
            assert forall|i: int, k: Symbol|
                0 <= i < pairs@.len() && t[m as int].elements.subset_of(t[pairs@[i].1 as int].elements)
                    && t[pairs@[i].1 as int].elements.contains(k) && #[trigger] fin[m as int].virt.dom().contains(
                    k,
                ) implies fin[m as int].virt[k] != (#[trigger] pairs@[i]).0 by {
                let a = mid[m as int];
                assert(mid[m as int].virt.dom().contains(k));
                assert(mid[m as int].virt[k] != pairs@[i].0);
                assert(pair_stands(t, pairs@[i], e));
                if fin[m as int].virt[k] != mid[m as int].virt[k] {
                    assert(fin[m as int].virt[k] == m);
                }
            }
            assert(done_virt(fin, (p, m), -1)) by {
                assert forall|x: int, k: Symbol|
                    0 <= x < fin.len() && x != -1 && fin[x].elements.subset_of(fin[m as int].elements)
                        && fin[m as int].elements.contains(k) && #[trigger] fin[x].virt.dom().contains(
                        k,
                    ) implies fin[x].virt[k] != p by {
                    assert(reached(t, 0, x));
                    assert(real_edges_kept(t, mid)) by {
                        assert forall|y: int| #![trigger mid[y]] 0 <= y < t.len() implies {
                            &&& mid[y].elements == t[y].elements
                            &&& forall|w: Symbol| #[trigger]
                                t[y].real.dom().contains(w) ==> mid[y].real.dom().contains(w)
                                    && mid[y].real[w] == t[y].real[w]
                        } by {}
                    }
                    lemma_reached_kept(t, mid, 0, x);
                    assert(fin[x].elements == mid[x].elements);
                    assert(fin[m as int].elements == mid[m as int].elements);
                }
            }
            lemma_fixed_sorted(t, fin, pairs@, e, p, m, targets);
        }
        pairs.push((p, m));
        proof {
            let fin = self@;
            assert(fin[m as int].elements == t[m as int].elements);
            assert(fin[p as int].elements == t[p as int].elements);
            assert forall|i: int| 0 <= i < pairs@.len() implies {
                &&& (#[trigger] pairs@[i]).0 < fin.len()
                &&& pairs@[i].1 < fin.len()
                &&& fin[pairs@[i].1 as int].elements.subset_of(e)
                &&& fin[pairs@[i].1 as int].elements.subset_of(fin[pairs@[i].0 as int].elements)
            } by {
                if i < old(pairs)@.len() {
                    assert(pairs@[i] == old(pairs)@[i]);
                }
            }
        }
    }

    /// Prepares the part of the tree under node `n` for `excerpt`: each real
    /// child of `n` under a key of `excerpt` is made compatible with it. A
    /// child that is not gets a new node put before it, which takes over its
    /// keys in `excerpt`; a child that is gets prepared in turn. Each pair
    /// of a replaced child and its new node is added to `pairs`, behind
    /// the pairs that were there. Every edge of the tree under a key
    /// outside `excerpt` is kept, with the child it led to.
    pub(crate) fn reorganize_real(
        &mut self,
        n: usize,
        excerpt: &OrderedSet,
        pairs: &mut Vec<(usize, usize)>,
    )
        requires
            old(self).sound(),
            connected(old(self)@),
            unique_parent(old(self)@),
            n < old(self)@.len(),
            old(self)@[n as int].elements.subset_of(excerpt@),
            pairs_fit(old(pairs)@, old(self)@, excerpt@),
            sorted_out(old(self)@, old(pairs)@, excerpt@, -1),
        ensures
            final(self).sound(),
            advances(old(self)@, final(self)@, excerpt@, 1),
            ready(final(self)@, n as int, excerpt@, 1),
            real_kept_outside(old(self)@, final(self)@, n as int),
            pairs_fit(final(pairs)@, final(self)@, excerpt@),
            sorted_out(final(self)@, final(pairs)@, excerpt@, -1),
            hatched(old(self)@, final(self)@, old(pairs)@, final(pairs)@),
            strengths_kept(old(self)@, final(self)@),
            ready(old(self)@, n as int, excerpt@, 1) ==> final(self)@ == old(self)@,
            kept_beyond(old(self)@, final(self)@, excerpt@),
            old(pairs)@.is_prefix_of(final(pairs)@),
        decreases excerpt@.difference(old(self)@[n as int].elements).len(),
    {
        let ghost t = self@;
        let ghost e = excerpt@;
        proof {
            excerpt.lemma_finite();
            lemma_start(t, e, 1);
            lemma_prefix_push(pairs@, (0, 0));
        }
        let mut big_a = excerpt.intersection(&self.mop(n).children_r().keys());
        proof {
            big_a.lemma_finite();
        }
        loop
            invariant
                t == old(self)@,
                e == excerpt@,
                e.finite(),
                well_formed(t),
                n < t.len(),
                self.sound(),
                advances(t, self@, e, 1),
                real_kept_outside(t, self@, n as int),
                pairs_fit(pairs@, self@, e),
                strengths_kept(t, self@),
                connected(t),
                unique_parent(t),
                sorted_out(self@, pairs@, e, -1),
                hatched(t, self@, old(pairs)@, pairs@),
                kept_beyond(t, self@, e),
                old(pairs)@.is_prefix_of(pairs@),
                big_a@.finite(),
                big_a@.subset_of(e),
                big_a@.subset_of(self@[n as int].real.dom()),
                t[n as int].elements.subset_of(e),
                forall|k: Symbol|
                    e.contains(k) && #[trigger] self@[n as int].real.dom().contains(k) ==> big_a@.contains(
                        k,
                    ) || ready(self@, self@[n as int].real[k] as int, e, 1),
                ready(t, n as int, e, 1) ==> self@ == t,
            ensures
                big_a@ == Set::<Symbol>::empty(),
            decreases big_a@.len(),
        {
            match big_a.first() {
                None => {
                    break ;
                },
                Some(j) => {
                    let ghost cur = self@;
                    proof {
                        assert(cur[n as int].elements == t[n as int].elements);
                        assert(node_ok(cur, n as int));
                    }
                    let (p, big_i) = self.get_r_child_and_indices(n, j).unwrap();
                    proof {
                        assert(edge_ok(cur, n as int, p as int, j));
                        lemma_real_indices(cur, n as int, p);
                        if ready(t, n as int, e, 1) {
                            assert(ready(cur, p as int, e, 1));
                        }
                    }
                    if !excerpt.is_superset(&big_i) {
                        let ghost keys = e.intersect(real_indices(cur, n as int, p));
                        self.split(n, j, excerpt);
                        proof {
                            assert(keys.contains(j));
                            let k = choose|k: Symbol| big_i@.contains(k) && !e.contains(k);
                            assert(real_indices(cur, n as int, p).contains(k) && !keys.contains(k));
                            assert(cur[p as int].elements.contains(k));
                            lemma_wedge_advances(cur, n as int, p, e, false, keys, false, j);
                            lemma_pairs_fit_grown(pairs@, cur, self@, e);
                            assert(crate::model::child(cur, n as int, j) == Some(p));
                            lemma_wedge_sorted(cur, pairs@, n as int, p, e, false, keys, false, j);
                        }
                        let m: usize = self.mop(n).get_r_child(j).unwrap();
                        let ghost mid = self@;
                        let ghost before_pairs = pairs@;
                        self.fix_v_links(p, m, pairs, Ghost(e));
                        proof {
                            lemma_hatched_push(cur, self@, before_pairs, p);
                            lemma_hatched_trans(t, cur, self@, old(pairs)@, before_pairs, pairs@);
                            lemma_wedge_beyond(cur, n as int, p, e, false, keys, false);
                            lemma_kept_beyond_trans(cur, mid, self@, e);
                            lemma_kept_beyond_trans(t, cur, self@, e);
                            lemma_prefix_push(before_pairs, (p, m));
                            lemma_prefix_trans(old(pairs)@, before_pairs, pairs@);
                            lemma_after_wedge(t, cur, mid, self@, n as int, p, e, keys, big_a@, j);
                            lemma_relinked_strengths(mid, self@);
                            lemma_strengths_kept_trans(cur, mid, self@);
                            lemma_strengths_kept_trans(t, cur, self@);
                        }
                    } else if !excerpt.is_superset(
                        &self.mop(p).elements().difference(self.mop(n).elements()),
                    ) {
                        let ghost keys = real_indices(cur, n as int, p);
                        self.interpose_real(n, j, excerpt);
                        proof {
                            assert(keys.contains(j));
                            lemma_wedge_advances(cur, n as int, p, e, true, keys, false, j);
                            lemma_pairs_fit_grown(pairs@, cur, self@, e);
                            assert(crate::model::child(cur, n as int, j) == Some(p));
                            lemma_wedge_sorted(cur, pairs@, n as int, p, e, true, keys, false, j);
                        }
                        let m: usize = self.mop(n).get_r_child(j).unwrap();
                        let ghost mid = self@;
                        let ghost before_pairs = pairs@;
                        self.fix_v_links(p, m, pairs, Ghost(e));
                        proof {
                            lemma_hatched_push(cur, self@, before_pairs, p);
                            lemma_hatched_trans(t, cur, self@, old(pairs)@, before_pairs, pairs@);
                            lemma_wedge_beyond(cur, n as int, p, e, true, keys, false);
                            lemma_kept_beyond_trans(cur, mid, self@, e);
                            lemma_kept_beyond_trans(t, cur, self@, e);
                            lemma_prefix_push(before_pairs, (p, m));
                            lemma_prefix_trans(old(pairs)@, before_pairs, pairs@);
                            lemma_after_wedge(t, cur, mid, self@, n as int, p, e, keys, big_a@, j);
                            lemma_relinked_strengths(mid, self@);
                            lemma_strengths_kept_trans(cur, mid, self@);
                            lemma_strengths_kept_trans(t, cur, self@);
                        }
                    } else {
                        proof {
                            assert(cur[p as int].elements.subset_of(e)) by {
                                assert forall|x: Symbol| cur[p as int].elements.contains(x) implies e.contains(x) by {
                                    if !cur[n as int].elements.contains(x) {
                                        assert(cur[p as int].elements.difference(cur[n as int].elements).contains(x));
                                    }
                                }
                            }
                            lemma_less_left(e, cur[n as int].elements, cur[p as int].elements, j);
                        }
                        let ghost before_pairs = pairs@;
                        self.reorganize_real(p, excerpt, pairs);
                        proof {
                            lemma_hatched_trans(t, cur, self@, old(pairs)@, before_pairs, pairs@);
                            lemma_kept_beyond_trans(t, cur, self@, e);
                            lemma_prefix_trans(old(pairs)@, before_pairs, pairs@);
                            lemma_advances_trans(t, cur, self@, e, 1);
                            lemma_strengths_kept_trans(t, cur, self@);
                            let fin = self@;
                            assert(!cur[p as int].elements.subset_of(cur[n as int].elements));
                            assert(fin[n as int].real == cur[n as int].real);
                            assert forall|x: int|
                                #![trigger fin[x]]
                                0 <= x < t.len() && !t[n as int].elements.subset_of(t[x].elements) implies fin[x].real == t[x].real by {
                                assert(cur[x].elements == t[x].elements);
                                assert(!cur[p as int].elements.subset_of(cur[x].elements));
                            }
                            assert forall|k: Symbol|
                                e.contains(k) && #[trigger] fin[n as int].real.dom().contains(k) implies big_a@.difference(big_i@).contains(k)
                                || ready(fin, fin[n as int].real[k] as int, e, 1) by {
                                if big_i@.contains(k) {
                                    assert(fin[n as int].real[k] == p);
                                } else if !big_a@.contains(k) {
                                    assert(ready(cur, cur[n as int].real[k] as int, e, 1));
                                    lemma_ready_step(cur, fin, e, 1, cur[n as int].real[k] as int);
                                }
                            }
                        }
                    }
                    proof {
                        let rest = big_a@.difference(big_i@);
                        lemma_len_subset(rest, big_a@);
                        rest.lemma_subset_not_in_lt(big_a@, j);
                    }
                    big_a = big_a.difference(&big_i);
                },
            }
        }
        proof {
            lemma_children_ready(self@, n as int, e, 1);
        }
    }

    /// Prepares the virtual edges of the part of the tree that `excerpt`
    /// reaches from node `n` by real edges: a virtual child of a node of
    /// that part, under a key of `excerpt`, that is not compatible with the
    /// excerpt gets a new node put before it, which becomes a real child.
    /// Each pair of a replaced child and its new node is added to `pairs`,
    /// behind the pairs that were there. Every edge of the tree under a
    /// key outside `excerpt` is kept, with the child it led to.
    pub(crate) fn reorganize_virtual(
        &mut self,
        n: usize,
        excerpt: &OrderedSet,
        pairs: &mut Vec<(usize, usize)>,
    )
        requires
            old(self).sound(),
            connected(old(self)@),
            unique_parent(old(self)@),
            real_settled(old(self)@, excerpt@),
            n < old(self)@.len(),
            ready(old(self)@, n as int, excerpt@, 1),
            pairs_fit(old(pairs)@, old(self)@, excerpt@),
            sorted_out(old(self)@, old(pairs)@, excerpt@, -1),
        ensures
            final(self).sound(),
            advances(old(self)@, final(self)@, excerpt@, 2),
            ready(final(self)@, n as int, excerpt@, 2),
            real_kept_outside(old(self)@, final(self)@, n as int),
            pairs_fit(final(pairs)@, final(self)@, excerpt@),
            sorted_out(final(self)@, final(pairs)@, excerpt@, -1),
            hatched(old(self)@, final(self)@, old(pairs)@, final(pairs)@),
            real_settled(final(self)@, excerpt@),
            strengths_kept(old(self)@, final(self)@),
            ready(old(self)@, n as int, excerpt@, 2) ==> final(self)@ == old(self)@,
            kept_beyond(old(self)@, final(self)@, excerpt@),
            old(pairs)@.is_prefix_of(final(pairs)@),
        decreases excerpt@.difference(old(self)@[n as int].elements).len(),
    {
        let ghost t = self@;
        let ghost e = excerpt@;
        proof {
            excerpt.lemma_finite();
            lemma_start(t, e, 1);
            lemma_prefix_push(pairs@, (0, 0));
            lemma_start(t, e, 2);
        }
        let mut big_a_v = excerpt.intersection(&self.mop(n).children_v().keys());
        proof {
            big_a_v.lemma_finite();
        }
        loop
            invariant
                t == old(self)@,
                e == excerpt@,
                e.finite(),
                well_formed(t),
                n < t.len(),
                self.sound(),
                advances(t, self@, e, 1),
                quiet_but(t, self@, e, 2, n as int),
                pairs_fit(pairs@, self@, e),
                strengths_kept(t, self@),
                connected(t),
                unique_parent(t),
                sorted_out(self@, pairs@, e, -1),
                hatched(t, self@, old(pairs)@, pairs@),
                kept_beyond(t, self@, e),
                old(pairs)@.is_prefix_of(pairs@),
                real_settled(self@, e),
                big_a_v@.finite(),
                big_a_v@.subset_of(e),
                big_a_v@.subset_of(self@[n as int].virt.dom()),
                t[n as int].elements.subset_of(e),
                forall|k: Symbol|
                    e.contains(k) && #[trigger] self@[n as int].virt.dom().contains(k) ==> big_a_v@.contains(
                        k,
                    ) || self@[self@[n as int].virt[k] as int].elements.subset_of(e),
                ready(t, n as int, e, 2) ==> self@ == t,
            ensures
                big_a_v@ == Set::<Symbol>::empty(),
            decreases big_a_v@.len(),
        {
            match big_a_v.first() {
                None => {
                    break ;
                },
                Some(j) => {
                    let ghost cur = self@;
                    proof {
                        assert(cur[n as int].elements == t[n as int].elements);
                        assert(node_ok(cur, n as int));
                    }
                    let (p_v, indices_v) = self.get_v_child_and_indices(n, j).unwrap();
                    proof {
                        assert(edge_ok(cur, n as int, p_v as int, j));
                        lemma_virt_indices(cur, n as int, p_v);
                    }
                    if excerpt.is_superset(self.mop(p_v).elements()) {
                        proof {
                            let rest = big_a_v@.difference(indices_v@);
                            lemma_len_subset(rest, big_a_v@);
                            rest.lemma_subset_not_in_lt(big_a_v@, j);
                        }
                        big_a_v = big_a_v.difference(&indices_v);
                    } else {
                        let ghost keys = e.intersect(virt_indices(cur, n as int, p_v));
                        proof {
                            if ready(t, n as int, e, 2) {
                                assert(local_ok(cur, n as int, e, 2));
                            }
                        }
                        self.interpose_virtual(n, j, excerpt);
                        let ghost mid = self@;
                        proof {
                            assert(keys.contains(j));
                            lemma_wedge_advances(cur, n as int, p_v, e, false, keys, true, j);
                            lemma_pairs_fit_grown(pairs@, cur, mid, e);
                            assert(crate::model::child(cur, n as int, j) == Some(p_v));
                            lemma_wedge_sorted(cur, pairs@, n as int, p_v, e, false, keys, true, j);
                        }
                        let (m, indices) = self.get_r_child_and_indices(n, j).unwrap();
                        let ghost before_pairs = pairs@;
                        self.fix_v_links(p_v, m, pairs, Ghost(e));
                        proof {
                            let fin = self@;
                            lemma_hatched_push(cur, fin, before_pairs, p_v);
                            lemma_hatched_trans(t, cur, fin, old(pairs)@, before_pairs, pairs@);
                            lemma_wedge_beyond(cur, n as int, p_v, e, false, keys, true);
                            lemma_kept_beyond_trans(cur, mid, fin, e);
                            lemma_kept_beyond_trans(t, cur, fin, e);
                            lemma_prefix_push(before_pairs, (p_v, m));
                            lemma_prefix_trans(old(pairs)@, before_pairs, pairs@);
                            lemma_relinked_settled(mid, fin, e);
                            lemma_relinked_strengths(mid, fin);
                            lemma_strengths_kept_trans(cur, mid, fin);
                            lemma_strengths_kept_trans(t, cur, fin);
                            lemma_advances_earlier(mid, fin, e, 2, 1);
                            lemma_advances_trans(cur, mid, fin, e, 1);
                            lemma_advances_trans(t, cur, fin, e, 1);
                            lemma_quiet_trans(cur, mid, fin, e, 2, n as int);
                            lemma_quiet_trans(t, cur, fin, e, 2, n as int);
                            let rest = big_a_v@.difference(indices@);
                            lemma_len_subset(rest, big_a_v@);
                            rest.lemma_subset_not_in_lt(big_a_v@, j);
                            assert(fin[n as int].virt.dom() == mid[n as int].virt.dom());
                            assert(node_ok(fin, n as int));
                            assert(fin[n as int].real == mid[n as int].real);
                            assert forall|k: Symbol| rest.contains(k) implies fin[n as int].virt.dom().contains(k) by {
                                assert(cur[n as int].virt.dom().contains(k));
                                if keys.contains(k) {
                                    assert(mid[n as int].real[k] == m);
                                    assert(real_indices(mid, n as int, m).contains(k));
                                }
                            }
                            assert forall|k: Symbol|
                                e.contains(k) && #[trigger] fin[n as int].virt.dom().contains(k) implies rest.contains(k)
                                || fin[fin[n as int].virt[k] as int].elements.subset_of(e) by {
                                assert(mid[n as int].virt.dom().contains(k));
                                assert(cur[n as int].virt.dom().contains(k));
                                assert(!keys.contains(k));
                                if indices@.contains(k) {
                                    assert(mid[n as int].real.dom().contains(k));
                                    assert(fin[n as int].real.dom().contains(k));
                                } else if !big_a_v@.contains(k) {
                                    assert(cur[cur[n as int].virt[k] as int].elements.subset_of(e));
                                    assert(local_ok(mid, n as int, e, 1));
                                    lemma_virtual_child_compatible(cur, mid, fin, n as int, k, e);
                                }
                            }
                        }
                        big_a_v = big_a_v.difference(&indices);
                    }
                },
            }
        }
        let ghost after_v = self@;
        proof {
            lemma_quiet_step(t, after_v, e, 2, n as int);
            assert(local_ok(after_v, n as int, e, 2));
        }
        let mut big_a = excerpt.intersection(&self.mop(n).children_r().keys());
        proof {
            big_a.lemma_finite();
        }
        loop
            invariant
                t == old(self)@,
                e == excerpt@,
                e.finite(),
                well_formed(t),
                n < t.len(),
                ready(t, n as int, e, 1),
                self.sound(),
                advances(t, self@, e, 1),
                step_ok(t, self@, e, 2, n as int),
                real_kept_outside(t, self@, n as int),
                local_ok(self@, n as int, e, 2),
                pairs_fit(pairs@, self@, e),
                strengths_kept(t, self@),
                connected(t),
                unique_parent(t),
                sorted_out(self@, pairs@, e, -1),
                hatched(t, self@, old(pairs)@, pairs@),
                kept_beyond(t, self@, e),
                old(pairs)@.is_prefix_of(pairs@),
                real_settled(self@, e),
                big_a@.finite(),
                big_a@.subset_of(e),
                big_a@.subset_of(self@[n as int].real.dom()),
                forall|k: Symbol|
                    e.contains(k) && #[trigger] self@[n as int].real.dom().contains(k) ==> big_a@.contains(
                        k,
                    ) || ready(self@, self@[n as int].real[k] as int, e, 2),
                ready(t, n as int, e, 2) ==> self@ == t,
            ensures
                big_a@ == Set::<Symbol>::empty(),
            decreases big_a@.len(),
        {
            match big_a.first() {
                None => {
                    break ;
                },
                Some(j) => {
                    let ghost cur = self@;
                    proof {
                        assert(cur[n as int].elements == t[n as int].elements);
                        lemma_ready_step(t, cur, e, 1, n as int);
                    }
                    let (p, indices) = self.get_r_child_and_indices(n, j).unwrap();
                    proof {
                        assert(cur[n as int].real.dom().contains(j));
                        assert(ready(cur, p as int, e, 1));
                        lemma_real_indices(cur, n as int, p);
                        if ready(t, n as int, e, 2) {
                            assert(ready(cur, p as int, e, 2));
                        }
                    }
                    let ghost before_pairs = pairs@;
                    self.reorganize_virtual(p, excerpt, pairs);
                    proof {
                        let fin = self@;
                        lemma_hatched_trans(t, cur, fin, old(pairs)@, before_pairs, pairs@);
                        lemma_kept_beyond_trans(t, cur, fin, e);
                        lemma_prefix_trans(old(pairs)@, before_pairs, pairs@);
                        lemma_strengths_kept_trans(t, cur, fin);
                        lemma_advances_earlier(cur, fin, e, 2, 1);
                        lemma_advances_trans(t, cur, fin, e, 1);
                        lemma_step_trans(t, cur, fin, e, 2, n as int);
                        let rest = big_a@.difference(indices@);
                        lemma_len_subset(rest, big_a@);
                        rest.lemma_subset_not_in_lt(big_a@, j);
                        assert(node_ok(cur, n as int));
                        assert(edge_ok(cur, n as int, p as int, j));
                        assert(!cur[p as int].elements.subset_of(cur[n as int].elements));
                        assert(fin[n as int].real == cur[n as int].real);
                        assert forall|x: int|
                            #![trigger fin[x]]
                            0 <= x < t.len() && !t[n as int].elements.subset_of(t[x].elements) implies fin[x].real == t[x].real by {
                            assert(cur[x].elements == t[x].elements);
                            assert(!cur[p as int].elements.subset_of(cur[x].elements));
                        }
                        assert(local_ok(cur, n as int, e, 2));
                        assert forall|k: Symbol|
                            e.contains(k) && #[trigger] fin[n as int].real.dom().contains(k) implies rest.contains(k)
                            || ready(fin, fin[n as int].real[k] as int, e, 2) by {
                            if indices@.contains(k) {
                                assert(fin[n as int].real[k] == p);
                            } else if !big_a@.contains(k) {
                                assert(ready(cur, cur[n as int].real[k] as int, e, 2));
                                lemma_ready_step(cur, fin, e, 2, cur[n as int].real[k] as int);
                            }
                        }
                    }
                    big_a = big_a.difference(&indices);
                },
            }
        }
        proof {
            let fin = self@;
            lemma_children_ready(fin, n as int, e, 2);
            assert forall|x: int, k: Symbol|
                0 <= x < t.len() && e.contains(k) && #[trigger] fin[x].real.dom().contains(k) implies {
                ||| (t[x].real.dom().contains(k) && t[x].real[k] == fin[x].real[k])
                ||| ready(fin, fin[x].real[k] as int, e, 2)
            } by {}
        }
    }
}

/// A relinking keeps the real children of compatible nodes compatible.
proof fn lemma_relinked_settled(t: Seq<MopView>, t2: Seq<MopView>, e: Set<Symbol>)
    requires
        well_formed(t),
        relinked(t, t2),
        real_settled(t, e),
    ensures
        real_settled(t2, e),
{
    assert forall|x: int, k: Symbol|
        0 <= x < t2.len() && t2[x].elements.subset_of(e) && e.contains(k)
            && #[trigger] t2[x].real.dom().contains(k) implies t2[t2[x].real[k] as int].elements.subset_of(
        e,
    ) by {
        assert(t2[x].real == t[x].real);
        assert(t2[x].elements == t[x].elements);
        assert(t[x].real.dom().contains(k));
        let c = t[x].real[k] as int;
        assert(node_ok(t, x));
        assert(edge_ok(t, x, c, k));
        assert(t[c].elements.subset_of(e));
        assert(t2[c].elements == t[c].elements);
    }
}

/// A tree is a relinking of itself.
proof fn lemma_no_relink(t: Seq<MopView>)
    requires
        well_formed(t),
    ensures
        forall|targets: Set<usize>| relinked_to(t, t, targets),
        relinked_down(t, t),
{
    assert forall|x: int| #![trigger t[x]] 0 <= x < t.len() implies {
        &&& t[x] == (MopView { virt: t[x].virt, ..t[x] })
        &&& t[x].virt.dom() == t[x].virt.dom()
    } by {}
}

/// Nothing has changed yet: the tree advances to itself.
proof fn lemma_start(t: Seq<MopView>, e: Set<Symbol>, phase: int)
    ensures
        advances(t, t, e, phase),
        forall|n: int| quiet_but(t, t, e, phase, n),
        forall|n: int| real_kept_outside(t, t, n),
        strengths_kept(t, t),
{
}

/// A node whose set lies within `e`, at which what the phase asks holds,
/// and all of whose real children under keys of `e` are through the
/// phase, is through the phase.
proof fn lemma_children_ready(t: Seq<MopView>, n: int, e: Set<Symbol>, phase: int)
    requires
        well_formed(t),
        0 <= n < t.len(),
        e.finite(),
        local_ok(t, n, e, phase),
        forall|k: Symbol|
            e.contains(k) && #[trigger] t[n].real.dom().contains(k) ==> ready(
                t,
                t[n].real[k] as int,
                e,
                phase,
            ),
    ensures
        ready(t, n, e, phase),
{
    assert(node_ok(t, n));
    assert forall|j: Symbol|
        #![trigger t[n].real.dom().contains(j)]
        e.contains(j) && t[n].real.dom().contains(j) implies {
        let c = t[n].real[j] as int;
        &&& 0 <= c < t.len()
        &&& e.difference(t[c].elements).len() < e.difference(t[n].elements).len()
        &&& ready(t, c, e, phase)
    } by {
        let c = t[n].real[j] as int;
        assert(edge_ok(t, n, c, j));
        assert(ready(t, c, e, phase));
        lemma_less_left(e, t[n].elements, t[c].elements, j);
    }
}

/// A virtual child of `n` under `k` that was compatible, and whose key was
/// not taken over, is compatible after the relinking: the edge leads where
/// it led, or to a compatible node.
proof fn lemma_virtual_child_compatible(
    cur: Seq<MopView>,
    mid: Seq<MopView>,
    fin: Seq<MopView>,
    n: int,
    k: Symbol,
    e: Set<Symbol>,
)
    requires
        well_formed(cur),
        well_formed(mid),
        well_formed(fin),
        0 <= n < cur.len(),
        quiet_but(cur, mid, e, 2, n),
        quiet_but(mid, fin, e, 2, n),
        cur[n].virt.dom().contains(k),
        mid[n].virt.dom().contains(k),
        mid[n].virt[k] == cur[n].virt[k],
        fin[n].virt.dom().contains(k),
        e.contains(k),
        cur[cur[n].virt[k] as int].elements.subset_of(e),
        relinked(mid, fin),
        forall|x: int, j: Symbol|
            0 <= x < mid.len() && #[trigger] fin[x].virt.dom().contains(j) ==> fin[x].virt[j]
                == mid[x].virt[j] || fin[fin[x].virt[j] as int].elements.subset_of(e),
    ensures
        fin[fin[n].virt[k] as int].elements.subset_of(e),
{
    assert(node_ok(cur, n));
    assert(edge_ok(cur, n, cur[n].virt[k] as int, k));
    let c = cur[n].virt[k] as int;
    assert(mid[c].elements == cur[c].elements);
    assert(fin[c].elements == mid[c].elements);
}

/// After a new node has been wedged in at node `n` for the keys `keys` and
/// virtual edges have been relinked, the loop over the keys of `n` can go on
/// without the keys that led to the replaced child.
proof fn lemma_after_wedge(
    t: Seq<MopView>,
    cur: Seq<MopView>,
    mid: Seq<MopView>,
    fin: Seq<MopView>,
    n: int,
    p: usize,
    e: Set<Symbol>,
    keys: Set<Symbol>,
    big_a: Set<Symbol>,
    j: Symbol,
)
    requires
        well_formed(t),
        well_formed(cur),
        well_formed(mid),
        well_formed(fin),
        0 <= n < t.len(),
        p < cur.len(),
        e.finite(),
        advances(t, cur, e, 1),
        real_kept_outside(t, cur, n),
        advances(cur, mid, e, 1),
        real_kept_outside(cur, mid, n),
        ready(mid, cur.len() as int, e, 1),
        relinked(mid, fin),
        advances(mid, fin, e, 2),
        keys.subset_of(e),
        e.intersect(real_indices(cur, n, p)).subset_of(keys),
        keys.subset_of(real_indices(cur, n, p)),
        mid[n].real == installed(cur[n].real, keys, cur.len() as usize),
        cur.len() <= usize::MAX,
        big_a.subset_of(cur[n].real.dom()),
        forall|k: Symbol|
            e.contains(k) && #[trigger] cur[n].real.dom().contains(k) ==> big_a.contains(k) || ready(
                cur,
                cur[n].real[k] as int,
                e,
                1,
            ),
    ensures
        advances(t, fin, e, 1),
        real_kept_outside(t, fin, n),
        big_a.difference(real_indices(cur, n, p)).subset_of(fin[n].real.dom()),
        forall|k: Symbol|
            e.contains(k) && #[trigger] fin[n].real.dom().contains(k) ==> big_a.difference(
                real_indices(cur, n, p),
            ).contains(k) || ready(fin, fin[n].real[k] as int, e, 1),
        fin != t,
{
    lemma_advances_earlier(mid, fin, e, 2, 1);
    lemma_advances_trans(cur, mid, fin, e, 1);
    lemma_advances_trans(t, cur, fin, e, 1);
    lemma_real_indices(cur, n, p);
    assert(fin[n].real == mid[n].real);
    assert(cur[n].elements == t[n].elements);
    assert forall|x: int|
        #![trigger fin[x]]
        0 <= x < t.len() && !t[n].elements.subset_of(t[x].elements) implies fin[x].real == t[x].real by {
        assert(cur[x].elements == t[x].elements);
        assert(mid[x].real == cur[x].real);
        assert(fin[x].real == mid[x].real);
    }
    assert forall|k: Symbol|
        e.contains(k) && #[trigger] fin[n].real.dom().contains(k) implies big_a.difference(
        real_indices(cur, n, p),
    ).contains(k) || ready(fin, fin[n].real[k] as int, e, 1) by {
        if keys.contains(k) {
            assert(mid[n].real[k] == cur.len());
            lemma_ready_step(mid, fin, e, 1, cur.len() as int);
        } else {
            assert(cur[n].real.dom().contains(k));
            assert(fin[n].real[k] == cur[n].real[k]);
            if real_indices(cur, n, p).contains(k) {
                assert(e.intersect(real_indices(cur, n, p)).contains(k));
            } else if !big_a.contains(k) {
                assert(ready(cur, cur[n].real[k] as int, e, 1));
                lemma_ready_step(cur, fin, e, 1, cur[n].real[k] as int);
            }
        }
    }
    assert(fin.len() > t.len());
}

} // verus!
