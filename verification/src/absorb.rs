//! Absorption: taking an excerpt into a tree that has been prepared for it.
use vstd::prelude::*;
use vstd::set_lib::lemma_len_subset;
use crate::decay::{lemma_children_apart, visited};
use crate::model::{child, child_below, edge_ok, grows, lemma_less_left, lemma_real_indices,
    lemma_room_child, node_ok, reached, room, well_formed};
use crate::mop::{Mop, MopView};
use crate::ordered_set::{OrderedSet, Symbol};
use crate::readiness::{advances, included, kept_outside, lemma_advances_earlier,
    lemma_reached_edge, lemma_reached_kept, lemma_reached_trans, lemma_reached_within,
    real_edges_kept, unique_parent, lemma_advances_trans, lemma_descent_finds,
    lemma_ready_earlier, lemma_ready_step, lemma_same_shape_trans, lemma_strengths_kept_trans,
    lemma_update_advances, local_ok, names_trace, pairs_fit, ready, same_shape};
use crate::model::{complete_match_of, lemma_descent_covers};
use crate::readiness::{kept_beyond, lemma_kept_beyond_trans};
use crate::readiness::whole;
use crate::retention::{keeps_order, organised, organised_at};
use crate::search::lemma_match_is_least;
use crate::retention::{lemma_install_keeps_order, lemma_ready_organised, lemma_retentive_after,
    lemma_same_shape_keeps_order};
use crate::identity::{distinct, hatched, lemma_no_such_node, lemma_over_kept, lemma_ready_settled,
    lemma_sorted_over, over, sorted_out};
use crate::strength::Strength;
use crate::tree::RedundantDiscriminationTree;

verus! {

impl<S: Strength> RedundantDiscriminationTree<S> {
    /// Takes `excerpt` into the part of the tree under node `n`, which has
    /// been prepared for it.
    ///
    /// If the set of `n` is the excerpt, `n` is its trace: the trace
    /// strength of `n` grows and `new_trace` names `n`. Otherwise the
    /// excerpt is taken into each real child of `n` under one of its
    /// symbols. Then, under the symbols of the excerpt that are neither in
    /// the set of `n` nor keys of `n`, the node gets the trace of the
    /// excerpt as a child: as a virtual child if `new_trace` names it
    /// already, else as a real child made for it, which `new_trace` then
    /// names. In this case the epitome strength of `n` grows. The
    /// undifferentiated strength of `n` grows in both cases.
    ///
    /// No virtual edge of the tree is lost or led elsewhere. If `new_trace`
    /// names no node on return, no node reached from `n` by real edges has
    /// the excerpt as its set.
    ///
    /// `first` is a handle from which on every node was made for the
    /// excerpt; the caller may take the number of nodes of the tree. Before
    /// and after, a node from `first` on is the node that `new_trace`
    /// names: so at most one node is made. No node leads to it both by a
    /// real edge and by a virtual edge.
    pub(crate) fn absorb(
        &mut self,
        n: usize,
        excerpt: &OrderedSet,
        new_trace: &mut Option<usize>,
        Ghost(first): Ghost<int>,
    )
        requires
            first <= old(self)@.len(),
            sole(old(self)@, *old(new_trace), first),
            tended(old(self)@, *old(new_trace), first, excerpt@),
            old(self).sound(),
            unique_parent(old(self)@),
            distinct(old(self)@),
            *old(new_trace) is None ==> over(old(self)@, excerpt@),
            n < old(self)@.len(),
            ready(old(self)@, n as int, excerpt@, 2),
            names_trace(*old(new_trace), old(self)@, excerpt@),
        ensures
            distinct(final(self)@),
            *final(new_trace) is None ==> over(final(self)@, excerpt@),
            forall|y: int|
                old(self)@.len() <= y < final(self)@.len() ==> fresh_trace::<S>(
                    #[trigger] final(self)@[y],
                    excerpt@,
                ) && reached(final(self)@, n as int, y),
            final(self).sound(),
            advances(old(self)@, final(self)@, excerpt@, 3),
            ready(final(self)@, n as int, excerpt@, 3),
            kept_outside(old(self)@, final(self)@, n as int),
            names_trace(*final(new_trace), final(self)@, excerpt@),
            *old(new_trace) is Some ==> *final(new_trace) is Some,
            old(self)@[n as int].elements == excerpt@ ==> *final(new_trace) == Some(n) && same_shape(
                old(self)@,
                final(self)@,
            ),
            *final(new_trace) is None ==> forall|x: int| #[trigger]
                reached(final(self)@, n as int, x) ==> final(self)@[x].elements != excerpt@,
            virtual_edges_kept(old(self)@, final(self)@),
            sole(final(self)@, *final(new_trace), first),
            tended(final(self)@, *final(new_trace), first, excerpt@),
            ready(old(self)@, n as int, excerpt@, 3) ==> same_shape(old(self)@, final(self)@),
            absorbs(old(self)@, final(self)@, excerpt@),
            forall|x: int|
                0 <= x < old(self)@.len() ==> strengths_after::<S>(
                    old(self)@[x],
                    #[trigger] final(self)@[x],
                    excerpt@,
                    reached(old(self)@, n as int, x) && old(self)@[x].elements.subset_of(excerpt@),
                ),
        decreases excerpt@.difference(old(self)@[n as int].elements).len(),
    {
        let ghost t = self@;
        let ghost e = excerpt@;
        let ghost mut base = self@;
        let ghost mut made: bool = false;
        let ghost mut made_key: Symbol = 0;
        proof {
            excerpt.lemma_finite();
            assert(node_ok(t, n as int));
            lemma_begin(t, e);
        }
        let big_x_u = excerpt.difference(self.mop(n).elements());
        proof {
            big_x_u.lemma_finite();
        }
        if big_x_u.len() == 0 {
            proof {
                assert(big_x_u@ =~= Set::<Symbol>::empty());
                assert(t[n as int].elements =~= e) by {
                    assert(t[n as int].elements.subset_of(e));
                    assert forall|x: Symbol| e.contains(x) implies t[n as int].elements.contains(x) by {
                        if !t[n as int].elements.contains(x) {
                            assert(big_x_u@.contains(x));
                        }
                    }
                }
                assert forall|x: int| 0 <= x < t.len() && x != n implies strengths_after::<S>(
                    t[x],
                    #[trigger] base[x],
                    e,
                    x != n && visited(t, n as int, Set::<Symbol>::empty(), x) && t[x].elements.subset_of(
                        e,
                    ),
                ) by {
                    lemma_visited_all(t, n as int, x);
                    if reached(t, n as int, x) {
                        lemma_proper_below(t, n as int, x);
                    }
                }
            }
            *new_trace = Some(n);
            self.incr_trace(n);
            proof {
                let fin = self@;
                lemma_strength_advances(t, fin, n as int, e);
                assert(virtual_edges_kept(t, fin));
                assert(sole(t, Some(n), first) && tended(t, Some(n), first, e)) by {
                    if n >= first {
                        assert(names(*old(new_trace), n as int));
                    }
                    assert forall|y: int| 0 <= y && first <= y < t.len() implies #[trigger] names(Some(n), y) by {
                        assert(names(*old(new_trace), y));
                        assert(t[y].elements == e);
                        assert(distinct(t));
                    }
                }
                lemma_tended_strength(t, fin, n as int, e, Some(n), first);
                assert(ready(fin, n as int, e, 3)) by {
                    lemma_ready_step(t, fin, e, 2, n as int);
                    lemma_still_ready(fin, n as int, e);
                }
                assert forall|x: int| 0 <= x < t.len() && x != n implies !(reached(t, n as int, x)
                    && t[x].elements.subset_of(e)) by {
                    if reached(t, n as int, x) {
                        lemma_proper_below(t, n as int, x);
                    }
                }
            }
        } else {
            proof {
                if t[n as int].elements == e {
                    assert(big_x_u@ =~= Set::<Symbol>::empty());
                }
            }
            let mut big_a = big_x_u.intersection(&self.mop(n).children_r().keys());
            proof {
                big_a.lemma_finite();
                lemma_begin(t, e);
                lemma_unmet_start(t, n as int, big_a@, e);
                assert forall|x: int| 0 <= x < t.len() implies strengths_after::<S>(
                    t[x],
                    #[trigger] t[x],
                    e,
                    x != n && visited(t, n as int, big_a@, x) && t[x].elements.subset_of(e),
                ) by {
                    if x != n && visited(t, n as int, big_a@, x) && t[x].elements.subset_of(e) {
                        let k = choose|k: Symbol|
                            #![trigger t[n as int].real.dom().contains(k)]
                            t[n as int].real.dom().contains(k) && !big_a@.contains(k) && reached(
                                t,
                                t[n as int].real[k] as int,
                                x,
                            );
                        assert(edge_ok(t, n as int, t[n as int].real[k] as int, k));
                        lemma_reached_within(t, t[n as int].real[k] as int, x);
                        assert(e.contains(k));
                    }
                }
            }
            loop
                invariant
                    t == old(self)@,
                    e == excerpt@,
                    e.finite(),
                    well_formed(t),
                    n < t.len(),
                    ready(t, n as int, e, 2),
                    t[n as int].elements != e,
                    self.sound(),
                    advances(t, self@, e, 3),
                    kept_outside(t, self@, n as int),
                    self@[n as int] == t[n as int],
                    names_trace(*new_trace, self@, e),
                    *old(new_trace) is Some ==> *new_trace is Some,
                    *new_trace is None ==> unmet(self@, n as int, big_a@, e),
                    virtual_edges_kept(t, self@),
                    first <= t.len(),
                    sole(self@, *new_trace, first),
                    tended(self@, *new_trace, first, e),
                    big_a@.finite(),
                    big_a@.subset_of(e),
                    big_a@.subset_of(self@[n as int].real.dom()),
                    forall|k: Symbol|
                        e.contains(k) && #[trigger] self@[n as int].real.dom().contains(k) ==> big_a@.contains(
                            k,
                        ) || ready(self@, self@[n as int].real[k] as int, e, 3),
                    ready(t, n as int, e, 3) ==> same_shape(t, self@),
                    unique_parent(t),
                    distinct(self@),
                    *new_trace is None ==> over(self@, e),
                    forall|y: int|
                        t.len() <= y < self@.len() ==> fresh_trace::<S>(#[trigger] self@[y], e) && visited(
                            self@,
                            n as int,
                            big_a@,
                            y,
                        ),
                    absorbs(t, self@, e),
                    forall|k: Symbol, w: Symbol|
                        #![trigger big_a@.contains(k), t[n as int].real.dom().contains(w)]
                        big_a@.contains(k) && t[n as int].real.dom().contains(w) && e.contains(w)
                            && t[n as int].real[w] == t[n as int].real[k] ==> big_a@.contains(w),
                    forall|w: Symbol|
                        #![trigger t[n as int].real.dom().contains(w)]
                        t[n as int].real.dom().contains(w) && !e.contains(w) ==> !big_a@.contains(w),
                    forall|x: int|
                        0 <= x < t.len() ==> strengths_after::<S>(
                            t[x],
                            #[trigger] self@[x],
                            e,
                            x != n && visited(t, n as int, big_a@, x) && t[x].elements.subset_of(e),
                        ),
                ensures
                    big_a@ == Set::<Symbol>::empty(),
                decreases big_a@.len(),
            {
                match big_a.first() {
                    None => {
                        break ;
                    },
                    Some(j) => {
                        let ghost cur = self@;
                        proof {
                            lemma_advances_earlier(t, cur, e, 3, 2);
                            lemma_ready_step(t, cur, e, 2, n as int);
                            if ready(t, n as int, e, 3) {
                                lemma_ready_step(t, cur, e, 3, n as int);
                            }
                            assert(unique_parent(cur));
                        }
                        let (p, indices) = self.get_r_child_and_indices(n, j).unwrap();
                        proof {
                            assert(cur[n as int].real.dom().contains(j));
                            assert(ready(cur, p as int, e, 2));
                            lemma_real_indices(cur, n as int, p);
                            assert(node_ok(cur, n as int));
                            assert(edge_ok(cur, n as int, p as int, j));
                        }
                        self.absorb(p, excerpt, new_trace, Ghost(first));
                        proof {
                            let fin = self@;
                            lemma_advances_trans(t, cur, fin, e, 3);
                            lemma_virtual_edges_kept_trans(t, cur, fin);
                            if *new_trace is None {
                                assert(unmet(fin, p as int, Set::<Symbol>::empty(), e)) by {
                                    assert forall|x: int|
                                        0 <= x < fin.len() && #[trigger] visited(
                                            fin,
                                            p as int,
                                            Set::<Symbol>::empty(),
                                            x,
                                        ) implies fin[x].elements != e by {
                                        lemma_visited_all(fin, p as int, x);
                                    }
                                }
                                lemma_unmet_step::<S>(cur, fin, n as int, p, e, big_a@, indices@);
                            }
                            let rest = big_a@.difference(indices@);
                            lemma_len_subset(rest, big_a@);
                            rest.lemma_subset_not_in_lt(big_a@, j);
                            assert(!cur[p as int].elements.subset_of(cur[n as int].elements));
                            assert(fin[n as int] == cur[n as int]);
                            assert forall|x: int|
                                #![trigger fin[x]]
                                0 <= x < t.len() && !t[n as int].elements.subset_of(t[x].elements) implies fin[x] == t[x] by {
                                assert(cur[x] == t[x]);
                                assert(!cur[p as int].elements.subset_of(cur[x].elements));
                            }
                            assert forall|k: Symbol|
                                e.contains(k) && #[trigger] fin[n as int].real.dom().contains(k) implies rest.contains(k)
                                || ready(fin, fin[n as int].real[k] as int, e, 3) by {
                                if indices@.contains(k) {
                                    assert(fin[n as int].real[k] == p);
                                } else if !big_a@.contains(k) {
                                    assert(ready(cur, cur[n as int].real[k] as int, e, 3));
                                    lemma_ready_step(cur, fin, e, 3, cur[n as int].real[k] as int);
                                }
                            }
                            if ready(t, n as int, e, 3) {
                                assert(ready(cur, p as int, e, 3));
                                lemma_same_shape_trans(t, cur, fin);
                            }
                            lemma_absorbs_trans(t, cur, fin, e);
                            assert forall|y: int| t.len() <= y < fin.len() implies fresh_trace::<S>(
                                #[trigger] fin[y],
                                e,
                            ) && visited(fin, n as int, rest, y) by {
                                lemma_new_node_step::<S>(t, cur, fin, n as int, p, j, e, big_a@, indices@, y);
                            }
                            assert forall|k: Symbol, w: Symbol|
                                #![trigger rest.contains(k), t[n as int].real.dom().contains(w)]
                                rest.contains(k) && t[n as int].real.dom().contains(w) && e.contains(w)
                                    && t[n as int].real[w] == t[n as int].real[k] implies rest.contains(
                                w,
                            ) by {
                                assert(big_a@.contains(w));
                                if indices@.contains(w) {
                                    assert(indices@.contains(k));
                                }
                            }
                            assert forall|x: int| 0 <= x < t.len() implies strengths_after::<S>(
                                t[x],
                                #[trigger] fin[x],
                                e,
                                x != n && visited(t, n as int, rest, x) && t[x].elements.subset_of(e),
                            ) by {
                                lemma_loop_step::<S>(t, cur, fin, n as int, p, j, e, big_a@, indices@, x);
                            }
                        }
                        big_a = big_a.difference(&indices);
                    },
                }
            }
            let temp_set = big_x_u.difference(&self.mop(n).children_r().keys()).difference(
                &self.mop(n).children_v().keys(),
            );
            let ghost cur = self@;
            proof {
                base = cur;
                lemma_begin(base, e);
                lemma_advances_earlier(t, cur, e, 3, 2);
                lemma_ready_step(t, cur, e, 2, n as int);
                assert(node_ok(cur, n as int));
                temp_set.lemma_finite();
                assert forall|x: int| 0 <= x < t.len() implies (visited(
                    t,
                    n as int,
                    Set::<Symbol>::empty(),
                    x,
                ) <==> reached(t, n as int, x)) by {
                    lemma_visited_all(t, n as int, x);
                }
                if ready(t, n as int, e, 3) {
                    assert(temp_set@ =~= Set::<Symbol>::empty()) by {
                        assert forall|k: Symbol| !temp_set@.contains(k) by {
                            if temp_set@.contains(k) {
                                assert(child(t, n as int, k) is Some);
                            }
                        }
                    }
                }
            }
            if temp_set.len() > 0 {
                proof {
                    vstd::set::axiom_set_choose_len(temp_set@);
                    assert(temp_set@.contains(temp_set@.choose()));
                }
                match *new_trace {
                    Some(p) => {
                        self.install_virt(n, &temp_set, p);
                        proof {
                            let fin = self@;
                            lemma_installed_advances(cur, fin, n as int, e, temp_set@, p, false);
                            lemma_advances_trans(t, cur, fin, e, 3);
                            lemma_absorbs_trans(t, cur, fin, e);
                            lemma_virtual_edges_kept_trans(t, cur, fin);
                            lemma_installed_tended(cur, fin, n as int, e, temp_set@, p, false, Some(p), first);
                        }
                    },
                    None => {
                        let mop = Mop::<S>::new_trace(excerpt.clone());
                        proof {
                            assert(node_ok(cur.push(mop@), cur.len() as int));
                        }
                        let p = self.add_mop(mop);
                        self.install_real(n, &temp_set, p);
                        *new_trace = Some(p);
                        proof {
                            let fin = self@;
                            lemma_installed_advances(cur, fin, n as int, e, temp_set@, p, true);
                            lemma_advances_trans(t, cur, fin, e, 3);
                            lemma_absorbs_trans(t, cur, fin, e);
                            lemma_virtual_edges_kept_trans(t, cur, fin);
                            made = true;
                            made_key = temp_set@.choose();
                            assert(fin[n as int].real.dom().contains(made_key));
                            assert(fin[n as int].real[made_key] == p);
                            assert(fresh_trace::<S>(fin[p as int], e));
                        }
                    },
                }
            }
            let ghost mid = self@;
            proof {
                assert(absorbs(base, mid, e));
                assert(virtual_edges_kept(t, mid));
                assert(mid.len() == base.len() + (if made { 1int } else { 0int }));
                assert(made ==> mid[n as int].real.dom().contains(made_key) && mid[n as int].real[made_key]
                    == base.len() && fresh_trace::<S>(mid[base.len() as int], e));
                assert forall|y: int| 0 <= y < base.len() && y != n implies #[trigger] mid[y] == base[y] by {}
                assert(local_ok(mid, n as int, e, 3)) by {
                    assert(local_ok(cur, n as int, e, 2));
                    assert forall|k: Symbol| e.contains(k) && !mid[n as int].elements.contains(k) implies #[trigger] child(
                        mid,
                        n as int,
                        k,
                    ) is Some by {
                        if !cur[n as int].real.dom().contains(k) && !cur[n as int].virt.dom().contains(k) {
                            assert(temp_set@.contains(k));
                        }
                    }
                }
                assert forall|x: int|
                    #![trigger mid[x]]
                    0 <= x < t.len() && !t[n as int].elements.subset_of(t[x].elements) implies mid[x] == t[x] by {
                    assert(cur[x] == t[x]);
                }
                assert forall|k: Symbol|
                    e.contains(k) && #[trigger] mid[n as int].real.dom().contains(k) implies ready(
                    mid,
                    mid[n as int].real[k] as int,
                    e,
                    3,
                ) by {
                    if cur[n as int].real.dom().contains(k) {
                        assert(ready(cur, cur[n as int].real[k] as int, e, 3));
                        if mid != cur {
                            lemma_ready_step(cur, mid, e, 3, cur[n as int].real[k] as int);
                        }
                    }
                }
                lemma_children_served(mid, n as int, e);
                if ready(t, n as int, e, 3) {
                    assert(mid == cur);
                }
                if made {
                    lemma_installed_tended(cur, mid, n as int, e, temp_set@, cur.len() as usize, true, None, first);
                }
                assert(sole(mid, *new_trace, first) && tended(mid, *new_trace, first, e));
            }
            self.incr_epitome(n);
            proof {
                let fin = self@;
                lemma_strength_advances(mid, fin, n as int, e);
                lemma_virtual_edges_kept_trans(t, mid, fin);
                lemma_tended_strength(mid, fin, n as int, e, *new_trace, first);
                lemma_advances_trans(t, mid, fin, e, 3);
                lemma_absorbs_trans(t, mid, fin, e);
                lemma_absorbs_trans(base, mid, fin, e);
                lemma_ready_step(mid, fin, e, 3, n as int);
                if ready(t, n as int, e, 3) {
                    assert(same_shape(mid, fin));
                    lemma_same_shape_trans(t, mid, fin);
                }
                assert forall|x: int| 0 <= x < t.len() && x != n implies #[trigger] fin[x] == base[x] by {
                    assert(mid[x] == base[x]);
                }
                assert(fin[n as int].trace == t[n as int].trace);
                assert(fin[n as int].epitome == S::grow(t[n as int].epitome));
                assert(fin[n as int].undif == t[n as int].undif);
            }
        }
        let ghost mid = self@;
        proof {
            assert(absorbs(base, mid, e));
            assert(virtual_edges_kept(t, mid));
        }
        self.incr_undif(n);
        proof {
            let fin = self@;
            lemma_strength_advances(mid, fin, n as int, e);
            lemma_virtual_edges_kept_trans(t, mid, fin);
            lemma_tended_strength(mid, fin, n as int, e, *new_trace, first);
            if t[n as int].elements == e {
                assert(same_shape(t, mid));
                lemma_same_shape_trans(t, mid, fin);
            }
            if *new_trace is None {
                assert(!made);
                assert(unmet(base, n as int, Set::<Symbol>::empty(), e));
                lemma_absorbs_trans(base, mid, fin, e);
                lemma_unmet_kept(base, fin, n as int, e);
                assert forall|x: int| #[trigger] reached(fin, n as int, x) implies fin[x].elements != e by {
                    lemma_reached_within(fin, n as int, x);
                    lemma_visited_all(fin, n as int, x);
                }
            }
            lemma_advances_trans(t, mid, fin, e, 3);
            lemma_absorbs_trans(t, mid, fin, e);
            lemma_absorbs_trans(base, mid, fin, e);
            assert forall|y: int| t.len() <= y < fin.len() implies fresh_trace::<S>(
                #[trigger] fin[y],
                e,
            ) && reached(fin, n as int, y) by {
                assert(mid[y] == fin[y]);
                if y < base.len() {
                    lemma_visited_all(base, n as int, y);
                    lemma_reached_kept(base, fin, n as int, y);
                } else {
                    assert(made);
                    assert(fin[n as int].real.dom().contains(made_key));
                    lemma_reached_edge(fin, n as int, made_key);
                }
            }
            lemma_ready_step(mid, fin, e, 3, n as int);
            if ready(t, n as int, e, 3) {
                assert(same_shape(mid, fin));
                lemma_same_shape_trans(t, mid, fin);
            }
            assert forall|x: int|
                #![trigger fin[x]]
                0 <= x < t.len() && !t[n as int].elements.subset_of(t[x].elements) implies fin[x] == t[x] by {
                assert(mid[x] == t[x]);
            }
            assert forall|x: int| 0 <= x < t.len() implies strengths_after::<S>(
                t[x],
                #[trigger] fin[x],
                e,
                reached(t, n as int, x) && t[x].elements.subset_of(e),
            ) by {
                if x != n {
                    assert(mid[x] == base[x]);
                    assert(fin[x] == base[x]);
                    assert(strengths_after::<S>(
                        t[x],
                        base[x],
                        e,
                        x != n && visited(t, n as int, Set::<Symbol>::empty(), x) && t[x].elements.subset_of(
                            e,
                        ),
                    ));
                    lemma_visited_all(t, n as int, x);
                } else {
                    assert(reached(t, n as int, n as int));
                }
            }
        }
    }

    /// Takes an excerpt into the tree: prepares the real edges for it, then
    /// the virtual edges, then absorbs it.
    ///
    /// Afterwards the complete match of the excerpt is a trace whose set is
    /// the excerpt. The tree has only grown: no node is lost, no node's set
    /// changes, no real key of a node is lost, and no strength falls. Every
    /// edge under a key outside the excerpt is kept, real or virtual as it
    /// was, with the child it led to. If the tree had the excerpt taken in
    /// already and has not changed its shape since, it keeps its shape.
    ///
    /// Of the nodes that the tree had, those whose set lies within the
    /// excerpt grow by one step in two strengths: the undifferentiated
    /// strength, and the trace strength if the set is the excerpt, else the
    /// epitome strength; the others keep their strengths.
    ///
    /// A node that the tree gains has a set that no node had. If no node
    /// had a set that holds it, the node is the trace of the excerpt, made
    /// with one step of trace strength and of undifferentiated strength;
    /// the keys under which a node leads to it are then all real keys or
    /// all virtual keys of that node. Otherwise the node stands before the
    /// node that was the complete match of its set: its set is what that
    /// node shares with the excerpt, and its strengths are those of a node
    /// made with the undifferentiated strength of that node and then
    /// visited.
    pub fn include_excerpt(&mut self, excerpt: OrderedSet)
        requires
            old(self).wf(),
        ensures
            final(self).wf(),
            included(old(self)@, final(self)@, excerpt@),
            forall|x: int|
                0 <= x < old(self)@.len() ==> strengths_after::<S>(
                    old(self)@[x],
                    #[trigger] final(self)@[x],
                    excerpt@,
                    old(self)@[x].elements.subset_of(excerpt@),
                ),
            forall|y: int|
                old(self)@.len() <= y < final(self)@.len() ==> born::<S>(
                    old(self)@,
                    #[trigger] final(self)@[y],
                    excerpt@,
                ),
            forall|y: int|
                old(self)@.len() <= y < final(self)@.len() && complete_match_of(
                    old(self)@,
                    (#[trigger] final(self)@[y]).elements,
                ) is None ==> one_kind(final(self)@, y),
            kept_beyond(old(self)@, final(self)@, excerpt@),
    {
        let mut big_u: Vec<(usize, usize)> = Vec::new();
        let mut new_trace: Option<usize> = None;
        let ghost t = self@;
        let ghost e = excerpt@;
        proof {
            excerpt.lemma_finite();
            assert(pairs_fit(big_u@, t, e));
            assert(sorted_out(t, big_u@, e, -1));
        }
        let ghost pairs0 = big_u@;
        self.reorganize_real(0, &excerpt, &mut big_u);
        let ghost t1 = self@;
        let ghost pairs1 = big_u@;
        proof {
            lemma_ready_settled(t1, e);
        }
        self.reorganize_virtual(0, &excerpt, &mut big_u);
        proof {
            crate::identity::lemma_hatched_trans(t, t1, self@, pairs0, pairs1, big_u@);
        }
        let ghost t2 = self@;
        let count: usize = self.node_count();
        proof {
            lemma_sorted_over(t2, big_u@, e);
            if ready(t, 0, e, 3) {
                lemma_ready_earlier(t, 0, e, 3, 1);
                lemma_ready_earlier(t, 0, e, 3, 2);
            }
            lemma_strengths_kept_trans(t, t1, t2);
            lemma_advances_earlier(t1, t2, e, 2, 1);
            lemma_advances_trans(t, t1, t2, e, 1);
        }
        self.absorb(0, &excerpt, &mut new_trace, Ghost(count as int));
        proof {
            let fin = self@;
            lemma_advances_earlier(t2, fin, e, 3, 1);
            lemma_advances_earlier(t1, t2, e, 2, 1);
            lemma_advances_trans(t, t1, t2, e, 1);
            lemma_advances_trans(t, t2, fin, e, 1);
            lemma_descent_finds(fin, e, 0);
            lemma_ready_organised(fin, e);
            lemma_retentive_after(t, fin, e);
            crate::retention::lemma_organised_compatible(fin, e, 0);
            assert(e.difference(fin[0].elements) =~= e.difference(Set::<Symbol>::empty()));
            assert forall|y: int| t.len() <= y < fin.len() implies born::<S>(t, #[trigger] fin[y], e) && (
            complete_match_of(t, fin[y].elements) is None ==> one_kind(fin, y)) by {
                if y < t2.len() {
                    lemma_born::<S>(t, t2, fin, big_u@, e, y);
                } else {
                    assert(fresh_trace::<S>(fin[y], e));
                    assert(names(new_trace, y));
                    if complete_match_of(t, e) is Some {
                        let w = complete_match_of(t, e).unwrap();
                        lemma_descent_covers(t, 0, e.difference(t[0].elements));
                        assert(e.subset_of(t[w].elements));
                        assert(organised(t, t[w].elements));
                        assert(organised(t2, t[w].elements));
                        assert forall|z: int| 0 <= z < t2.len() implies (#[trigger] t2[z]).elements != e by {
                            assert(fin[z].elements == t2[z].elements);
                            assert(distinct(fin));
                        }
                        lemma_ready_lift(t2, 0, e, t[w].elements);
                        assert(same_shape(t2, fin));
                    }
                }
            }
            assert(kept_beyond(t2, fin, e));
            lemma_kept_beyond_trans(t, t1, t2, e);
            lemma_kept_beyond_trans(t, t2, fin, e);
            assert forall|x: int| 0 <= x < t.len() implies strengths_after::<S>(
                t[x],
                #[trigger] fin[x],
                e,
                t[x].elements.subset_of(e),
            ) by {
                assert(reached(t2, 0, x));
                assert(t2[x].elements == t[x].elements) by {
                    let a = t2[x];
                }
                assert(t2[x].trace == t[x].trace && t2[x].epitome == t[x].epitome && t2[x].undif
                    == t[x].undif) by {
                    let a = t2[x];
                }
                assert(strengths_after::<S>(
                    t2[x],
                    fin[x],
                    e,
                    reached(t2, 0, x) && t2[x].elements.subset_of(e),
                ));
            }
        }
    }

    /// Takes the set of the symbols of `experience` into the tree, as
    /// `include_excerpt` takes that set in: the order of the symbols and
    /// their repetitions make no difference.
    pub fn include_experience(&mut self, experience: &[Symbol])
        requires
            old(self).wf(),
        ensures
            final(self).wf(),
            included(old(self)@, final(self)@, experience@.to_set()),
            forall|x: int|
                0 <= x < old(self)@.len() ==> strengths_after::<S>(
                    old(self)@[x],
                    #[trigger] final(self)@[x],
                    experience@.to_set(),
                    old(self)@[x].elements.subset_of(experience@.to_set()),
                ),
            forall|y: int|
                old(self)@.len() <= y < final(self)@.len() ==> born::<S>(
                    old(self)@,
                    #[trigger] final(self)@[y],
                    experience@.to_set(),
                ),
            forall|y: int|
                old(self)@.len() <= y < final(self)@.len() && complete_match_of(
                    old(self)@,
                    (#[trigger] final(self)@[y]).elements,
                ) is None ==> one_kind(final(self)@, y),
            kept_beyond(old(self)@, final(self)@, experience@.to_set()),
    {
        let excerpt = OrderedSet::from_slice(experience);
        self.include_excerpt(excerpt);
    }
}

/// What absorbing `e` does to the strengths of a node it visits: the
/// undifferentiated strength grows by one step, and so does the trace
/// strength if the node's set is `e`, or the epitome strength if it is not.
pub open spec fn strengths_absorbed<S: Strength>(before: MopView, after: MopView, e: Set<Symbol>) -> bool {
    &&& after.undif == S::grow(before.undif)
    &&& after.trace == (if before.elements == e {
        S::grow(before.trace)
    } else {
        before.trace
    })
    &&& after.epitome == (if before.elements == e {
        before.epitome
    } else {
        S::grow(before.epitome)
    })
}

/// The strengths of a node after `e` has been absorbed: grown as for a
/// node that was visited, if it was, and as before, if it was not.
pub open spec fn strengths_after<S: Strength>(
    before: MopView,
    after: MopView,
    e: Set<Symbol>,
    visited: bool,
) -> bool {
    if visited {
        strengths_absorbed::<S>(before, after, e)
    } else {
        after.trace == before.trace && after.epitome == before.epitome && after.undif
            == before.undif
    }
}

/// The node is a trace of `e` that has just been made: its set is `e`, its
/// trace strength and its undifferentiated strength are one growth step
/// from zero, and its epitome strength is zero.
pub open spec fn fresh_trace<S: Strength>(v: MopView, e: Set<Symbol>) -> bool {
    &&& v.elements == e
    &&& v.trace == S::grow(0)
    &&& v.epitome == 0
    &&& v.undif == S::grow(0)
}

/// The node `v` has come to the tree `t` while `e` was taken in. If no
/// node of `t` had a set that holds the set of `v`, so that this set had
/// no complete match in `t`, then `v` is a trace of `e` that has just
/// been made. Otherwise `v` was put before the node of `t` that was the
/// complete match of its set, a node that is not compatible with `e`:
/// the set of `v` is what that node shares with `e`, and its strengths
/// are those of a node that was made with no trace strength and with the
/// undifferentiated strength of that node for its other two strengths,
/// and then visited while `e` was absorbed.
pub open spec fn born<S: Strength>(t: Seq<MopView>, v: MopView, e: Set<Symbol>) -> bool {
    match complete_match_of(t, v.elements) {
        None => fresh_trace::<S>(v, e),
        Some(p) => {
            &&& 0 <= p < t.len()
            &&& !t[p].elements.subset_of(e)
            &&& v.elements == t[p].elements.intersect(e)
            &&& strengths_absorbed::<S>(
                MopView { trace: 0, epitome: t[p].undif, undif: t[p].undif, ..v },
                v,
                e,
            )
        },
    }
}

/// A node that was put before another one while `e` was prepared for, and
/// was then visited while `e` was absorbed, has come to the tree as `born` says.
pub proof fn lemma_born<S: Strength>(
    t: Seq<MopView>,
    t2: Seq<MopView>,
    fin: Seq<MopView>,
    pairs: Seq<(usize, usize)>,
    e: Set<Symbol>,
    y: int,
)
    requires
        whole(t),
        t2.len() <= usize::MAX,
        t.len() <= y < t2.len() <= fin.len(),
        hatched(t, t2, Seq::<(usize, usize)>::empty(), pairs),
        sorted_out(t2, pairs, e, -1),
        crate::readiness::strengths_kept(t, t2),
        grows(t, t2),
        keeps_order(t, t2),
        grows(t2, fin),
        strengths_after::<S>(t2[y], fin[y], e, t2[y].elements.subset_of(e)),
    ensures
        born::<S>(t, fin[y], e),
        complete_match_of(t, fin[y].elements) is Some,
{
    assert(crate::readiness::seconds(pairs).contains(y as usize));
    let i = choose|i: int| 0 <= i < pairs.len() && (#[trigger] pairs[i]).1 == y as usize;
    let p = pairs[i].0 as int;
    assert(crate::identity::pair_stands(t2, pairs[i], e));
    assert(pairs[i].1 as int == y);
    if p >= t.len() {
        assert(crate::readiness::seconds(pairs).contains(p as usize));
        let w = choose|w: int| 0 <= w < pairs.len() && (#[trigger] pairs[w]).1 == p as usize;
        assert(crate::identity::pair_stands(t2, pairs[w], e));
    }
    assert(p < t.len());
    let a = t2[p];
    assert(t2[p].elements == t[p].elements);
    assert(t2[p].undif == t[p].undif);
    let b = fin[y];
    assert(fin[y].elements == t2[y].elements);
    assert(t2[y].elements.subset_of(e));
    assert(strengths_absorbed::<S>(
        MopView { trace: 0, epitome: t[p].undif, undif: t[p].undif, ..fin[y] },
        fin[y],
        e,
    ));
    let s = t2[y].elements;
    lemma_match_is_least(t, s, p);
    let w = complete_match_of(t, s).unwrap();
    let c = t2[w];
    assert(t2[w].elements == t[w].elements);
    assert(t[w].elements != s) by {
        assert(distinct(t2));
        assert(w != y);
    }
    assert(exists|j: Symbol| t[w].elements.contains(j) && !s.contains(j)) by {
        if forall|j: Symbol| t[w].elements.contains(j) ==> s.contains(j) {
            assert(t[w].elements =~= s);
        }
    }
    let j = choose|j: Symbol| t[w].elements.contains(j) && !s.contains(j);
    assert(t[p].elements.contains(j));
    assert(!e.contains(j));
    assert(child(t2, y, j) == Some(p as usize));
    assert(organised(t, t[w].elements));
    assert(organised(t2, t[w].elements));
    assert(organised_at(t2, y, t[w].elements));
    assert(t2[p].elements.subset_of(t[w].elements));
    assert(t[p].elements =~= t[w].elements);
    assert(p == w);
}

/// From `t` to `t2` the real edges between the nodes of `t` are the same:
/// a real edge that `t2` has more leads to a node that `t` had not; a node
/// that `t` had not has the set `e` and no real child; and no node whose
/// set is `e` has gained a real edge.
pub open spec fn absorbs(t: Seq<MopView>, t2: Seq<MopView>, e: Set<Symbol>) -> bool {
    &&& real_edges_kept(t, t2)
    &&& forall|x: int, j: Symbol|
        0 <= x < t.len() && #[trigger] t2[x].real.dom().contains(j) ==> t[x].real.dom().contains(j)
            || t2[x].real[j] >= t.len()
    &&& forall|y: int|
        t.len() <= y < t2.len() ==> (#[trigger] t2[y]).elements == e && t2[y].real == Map::<
            Symbol,
            usize,
        >::empty()
    &&& forall|y: int|
        0 <= y < t.len() && t[y].elements == e ==> (#[trigger] t2[y]).real == t[y].real
}

/// Absorbing is transitive.
pub proof fn lemma_absorbs_trans(t: Seq<MopView>, t2: Seq<MopView>, t3: Seq<MopView>, e: Set<Symbol>)
    requires
        absorbs(t, t2, e),
        absorbs(t2, t3, e),
    ensures
        absorbs(t, t3, e),
{
    assert forall|x: int| #![trigger t3[x]] 0 <= x < t.len() implies {
        &&& t3[x].elements == t[x].elements
        &&& forall|j: Symbol| #[trigger]
            t[x].real.dom().contains(j) ==> t3[x].real.dom().contains(j) && t3[x].real[j]
                == t[x].real[j]
    } by {
        let a = t2[x];
        assert forall|j: Symbol| #[trigger] t[x].real.dom().contains(j) implies t3[x].real.dom().contains(
            j,
        ) && t3[x].real[j] == t[x].real[j] by {
            assert(t2[x].real.dom().contains(j));
        }
    }
    assert forall|x: int, j: Symbol|
        0 <= x < t.len() && #[trigger] t3[x].real.dom().contains(j) implies t[x].real.dom().contains(j)
        || t3[x].real[j] >= t.len() by {
        let a = t2[x];
        if t2[x].real.dom().contains(j) {
            assert(t3[x].real[j] == t2[x].real[j]);
        }
    }
    assert forall|y: int| t.len() <= y < t3.len() implies (#[trigger] t3[y]).elements == e && t3[y].real
        == Map::<Symbol, usize>::empty() by {
        if y < t2.len() {
            let a = t2[y];
            assert(t2[y].elements == e);
        }
    }
    assert forall|y: int| 0 <= y < t.len() && t[y].elements == e implies (#[trigger] t3[y]).real
        == t[y].real by {
        let a = t2[y];
    }
}

/// A node of `t` that is reached from a node of `t` in `t2` was reached from it in `t`.
pub proof fn lemma_reached_old(
    t: Seq<MopView>,
    t2: Seq<MopView>,
    e: Set<Symbol>,
    c: int,
    x: int,
)
    requires
        well_formed(t),
        well_formed(t2),
        absorbs(t, t2, e),
        0 <= c < t.len(),
        0 <= x < t.len(),
        reached(t2, c, x),
    ensures
        reached(t, c, x),
    decreases room(t2, c),
{
    if x != c {
        let j = choose|j: Symbol|
            #![trigger t2[c].real.dom().contains(j)]
            {
                &&& t2[c].real.dom().contains(j)
                &&& child_below(t2, c, j)
                &&& reached(t2, t2[c].real[j] as int, x)
            };
        let d = t2[c].real[j] as int;
        if t[c].real.dom().contains(j) {
            let a = t2[c];
            assert(t2[c].real[j] == t[c].real[j]);
            assert(node_ok(t, c));
            assert(edge_ok(t, c, d, j));
            lemma_reached_old(t, t2, e, d, x);
            lemma_reached_edge(t, c, j);
            lemma_reached_trans(t, c, d, x);
        } else {
            assert(d >= t.len());
            assert(t2[d].real == Map::<Symbol, usize>::empty());
            assert(x == d);
        }
    }
}

/// A node reached from another node, and not that node, has a set that is
/// not within the set of that node.
pub proof fn lemma_proper_below(t: Seq<MopView>, n: int, x: int)
    requires
        well_formed(t),
        0 <= n < t.len(),
        reached(t, n, x),
        x != n,
    ensures
        !t[x].elements.subset_of(t[n].elements),
{
    let j = choose|j: Symbol|
        #![trigger t[n].real.dom().contains(j)]
        {
            &&& t[n].real.dom().contains(j)
            &&& child_below(t, n, j)
            &&& reached(t, t[n].real[j] as int, x)
        };
    assert(node_ok(t, n));
    assert(edge_ok(t, n, t[n].real[j] as int, j));
    lemma_reached_within(t, t[n].real[j] as int, x);
}

/// With no key waiting, the nodes visited from `n` are those reached from `n`.
pub proof fn lemma_visited_all(t: Seq<MopView>, n: int, x: int)
    requires
        well_formed(t),
        0 <= n < t.len(),
    ensures
        visited(t, n, Set::<Symbol>::empty(), x) <==> reached(t, n, x),
{
    if reached(t, n, x) && x != n {
        let j = choose|j: Symbol|
            #![trigger t[n].real.dom().contains(j)]
            {
                &&& t[n].real.dom().contains(j)
                &&& child_below(t, n, j)
                &&& reached(t, t[n].real[j] as int, x)
            };
        assert(t[n].real.dom().contains(j) && !Set::<Symbol>::empty().contains(j));
    }
    if visited(t, n, Set::<Symbol>::empty(), x) && x != n {
        let k = choose|k: Symbol|
            #![trigger t[n].real.dom().contains(k)]
            t[n].real.dom().contains(k) && !Set::<Symbol>::empty().contains(k) && reached(
                t,
                t[n].real[k] as int,
                x,
            );
        assert(child(t, n, k) == Some(t[n].real[k]));
        lemma_room_child(t, n, k);
    }
}

/// What one round of the loop over the real children of `n` does to a node
/// `y` that the tree has gained since `t`: it stays, or is, a trace just
/// made, and it is reached from a child of `n` that has been dealt with.
pub proof fn lemma_new_node_step<S: Strength>(
    t: Seq<MopView>,
    cur: Seq<MopView>,
    fin: Seq<MopView>,
    n: int,
    p: usize,
    j: Symbol,
    e: Set<Symbol>,
    waiting: Set<Symbol>,
    indices: Set<Symbol>,
    y: int,
)
    requires
        well_formed(t),
        well_formed(cur),
        well_formed(fin),
        unique_parent(cur),
        0 <= n < t.len(),
        t.len() <= y < fin.len(),
        p < t.len(),
        cur[n] == t[n],
        fin[n] == t[n],
        t[n].real.dom().contains(j),
        t[n].real[j] == p,
        waiting.contains(j),
        forall|w: Symbol| indices.contains(w) <==> (#[trigger] t[n].real.dom().contains(w) && t[n].real[w] == p),
        absorbs(t, cur, e),
        absorbs(cur, fin, e),
        forall|k: Symbol, w: Symbol|
            #![trigger waiting.contains(k), t[n].real.dom().contains(w)]
            waiting.contains(k) && t[n].real.dom().contains(w) && e.contains(w) && t[n].real[w]
                == t[n].real[k] ==> waiting.contains(w),
        y < cur.len() ==> fresh_trace::<S>(cur[y], e) && visited(cur, n, waiting, y),
        y < cur.len() ==> strengths_after::<S>(
            cur[y],
            fin[y],
            e,
            reached(cur, p as int, y) && cur[y].elements.subset_of(e),
        ),
        y >= cur.len() ==> fresh_trace::<S>(fin[y], e) && reached(fin, p as int, y),
    ensures
        fresh_trace::<S>(fin[y], e),
        visited(fin, n, waiting.difference(indices), y),
{
    let rest = waiting.difference(indices);
    if y < cur.len() {
        let k = choose|k: Symbol|
            #![trigger cur[n].real.dom().contains(k)]
            cur[n].real.dom().contains(k) && !waiting.contains(k) && reached(cur, cur[n].real[k] as int, y);
        let c0 = t[n].real[k] as int;
        assert(node_ok(cur, n));
        assert(edge_ok(cur, n, c0, k));
        lemma_reached_within(cur, c0, y);
        assert(cur[y].elements == e);
        assert(e.contains(k));
        assert(c0 != p);
        lemma_children_apart(cur, n, k, j, y);
        assert(!reached(cur, p as int, y));
        let a = fin[y];
        assert(fin[y].elements == cur[y].elements);
        lemma_reached_kept(cur, fin, c0, y);
        assert(fin[n].real.dom().contains(k) && !rest.contains(k));
    } else {
        assert(fin[n].real.dom().contains(j) && !rest.contains(j));
    }
}

/// What one round of the loop over the real children of `n` does to the
/// strengths of node `x`: the round has absorbed the excerpt below the
/// child `p` under `j`, and takes the keys that lead to `p` off the keys
/// that wait.
pub proof fn lemma_loop_step<S: Strength>(
    t: Seq<MopView>,
    cur: Seq<MopView>,
    fin: Seq<MopView>,
    n: int,
    p: usize,
    j: Symbol,
    e: Set<Symbol>,
    waiting: Set<Symbol>,
    indices: Set<Symbol>,
    x: int,
)
    requires
        well_formed(t),
        well_formed(cur),
        well_formed(fin),
        unique_parent(t),
        0 <= n < t.len(),
        0 <= x < t.len(),
        p < t.len(),
        cur[n] == t[n],
        t[n].real.dom().contains(j),
        t[n].real[j] == p,
        waiting.contains(j),
        waiting.subset_of(t[n].real.dom()),
        forall|w: Symbol| indices.contains(w) <==> (#[trigger] t[n].real.dom().contains(w) && t[n].real[w] == p),
        absorbs(t, cur, e),
        absorbs(cur, fin, e),
        forall|k: Symbol, w: Symbol|
            #![trigger waiting.contains(k), t[n].real.dom().contains(w)]
            waiting.contains(k) && t[n].real.dom().contains(w) && e.contains(w) && t[n].real[w]
                == t[n].real[k] ==> waiting.contains(w),
        strengths_after::<S>(
            t[x],
            cur[x],
            e,
            x != n && visited(t, n, waiting, x) && t[x].elements.subset_of(e),
        ),
        strengths_after::<S>(
            cur[x],
            fin[x],
            e,
            reached(cur, p as int, x) && cur[x].elements.subset_of(e),
        ),
    ensures
        strengths_after::<S>(
            t[x],
            fin[x],
            e,
            x != n && visited(t, n, waiting.difference(indices), x) && t[x].elements.subset_of(e),
        ),
{
    let rest = waiting.difference(indices);
    let a = cur[x];
    assert(cur[x].elements == t[x].elements);
    if reached(cur, p as int, x) {
        lemma_reached_old(t, cur, e, p as int, x);
    }
    if reached(t, p as int, x) {
        lemma_reached_kept(t, cur, p as int, x);
        lemma_children_apart(t, n, j, j, x);
    }
    if reached(t, p as int, x) && t[x].elements.subset_of(e) {
        assert(!visited(t, n, waiting, x)) by {
            if visited(t, n, waiting, x) {
                let k = choose|k: Symbol|
                    #![trigger t[n].real.dom().contains(k)]
                    t[n].real.dom().contains(k) && !waiting.contains(k) && reached(
                        t,
                        t[n].real[k] as int,
                        x,
                    );
                lemma_children_apart(t, n, j, k, x);
                assert(t[n].real[k] == p);
                assert(node_ok(t, n));
                assert(edge_ok(t, n, p as int, k));
                lemma_reached_within(t, p as int, x);
                assert(e.contains(k));
            }
        }
        assert(t[n].real.dom().contains(j) && !rest.contains(j));
        assert(visited(t, n, rest, x));
    } else {
        if x != n && visited(t, n, rest, x) && t[x].elements.subset_of(e) {
            let k = choose|k: Symbol|
                #![trigger t[n].real.dom().contains(k)]
                t[n].real.dom().contains(k) && !rest.contains(k) && reached(t, t[n].real[k] as int, x);
            if waiting.contains(k) {
                assert(indices.contains(k));
            }
            assert(t[n].real.dom().contains(k) && !waiting.contains(k));
            assert(visited(t, n, waiting, x));
        }
        if x != n && visited(t, n, waiting, x) {
            let k = choose|k: Symbol|
                #![trigger t[n].real.dom().contains(k)]
                t[n].real.dom().contains(k) && !waiting.contains(k) && reached(t, t[n].real[k] as int, x);
            assert(t[n].real.dom().contains(k) && !rest.contains(k));
            assert(visited(t, n, rest, x));
        }
    }
}

/// Nothing has changed yet: the tree advances to itself.
proof fn lemma_begin(t: Seq<MopView>, e: Set<Symbol>)
    ensures
        advances(t, t, e, 3),
        forall|n: int| kept_outside(t, t, n),
        same_shape(t, t),
        absorbs(t, t, e),
{
}

/// A change of the strengths of node `n` that lowers none of them is an
/// advance through all phases, where the trace strength stays above zero.
proof fn lemma_strength_advances(t: Seq<MopView>, t2: Seq<MopView>, n: int, e: Set<Symbol>)
    requires
        well_formed(t),
        well_formed(t2),
        0 <= n < t.len(),
        e.finite(),
        t2 == t.update(
            n,
            MopView { trace: t2[n].trace, epitome: t2[n].epitome, undif: t2[n].undif, ..t[n] },
        ),
        t[n].trace <= t2[n].trace,
        t[n].epitome <= t2[n].epitome,
        t[n].undif <= t2[n].undif,
    ensures
        advances(t, t2, e, 3),
        same_shape(t, t2),
        kept_outside(t, t2, n),
        absorbs(t, t2, e),
        over(t, e) ==> over(t2, e),
        distinct(t) ==> distinct(t2),
{
    crate::retention::lemma_same_shape_keeps_order(t, t2);
    lemma_over_kept(t, t2, e);
    assert forall|q: int| 1 <= q <= 3 && #[trigger] local_ok(t, n, e, q) implies local_ok(t2, n, e, q) by {
        assert(node_ok(t, n));
        if q >= 2 {
            assert forall|j: Symbol|
                e.contains(j) && #[trigger] t2[n].virt.dom().contains(j) implies t2[t2[n].virt[j] as int].elements.subset_of(
                e,
            ) by {
                assert(edge_ok(t, n, t[n].virt[j] as int, j));
                assert(t2[t2[n].virt[j] as int].elements == t[t[n].virt[j] as int].elements);
            }
        }
        if q >= 3 && t[n].elements != e {
            assert forall|j: Symbol| e.contains(j) && !t2[n].elements.contains(j) implies #[trigger] child(
                t2,
                n,
                j,
            ) is Some by {
                assert(child(t, n, j) is Some);
            }
        }
    }
    lemma_same_shape_keeps_order(t, t2);
    lemma_update_advances(t, t2, n, e, 3);
}

/// A node that is through the second phase, whose set is `e` and whose
/// trace strength is above zero, is through the third.
proof fn lemma_still_ready(t: Seq<MopView>, n: int, e: Set<Symbol>)
    requires
        well_formed(t),
        e.finite(),
        ready(t, n, e, 2),
        t[n].elements == e,
        t[n].trace > 0,
    ensures
        ready(t, n, e, 3),
{
    assert(node_ok(t, n));
    assert forall|j: Symbol|
        #![trigger t[n].real.dom().contains(j)]
        e.contains(j) && t[n].real.dom().contains(j) implies {
        let c = t[n].real[j] as int;
        &&& 0 <= c < t.len()
        &&& e.difference(t[c].elements).len() < e.difference(t[n].elements).len()
        &&& ready(t, c, e, 3)
    } by {}
}

/// A node at which what the third phase asks holds, and all of whose real
/// children under keys of `e` are through the third phase, is through it.
proof fn lemma_children_served(t: Seq<MopView>, n: int, e: Set<Symbol>)
    requires
        well_formed(t),
        0 <= n < t.len(),
        e.finite(),
        local_ok(t, n, e, 3),
        forall|k: Symbol|
            e.contains(k) && #[trigger] t[n].real.dom().contains(k) ==> ready(
                t,
                t[n].real[k] as int,
                e,
                3,
            ),
    ensures
        ready(t, n, e, 3),
{
    assert(node_ok(t, n));
    assert forall|j: Symbol|
        #![trigger t[n].real.dom().contains(j)]
        e.contains(j) && t[n].real.dom().contains(j) implies {
        let c = t[n].real[j] as int;
        &&& 0 <= c < t.len()
        &&& e.difference(t[c].elements).len() < e.difference(t[n].elements).len()
        &&& ready(t, c, e, 3)
    } by {
        let c = t[n].real[j] as int;
        assert(edge_ok(t, n, c, j));
        assert(ready(t, c, e, 3));
        lemma_less_left(e, t[n].elements, t[c].elements, j);
    }
}

/// Giving node `n` the trace of `e` as a child under the keys `keys`,
/// which `n` lacked, is an advance through all phases: as a virtual child,
/// the trace being node `p` of the tree; as a real child, the trace being
/// the node added as `p`.
proof fn lemma_installed_advances(
    t: Seq<MopView>,
    t2: Seq<MopView>,
    n: int,
    e: Set<Symbol>,
    keys: Set<Symbol>,
    p: usize,
    as_real: bool,
)
    requires
        well_formed(t),
        well_formed(t2),
        0 <= n < t.len(),
        e.finite(),
        t[n].elements.subset_of(e),
        t[n].elements != e,
        keys.subset_of(e),
        keys.disjoint(t[n].elements),
        keys.disjoint(t[n].real.dom()),
        keys.disjoint(t[n].virt.dom()),
        exists|k: Symbol| keys.contains(k),
        p < t2.len(),
        t2[p as int].elements == e,
        t2[p as int].trace > 0,
        !as_real ==> p < t.len() && t2 == t.update(
            n,
            MopView { virt: crate::mop::installed(t[n].virt, keys, p), ..t[n] },
        ),
        as_real ==> p == t.len() && t2[p as int].real == Map::<Symbol, usize>::empty() && t2[p as int].virt
            == Map::<Symbol, usize>::empty() && t2 == t.push(t2[p as int]).update(
            n,
            MopView { real: crate::mop::installed(t[n].real, keys, p), ..t[n] },
        ),
    ensures
        advances(t, t2, e, 3),
        same_shape(t, t2) ==> false,
        absorbs(t, t2, e),
        forall|x: int| 0 <= x < t.len() && x != n ==> #[trigger] t2[x] == t[x],
        t2[n].trace == t[n].trace,
        t2[n].epitome == t[n].epitome,
        t2[n].undif == t[n].undif,
        distinct(t) && (as_real ==> over(t, e)) ==> distinct(t2),
{
    let k0 = choose|k: Symbol| keys.contains(k);
    lemma_install_keeps_order(t, t2, n, e, keys, p, as_real);
    assert(node_ok(t, n));
    if distinct(t) && (as_real ==> over(t, e)) {
        if as_real {
            assert(child(t, n, k0) is None);
            lemma_no_such_node(t, e, n, k0);
        }
        assert forall|x: int, y: int|
            #![trigger t2[x], t2[y]]
            0 <= x < t2.len() && 0 <= y < t2.len() && x != y implies t2[x].elements != t2[y].elements by {
            if x < t.len() && y < t.len() {
                assert(t[x].elements != t[y].elements);
                assert(t2[x].elements == t[x].elements);
                assert(t2[y].elements == t[y].elements);
            } else if x < t.len() {
                assert(t2[x].elements == t[x].elements);
            } else if y < t.len() {
                assert(t2[y].elements == t[y].elements);
            }
        }
    }
    if as_real {
        assert(t2[n].real.dom().contains(k0) && t2[n].real[k0] == t.len());
        assert(ready(t2, p as int, e, 3));
    } else {
        assert(t2[n].virt.dom().contains(k0));
        assert(!t[n].virt.dom().contains(k0));
    }
    assert forall|q: int| 1 <= q <= 3 && #[trigger] local_ok(t, n, e, q) implies local_ok(t2, n, e, q) by {
        if q >= 2 {
            assert forall|j: Symbol|
                e.contains(j) && #[trigger] t2[n].virt.dom().contains(j) implies t2[t2[n].virt[j] as int].elements.subset_of(
                e,
            ) by {
                if t[n].virt.dom().contains(j) && t2[n].virt[j] == t[n].virt[j] {
                    assert(edge_ok(t, n, t[n].virt[j] as int, j));
                    assert(t2[t2[n].virt[j] as int].elements == t[t[n].virt[j] as int].elements);
                }
            }
        }
        if q >= 3 {
            assert forall|j: Symbol| e.contains(j) && !t2[n].elements.contains(j) implies #[trigger] child(
                t2,
                n,
                j,
            ) is Some by {
                assert(child(t, n, j) is Some);
            }
        }
    }
    lemma_update_advances(t, t2, n, e, 3);
}

/// From `t` to `t2` every node keeps its virtual edges: each leads where it led.
pub open spec fn virtual_edges_kept(t: Seq<MopView>, t2: Seq<MopView>) -> bool {
    &&& t.len() <= t2.len()
    &&& forall|x: int, k: Symbol|
        0 <= x < t.len() && #[trigger] t[x].virt.dom().contains(k) ==> t2[x].virt.dom().contains(k)
            && t2[x].virt[k] == t[x].virt[k]
}

/// Keeping the virtual edges is transitive.
pub proof fn lemma_virtual_edges_kept_trans(t: Seq<MopView>, t2: Seq<MopView>, t3: Seq<MopView>)
    requires
        virtual_edges_kept(t, t2),
        virtual_edges_kept(t2, t3),
    ensures
        virtual_edges_kept(t, t3),
{
    assert forall|x: int, k: Symbol|
        0 <= x < t.len() && #[trigger] t[x].virt.dom().contains(k) implies t3[x].virt.dom().contains(k)
        && t3[x].virt[k] == t[x].virt[k] by {
        assert(t2[x].virt.dom().contains(k));
    }
}

/// No node that has the set `e` is `n` or is reached from a real child of
/// `n` under a key that is not in `waiting`.
pub open spec fn unmet(t: Seq<MopView>, n: int, waiting: Set<Symbol>, e: Set<Symbol>) -> bool {
    forall|x: int| 0 <= x < t.len() && #[trigger] visited(t, n, waiting, x) ==> t[x].elements != e
}

/// While the real children of `n` under the symbols of `e` are waiting,
/// no node visited from `n` has the set `e`, unless `n` has.
pub proof fn lemma_unmet_start(t: Seq<MopView>, n: int, waiting: Set<Symbol>, e: Set<Symbol>)
    requires
        well_formed(t),
        0 <= n < t.len(),
        t[n].elements != e,
        forall|k: Symbol| #[trigger] t[n].real.dom().contains(k) && e.contains(k) ==> waiting.contains(k),
    ensures
        unmet(t, n, waiting, e),
{
    assert forall|x: int| 0 <= x < t.len() && #[trigger] visited(t, n, waiting, x) implies t[x].elements
        != e by {
        if x != n {
            let k = choose|k: Symbol|
                #![trigger t[n].real.dom().contains(k)]
                t[n].real.dom().contains(k) && !waiting.contains(k) && reached(t, t[n].real[k] as int, x);
            assert(node_ok(t, n));
            assert(edge_ok(t, n, t[n].real[k] as int, k));
            lemma_reached_within(t, t[n].real[k] as int, x);
            assert(t[x].elements.contains(k));
        }
    }
}

/// If the part under the child `p` of `n` has been served and no node
/// with the set `e` was met there, none is met from `n` with the keys of
/// `p` no longer waiting.
pub proof fn lemma_unmet_step<S: Strength>(
    cur: Seq<MopView>,
    fin: Seq<MopView>,
    n: int,
    p: usize,
    e: Set<Symbol>,
    waiting: Set<Symbol>,
    indices: Set<Symbol>,
)
    requires
        well_formed(cur),
        well_formed(fin),
        0 <= n < cur.len(),
        p < cur.len(),
        fin[n] == cur[n],
        absorbs(cur, fin, e),
        unmet(cur, n, waiting, e),
        unmet(fin, p as int, Set::<Symbol>::empty(), e),
        forall|w: Symbol| indices.contains(w) <==> (#[trigger] cur[n].real.dom().contains(w) && cur[n].real[w] == p),
        forall|y: int|
            cur.len() <= y < fin.len() ==> fresh_trace::<S>(#[trigger] fin[y], e) && reached(fin, p as int, y),
    ensures
        unmet(fin, n, waiting.difference(indices), e),
        fin.len() == cur.len(),
{
    assert forall|x: int| 0 <= x < fin.len() && reached(fin, p as int, x) implies fin[x].elements != e by {
        lemma_visited_all(fin, p as int, x);
    }
    if fin.len() > cur.len() {
        let y = cur.len() as int;
        assert(fresh_trace::<S>(fin[y], e));
        assert(reached(fin, p as int, y));
    }
    assert forall|x: int|
        0 <= x < fin.len() && #[trigger] visited(fin, n, waiting.difference(indices), x) implies fin[x].elements
        != e by {
        if x != n {
            let k = choose|k: Symbol|
                #![trigger fin[n].real.dom().contains(k)]
                fin[n].real.dom().contains(k) && !waiting.difference(indices).contains(k) && reached(
                    fin,
                    fin[n].real[k] as int,
                    x,
                );
            if indices.contains(k) {
                assert(fin[n].real[k] == p);
            } else {
                assert(!waiting.contains(k));
                assert(node_ok(cur, n));
                assert(edge_ok(cur, n, cur[n].real[k] as int, k));
                lemma_reached_old(cur, fin, e, cur[n].real[k] as int, x);
                assert(visited(cur, n, waiting, x));
                assert(fin[x].elements == cur[x].elements);
            }
        } else {
            assert(visited(cur, n, waiting, n));
        }
    }
}

/// Where no node has come and no node with the set `e` was reached from
/// `n`, none is reached from `n` afterwards.
pub proof fn lemma_unmet_kept(t: Seq<MopView>, t2: Seq<MopView>, n: int, e: Set<Symbol>)
    requires
        well_formed(t),
        well_formed(t2),
        0 <= n < t.len(),
        t2.len() == t.len(),
        absorbs(t, t2, e),
        unmet(t, n, Set::<Symbol>::empty(), e),
    ensures
        unmet(t2, n, Set::<Symbol>::empty(), e),
{
    assert forall|x: int|
        0 <= x < t2.len() && #[trigger] visited(t2, n, Set::<Symbol>::empty(), x) implies t2[x].elements
        != e by {
        lemma_visited_all(t2, n, x);
        lemma_reached_old(t, t2, e, n, x);
        lemma_visited_all(t, n, x);
        assert(t2[x].elements == t[x].elements);
    }
}

/// No node of `t` leads to node `y` both by a real edge and by a virtual
/// edge: the keys under which a node leads to `y` are all real keys or
/// all virtual keys.
pub open spec fn one_kind(t: Seq<MopView>, y: int) -> bool {
    forall|x: int, k: Symbol, w: Symbol|
        0 <= x < t.len() && #[trigger] t[x].real.dom().contains(k) && #[trigger] t[x].virt.dom().contains(w)
            ==> !(t[x].real[k] == y && t[x].virt[w] == y)
}

/// Every node of `t` from `first` on is the node that the handle names.
pub open spec fn sole(t: Seq<MopView>, found: Option<usize>, first: int) -> bool {
    forall|y: int| 0 <= y && first <= y < t.len() ==> #[trigger] names(found, y)
}

/// The handle names node `y`.
pub open spec fn names(found: Option<usize>, y: int) -> bool {
    found is Some && found.unwrap() == y
}

/// If the handle names a node from `first` on, no node leads to that node
/// by both kinds of edge, and a node that leads to it by a real edge has
/// a child under every symbol of `e` that it lacks.
pub open spec fn tended(t: Seq<MopView>, found: Option<usize>, first: int, e: Set<Symbol>) -> bool {
    found matches Some(y) ==> (y >= first ==> {
        &&& one_kind(t, y as int)
        &&& forall|x: int, k: Symbol|
            0 <= x < t.len() && #[trigger] t[x].real.dom().contains(k) && t[x].real[k] == y ==> local_ok(
                t,
                x,
                e,
                3,
            )
    })
}

/// A change of strengths keeps what holds of the node that the handle names.
proof fn lemma_tended_strength(
    t: Seq<MopView>,
    t2: Seq<MopView>,
    n: int,
    e: Set<Symbol>,
    found: Option<usize>,
    first: int,
)
    requires
        well_formed(t),
        well_formed(t2),
        0 <= n < t.len(),
        t2 == t.update(
            n,
            MopView { trace: t2[n].trace, epitome: t2[n].epitome, undif: t2[n].undif, ..t[n] },
        ),
        advances(t, t2, e, 3),
        sole(t, found, first),
        tended(t, found, first, e),
    ensures
        sole(t2, found, first),
        tended(t2, found, first, e),
{

    if found is Some {
        let y = found.unwrap();
        if y >= first {
            assert forall|x: int, k: Symbol, w: Symbol|
                0 <= x < t2.len() && #[trigger] t2[x].real.dom().contains(k) && #[trigger] t2[x].virt.dom().contains(
                    w,
                ) implies !(t2[x].real[k] == y && t2[x].virt[w] == y) by {
                assert(t[x].real.dom().contains(k) && t[x].virt.dom().contains(w));
            }
            assert forall|x: int, k: Symbol|
                0 <= x < t2.len() && #[trigger] t2[x].real.dom().contains(k) && t2[x].real[k] == y implies local_ok(
                t2,
                x,
                e,
                3,
            ) by {
                assert(t[x].real.dom().contains(k));
                assert(local_ok(t, x, e, 3));
            }
        }
    }
}

/// After the trace of `e` has been installed at node `n`, under keys that
/// `n` lacked, the handle names it, and what is asked of a node made for
/// the trace holds: installed as a virtual child, it was no real child of
/// `n`; made and installed as a real child, it is no virtual child of any node.
proof fn lemma_installed_tended(
    t: Seq<MopView>,
    t2: Seq<MopView>,
    n: int,
    e: Set<Symbol>,
    keys: Set<Symbol>,
    p: usize,
    as_real: bool,
    found: Option<usize>,
    first: int,
)
    requires
        well_formed(t),
        well_formed(t2),
        0 <= n < t.len(),
        t[n].elements != e,
        keys.subset_of(e),
        keys.disjoint(t[n].elements),
        keys.disjoint(t[n].real.dom()),
        keys.disjoint(t[n].virt.dom()),
        exists|k: Symbol| keys.contains(k),
        p < t2.len(),
        !as_real ==> p < t.len() && found == Some(p) && t2 == t.update(
            n,
            MopView { virt: crate::mop::installed(t[n].virt, keys, p), ..t[n] },
        ),
        as_real ==> p == t.len() && found is None && local_ok(t2, n, e, 3) && t2 == t.push(
            t2[p as int],
        ).update(n, MopView { real: crate::mop::installed(t[n].real, keys, p), ..t[n] }),
        advances(t, t2, e, 3),
        first <= t.len(),
        sole(t, found, first),
        tended(t, found, first, e),
    ensures
        sole(t2, Some(p), first),
        tended(t2, Some(p), first, e),
{
    let k0 = choose|k: Symbol| keys.contains(k);
    assert(child(t, n, k0) is None);
    assert(!local_ok(t, n, e, 3));
    if as_real {
        assert forall|y: int| 0 <= y && first <= y < t2.len() implies #[trigger] names(Some(p), y) by {
            if y < t.len() {
                assert(names(found, y));
            }
        }
        assert forall|x: int, k: Symbol, w: Symbol|
            0 <= x < t2.len() && #[trigger] t2[x].real.dom().contains(k) && #[trigger] t2[x].virt.dom().contains(
                w,
            ) implies !(t2[x].real[k] == p && t2[x].virt[w] == p) by {
            if x < t.len() {
                assert(t[x].virt.dom().contains(w));
                assert(node_ok(t, x));
                assert(edge_ok(t, x, t[x].virt[w] as int, w));
            } else {
                assert(node_ok(t2, x));
                assert(edge_ok(t2, x, t2[x].virt[w] as int, w));
                assert(t2[x].elements.contains(w) || t2[t2[x].virt[w] as int].elements.contains(w));
            }
        }
        assert forall|x: int, k: Symbol|
            0 <= x < t2.len() && #[trigger] t2[x].real.dom().contains(k) && t2[x].real[k] == p implies local_ok(
            t2,
            x,
            e,
            3,
        ) by {
            if x != n {
                assert(node_ok(t2, x));
                assert(edge_ok(t2, x, p as int, k));
                if x < t.len() {
                    assert(t[x].real.dom().contains(k));
                    assert(node_ok(t, x));
                    assert(edge_ok(t, x, t[x].real[k] as int, k));
                }
            }
        }
    } else {

        if p >= first {
            assert forall|x: int, k: Symbol, w: Symbol|
                0 <= x < t2.len() && #[trigger] t2[x].real.dom().contains(k) && #[trigger] t2[x].virt.dom().contains(
                    w,
                ) implies !(t2[x].real[k] == p && t2[x].virt[w] == p) by {
                assert(t[x].real.dom().contains(k));
                if x == n {
                    if t[x].real[k] == p {
                        assert(local_ok(t, x, e, 3));
                    }
                } else {
                    assert(t[x].virt.dom().contains(w));
                }
            }
            assert forall|x: int, k: Symbol|
                0 <= x < t2.len() && #[trigger] t2[x].real.dom().contains(k) && t2[x].real[k] == p implies local_ok(
                t2,
                x,
                e,
                3,
            ) by {
                assert(t[x].real.dom().contains(k));
                assert(local_ok(t, x, e, 3));
            }
        }
    }
}

/// A part of the tree that is through the second phase for `e` is
/// through the third, if no node has the set `e` and the tree is
/// organised for a set that holds `e`: then no node lacks a child under a
/// symbol of `e`.
proof fn lemma_ready_lift(t: Seq<MopView>, n: int, e: Set<Symbol>, target: Set<Symbol>)
    requires
        ready(t, n, e, 2),
        organised(t, target),
        e.subset_of(target),
        forall|z: int| 0 <= z < t.len() ==> (#[trigger] t[z]).elements != e,
    ensures
        ready(t, n, e, 3),
    decreases e.difference(t[n].elements).len(),
{
    assert(local_ok(t, n, e, 3)) by {
        assert(organised_at(t, n, target));
        if t[n].elements == target {
            assert(t[n].elements =~= e);
        }
    }
    assert forall|j: Symbol|
        #![trigger t[n].real.dom().contains(j)]
        e.contains(j) && t[n].real.dom().contains(j) implies {
        let c = t[n].real[j] as int;
        &&& 0 <= c < t.len()
        &&& e.difference(t[c].elements).len() < e.difference(t[n].elements).len()
        &&& ready(t, c, e, 3)
    } by {
        lemma_ready_lift(t, t[n].real[j] as int, e, target);
    }
}

} // verus!
