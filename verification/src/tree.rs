//! The redundant discrimination tree: the nodes, held in one vector with the
//! root at index 0, and the operations on them.
use vstd::prelude::*;
use vstd::set_lib::lemma_len_subset;
use crate::model::{child, complete_match_of, descent, edge_ok, lemma_child_edge,
    lemma_least_unique, lemma_push_keeps_tree, lemma_update_keeps_tree, node_ok, reached,
    real_indices, virt_indices, well_formed};
use crate::mop::{installed, Mop, MopView};
use crate::readiness::whole;
use crate::retention::organised_at;
use crate::search::lemma_match_is_least;
use crate::ordered_set::{OrderedSet, Symbol};
use crate::strength::{Strength, UNIT};

verus! {

/// An associative memory of excerpts.
#[derive(Debug)]
pub struct RedundantDiscriminationTree<S: Strength> {
    mops: Vec<Mop<S>>,
}

impl<S: Strength> View for RedundantDiscriminationTree<S> {
    type V = Seq<MopView>;

    closed spec fn view(&self) -> Seq<MopView> {
        Seq::new(self.mops@.len(), |i: int| self.mops@[i]@)
    }
}

impl<S: Strength> RedundantDiscriminationTree<S> {
    /// Every node is in order, and the root is the node of the empty set.
    pub open spec fn sound(&self) -> bool {
        well_formed(self@)
    }

    /// The nodes form a tree that retains what it took in: every node is in
    /// order, the root is the node of the empty set, every node is reached
    /// from the root by real edges and is the real child of one node only,
    /// the tree is organised for the set of each of its nodes, and no two
    /// nodes have the same set.
    pub open spec fn wf(&self) -> bool {
        whole(self@)
    }

    /// A tree that holds the node of the empty set and nothing else.
    pub fn new() -> (tree: Self)
        ensures
            tree.wf(),
            tree@.len() == 1,
            tree@[0] == (MopView {
                elements: Set::empty(),
                real: Map::empty(),
                virt: Map::empty(),
                trace: 0,
                epitome: 0,
                undif: 0,
            }),
    {
        let mut mops: Vec<Mop<S>> = Vec::new();
        mops.push(Mop::tabula_rasa());
        let tree = RedundantDiscriminationTree { mops };
        proof {
            assert(node_ok(tree@, 0));
            assert(reached(tree@, 0, 0));
            assert(organised_at(tree@, 0, tree@[0].elements));
        }
        tree
    }

    /// The number of nodes.
    pub fn node_count(&self) -> (n: usize)
        ensures
            n == self@.len(),
    {
        self.mops.len()
    }

    /// The node with handle `id`.
    pub fn mop(&self, id: usize) -> (m: &Mop<S>)
        requires
            id < self@.len(),
        ensures
            m@ == self@[id as int],
    {
        &self.mops[id]
    }

    /// The real child of node `n` under `key`, with the set of all the keys
    /// of `n` that lead to that child.
    pub(crate) fn get_r_child_and_indices(&self, n: usize, key: Symbol) -> (r: Option<
        (usize, OrderedSet),
    >)
        requires
            self.sound(),
            n < self@.len(),
        ensures
            match r {
                Some((c, indices)) => {
                    &&& self@[n as int].real.dom().contains(key)
                    &&& c == self@[n as int].real[key]
                    &&& indices@ == real_indices(self@, n as int, c)
                    &&& indices@.contains(key)
                },
                None => !self@[n as int].real.dom().contains(key),
            },
    {
        proof {
            assert(node_ok(self@, n as int));
        }
        match self.mops[n].get_r_child(key) {
            Some(c) => {
                let candidates = self.mops[c].elements().difference(
                    self.mops[n].elements(),
                ).difference(&self.mops[n].children_v().keys());
                let items = candidates.items();
                let mut indices = OrderedSet::new();
                let mut i: usize = 0;
                while i < items.len()
                    invariant
                        i <= items.len(),
                        n < self@.len(),
                        c < self@.len(),
                        items@.to_set() == candidates@,
                        candidates@ == self@[c as int].elements.difference(
                            self@[n as int].elements,
                        ).difference(self@[n as int].virt.dom()),
                        forall|x: Symbol|
                            indices@.contains(x) <==> (real_indices(self@, n as int, c).contains(x)
                                && items@.subrange(0, i as int).contains(x)),
                    decreases items.len() - i,
                {
                    let x: Symbol = items[i];
                    let ghost before = items@.subrange(0, i as int);
                    assert(items@.contains(x));
                    assert(candidates@.contains(x));
                    match self.mops[n].get_r_child(x) {
                        Some(other) => {
                            if other == c {
                                indices.insert(x);
                            }
                        },
                        None => {},
                    }
                    proof {
                        assert(items@.subrange(0, i + 1) =~= before.push(x));
                        assert forall|y: Symbol|
                            indices@.contains(y) <==> (real_indices(self@, n as int, c).contains(y)
                                && items@.subrange(0, i + 1).contains(y)) by {
                            if before.push(x).contains(y) {
                                let k = choose|k: int|
                                    0 <= k < before.push(x).len() && before.push(x)[k] == y;
                                if k < before.len() {
                                    assert(before[k] == y);
                                    assert(before.contains(y));
                                }
                            }
                            if before.contains(y) {
                                let k = choose|k: int| 0 <= k < before.len() && before[k] == y;
                                assert(before.push(x)[k] == y);
                            }
                            assert(before.push(x)[before.len() as int] == x);
                        }
                    }
                    i = i + 1;
                }
                proof {
                    assert(items@.subrange(0, i as int) =~= items@);
                    assert forall|x: Symbol|
                        indices@.contains(x) <==> real_indices(self@, n as int, c).contains(x) by {
                        if real_indices(self@, n as int, c).contains(x) {
                            assert(candidates@.contains(x));
                            assert(items@.to_set().contains(x));
                        }
                    }
                    assert(indices@ =~= real_indices(self@, n as int, c));
                }
                Some((c, indices))
            },
            None => None,
        }
    }

    /// The virtual child of node `n` under `key`, with the set of all the
    /// keys of `n` that lead to that child.
    pub(crate) fn get_v_child_and_indices(&self, n: usize, key: Symbol) -> (r: Option<
        (usize, OrderedSet),
    >)
        requires
            self.sound(),
            n < self@.len(),
        ensures
            match r {
                Some((c, indices)) => {
                    &&& self@[n as int].virt.dom().contains(key)
                    &&& c == self@[n as int].virt[key]
                    &&& indices@ == virt_indices(self@, n as int, c)
                    &&& indices@.contains(key)
                },
                None => !self@[n as int].virt.dom().contains(key),
            },
    {
        proof {
            assert(node_ok(self@, n as int));
        }
        match self.mops[n].get_v_child(key) {
            Some(c) => {
                let candidates = self.mops[c].elements().difference(
                    self.mops[n].elements(),
                ).difference(&self.mops[n].children_r().keys());
                let items = candidates.items();
                let mut indices = OrderedSet::new();
                let mut i: usize = 0;
                while i < items.len()
                    invariant
                        i <= items.len(),
                        n < self@.len(),
                        c < self@.len(),
                        items@.to_set() == candidates@,
                        candidates@ == self@[c as int].elements.difference(
                            self@[n as int].elements,
                        ).difference(self@[n as int].real.dom()),
                        forall|x: Symbol|
                            indices@.contains(x) <==> (virt_indices(self@, n as int, c).contains(x)
                                && items@.subrange(0, i as int).contains(x)),
                    decreases items.len() - i,
                {
                    let x: Symbol = items[i];
                    let ghost before = items@.subrange(0, i as int);
                    assert(items@.contains(x));
                    assert(candidates@.contains(x));
                    match self.mops[n].get_v_child(x) {
                        Some(other) => {
                            if other == c {
                                indices.insert(x);
                            }
                        },
                        None => {},
                    }
                    proof {
                        assert(items@.subrange(0, i + 1) =~= before.push(x));
                        assert forall|y: Symbol|
                            indices@.contains(y) <==> (virt_indices(self@, n as int, c).contains(y)
                                && items@.subrange(0, i + 1).contains(y)) by {
                            if before.push(x).contains(y) {
                                let k = choose|k: int|
                                    0 <= k < before.push(x).len() && before.push(x)[k] == y;
                                if k < before.len() {
                                    assert(before[k] == y);
                                    assert(before.contains(y));
                                }
                            }
                            if before.contains(y) {
                                let k = choose|k: int| 0 <= k < before.len() && before[k] == y;
                                assert(before.push(x)[k] == y);
                            }
                            assert(before.push(x)[before.len() as int] == x);
                        }
                    }
                    i = i + 1;
                }
                proof {
                    assert(items@.subrange(0, i as int) =~= items@);
                    assert forall|x: Symbol|
                        indices@.contains(x) <==> virt_indices(self@, n as int, c).contains(x) by {
                        if virt_indices(self@, n as int, c).contains(x) {
                            assert(candidates@.contains(x));
                            assert(items@.to_set().contains(x));
                        }
                    }
                    assert(indices@ =~= virt_indices(self@, n as int, c));
                }
                Some((c, indices))
            },
            None => None,
        }
    }

    /// The handle of the complete match of `query`: of the node with the
    /// least set that holds every symbol of `query`, if there is one.
    pub fn complete_match_id(&self, query: &OrderedSet) -> (r: Option<usize>)
        requires
            self.wf(),
        ensures
            match r {
                Some(id) => {
                    &&& complete_match_of(self@, query@) == Some(id as int)
                    &&& id < self@.len()
                    &&& query@.subset_of(self@[id as int].elements)
                    &&& forall|x: int|
                        0 <= x < self@.len() && query@.subset_of((#[trigger] self@[x]).elements)
                            ==> self@[id as int].elements.subset_of(self@[x].elements)
                },
                None => {
                    &&& complete_match_of(self@, query@) is None
                    &&& forall|x: int|
                        0 <= x < self@.len() ==> !query@.subset_of((#[trigger] self@[x]).elements)
                },
            },
    {
        let mut p: usize = 0;
        let mut big_j = query.difference(self.mops[0].elements());
        proof {
            query.lemma_finite();
        }
        proof {
            assert forall|x: int|
                0 <= x < self@.len() && query@.subset_of((#[trigger] self@[x]).elements) implies complete_match_of(
                self@,
                query@,
            ) is Some && self@[complete_match_of(self@, query@).unwrap()].elements.subset_of(
                self@[x].elements,
            ) by {
                lemma_match_is_least(self@, query@, x);
            }
        }
        loop
            invariant
                self.wf(),
                p < self@.len(),
                big_j@.finite(),
                descent(self@, p as int, big_j@) == complete_match_of(self@, query@),
                query@.subset_of(self@[p as int].elements.union(big_j@)),
                forall|x: int|
                    0 <= x < self@.len() && query@.subset_of((#[trigger] self@[x]).elements)
                        ==> complete_match_of(self@, query@) is Some && self@[complete_match_of(
                        self@,
                        query@,
                    ).unwrap()].elements.subset_of(self@[x].elements),
            decreases big_j@.len(),
        {
            match big_j.first() {
                None => {
                    return Some(p);
                },
                Some(j) => {
                    proof {
                        lemma_least_unique(big_j@, j);
                    }
                    let next: usize = match self.mops[p].get_r_child(j) {
                        Some(c) => c,
                        None => match self.mops[p].get_v_child(j) {
                            Some(c) => c,
                            None => {
                                return None;
                            },
                        },
                    };
                    proof {
                        assert(child(self@, p as int, j) == Some(next));
                        lemma_child_edge(self@, p as int, j);
                        let rest = big_j@.difference(self@[next as int].elements);
                        lemma_len_subset(rest, big_j@);
                        rest.lemma_subset_not_in_lt(big_j@, j);
                    }
                    p = next;
                    big_j = big_j.difference(self.mops[p].elements());
                },
            }
        }
    }

    /// The complete match of `query`: the node with the least set that
    /// holds every symbol of `query`, and none if the set of no node holds
    /// them all. It is the node in which the descent for `query` ends.
    pub fn complete_match(&self, query: &OrderedSet) -> (r: Option<&Mop<S>>)
        requires
            self.wf(),
        ensures
            match r {
                Some(m) => {
                    &&& complete_match_of(self@, query@) is Some
                    &&& m@ == self@[complete_match_of(self@, query@).unwrap()]
                    &&& query@.subset_of(m@.elements)
                    &&& forall|x: int|
                        0 <= x < self@.len() && query@.subset_of((#[trigger] self@[x]).elements)
                            ==> m@.elements.subset_of(self@[x].elements)
                },
                None => {
                    &&& complete_match_of(self@, query@) is None
                    &&& forall|x: int|
                        0 <= x < self@.len() ==> !query@.subset_of((#[trigger] self@[x]).elements)
                },
            },
    {
        match self.complete_match_id(query) {
            Some(id) => Some(&self.mops[id]),
            None => None,
        }
    }

    /// Adds the node `m` and returns its handle.
    pub(crate) fn add_mop(&mut self, m: Mop<S>) -> (id: usize)
        requires
            old(self).sound(),
            node_ok(old(self)@.push(m@), old(self)@.len() as int),
        ensures
            final(self).sound(),
            final(self)@ == old(self)@.push(m@),
            id == old(self)@.len(),
            old(self)@.len() < usize::MAX,
    {
        let id: usize = self.mops.len();
        proof {
            lemma_push_keeps_tree(self@, m@);
        }
        self.mops.push(m);
        let count: usize = self.mops.len();
        assert(self@ =~= old(self)@.push(m@));
        id
    }

    /// Installs `c` as a real child of node `n` under each key of `keys`.
    pub(crate) fn install_real(&mut self, n: usize, keys: &OrderedSet, c: usize)
        requires
            old(self).sound(),
            n < old(self)@.len(),
            c < old(self)@.len(),
            keys@.disjoint(old(self)@[n as int].elements),
            keys@.disjoint(old(self)@[n as int].virt.dom()),
            keys@.subset_of(old(self)@[c as int].elements),
            old(self)@[n as int].elements.subset_of(old(self)@[c as int].elements),
        ensures
            final(self).sound(),
            final(self)@ == old(self)@.update(
                n as int,
                MopView {
                    real: installed(old(self)@[n as int].real, keys@, c),
                    ..old(self)@[n as int]
                },
            ),
    {
        let ghost t = self@;
        self.mops[n].insert_r_child(keys, c);
        proof {
            let v = self.mops@[n as int]@;
            assert(self@ =~= t.update(n as int, v));
            self.mops@[n as int].lemma_finite();
            assert(node_ok(t, n as int));
            let t2 = t.update(n as int, v);
            assert forall|j: Symbol| #[trigger] t2[n as int].real.dom().contains(j) implies {
                &&& !t2[n as int].elements.contains(j)
                &&& !t2[n as int].virt.dom().contains(j)
                &&& edge_ok(t2, n as int, t2[n as int].real[j] as int, j)
            } by {
                if !keys@.contains(j) {
                    assert(t[n as int].real.dom().contains(j));
                    assert(edge_ok(t, n as int, t[n as int].real[j] as int, j));
                }
            }
            assert forall|j: Symbol| #[trigger] t2[n as int].virt.dom().contains(j) implies {
                &&& !t2[n as int].elements.contains(j)
                &&& edge_ok(t2, n as int, t2[n as int].virt[j] as int, j)
            } by {
                assert(t[n as int].virt.dom().contains(j));
                assert(edge_ok(t, n as int, t[n as int].virt[j] as int, j));
            }
            lemma_update_keeps_tree(t, n as int, v);
        }
    }

    /// Installs `c` as a virtual child of node `n` under each key of `keys`.
    pub(crate) fn install_virt(&mut self, n: usize, keys: &OrderedSet, c: usize)
        requires
            old(self).sound(),
            n < old(self)@.len(),
            c < old(self)@.len(),
            keys@.disjoint(old(self)@[n as int].elements),
            keys@.disjoint(old(self)@[n as int].real.dom()),
            keys@.subset_of(old(self)@[c as int].elements),
            old(self)@[n as int].elements.subset_of(old(self)@[c as int].elements),
        ensures
            final(self).sound(),
            final(self)@ == old(self)@.update(
                n as int,
                MopView {
                    virt: installed(old(self)@[n as int].virt, keys@, c),
                    ..old(self)@[n as int]
                },
            ),
    {
        let ghost t = self@;
        self.mops[n].insert_v_child(keys, c);
        proof {
            let v = self.mops@[n as int]@;
            assert(self@ =~= t.update(n as int, v));
            self.mops@[n as int].lemma_finite();
            assert(node_ok(t, n as int));
            let t2 = t.update(n as int, v);
            assert forall|j: Symbol| #[trigger] t2[n as int].real.dom().contains(j) implies {
                &&& !t2[n as int].elements.contains(j)
                &&& !t2[n as int].virt.dom().contains(j)
                &&& edge_ok(t2, n as int, t2[n as int].real[j] as int, j)
            } by {
                assert(t[n as int].real.dom().contains(j));
                assert(edge_ok(t, n as int, t[n as int].real[j] as int, j));
            }
            assert forall|j: Symbol| #[trigger] t2[n as int].virt.dom().contains(j) implies {
                &&& !t2[n as int].elements.contains(j)
                &&& edge_ok(t2, n as int, t2[n as int].virt[j] as int, j)
            } by {
                if !keys@.contains(j) {
                    assert(t[n as int].virt.dom().contains(j));
                    assert(edge_ok(t, n as int, t[n as int].virt[j] as int, j));
                }
            }
            lemma_update_keeps_tree(t, n as int, v);
        }
    }

    /// Puts `c` in place of the virtual child of node `n` under `key`.
    pub(crate) fn retarget_virt(&mut self, n: usize, key: Symbol, c: usize)
        requires
            old(self).sound(),
            n < old(self)@.len(),
            c < old(self)@.len(),
            old(self)@[n as int].virt.dom().contains(key),
            old(self)@[c as int].elements.contains(key),
            old(self)@[n as int].elements.subset_of(old(self)@[c as int].elements),
        ensures
            final(self).sound(),
            final(self)@ == old(self)@.update(
                n as int,
                MopView {
                    virt: old(self)@[n as int].virt.insert(key, c),
                    ..old(self)@[n as int]
                },
            ),
    {
        let ghost t = self@;
        self.mops[n].retarget_v_child(key, c);
        proof {
            let v = self.mops@[n as int]@;
            assert(self@ =~= t.update(n as int, v));
            self.mops@[n as int].lemma_finite();
            assert(node_ok(t, n as int));
            let t2 = t.update(n as int, v);
            assert forall|j: Symbol| #[trigger] t2[n as int].real.dom().contains(j) implies {
                &&& !t2[n as int].elements.contains(j)
                &&& !t2[n as int].virt.dom().contains(j)
                &&& edge_ok(t2, n as int, t2[n as int].real[j] as int, j)
            } by {
                assert(t[n as int].real.dom().contains(j));
                assert(edge_ok(t, n as int, t[n as int].real[j] as int, j));
            }
            assert forall|j: Symbol| #[trigger] t2[n as int].virt.dom().contains(j) implies {
                &&& !t2[n as int].elements.contains(j)
                &&& edge_ok(t2, n as int, t2[n as int].virt[j] as int, j)
            } by {
                assert(t[n as int].virt.dom().contains(j));
                if j != key {
                    assert(edge_ok(t, n as int, t[n as int].virt[j] as int, j));
                }
            }
            lemma_update_keeps_tree(t, n as int, v);
        }
    }

    /// Makes `c` a real child of node `n` under each key of `keys`, which
    /// were virtual keys of `n`, and takes those keys out of the virtual edges.
    pub(crate) fn promote(&mut self, n: usize, keys: &OrderedSet, c: usize)
        requires
            old(self).sound(),
            n < old(self)@.len(),
            c < old(self)@.len(),
            keys@.subset_of(old(self)@[n as int].virt.dom()),
            keys@.subset_of(old(self)@[c as int].elements),
            old(self)@[n as int].elements.subset_of(old(self)@[c as int].elements),
        ensures
            final(self).sound(),
            final(self)@ == old(self)@.update(
                n as int,
                MopView {
                    real: installed(old(self)@[n as int].real, keys@, c),
                    virt: old(self)@[n as int].virt.remove_keys(keys@),
                    ..old(self)@[n as int]
                },
            ),
    {
        let ghost t = self@;
        self.mops[n].insert_r_child(keys, c);
        self.mops[n].delete_v_children(keys);
        proof {
            let v = self.mops@[n as int]@;
            assert(self@ =~= t.update(n as int, v));
            self.mops@[n as int].lemma_finite();
            assert(node_ok(t, n as int));
            let t2 = t.update(n as int, v);
            assert forall|j: Symbol| #[trigger] t2[n as int].real.dom().contains(j) implies {
                &&& !t2[n as int].elements.contains(j)
                &&& !t2[n as int].virt.dom().contains(j)
                &&& edge_ok(t2, n as int, t2[n as int].real[j] as int, j)
            } by {
                if !keys@.contains(j) {
                    assert(t[n as int].real.dom().contains(j));
                    assert(edge_ok(t, n as int, t[n as int].real[j] as int, j));
                } else {
                    assert(t[n as int].virt.dom().contains(j));
                }
            }
            assert forall|j: Symbol| #[trigger] t2[n as int].virt.dom().contains(j) implies {
                &&& !t2[n as int].elements.contains(j)
                &&& edge_ok(t2, n as int, t2[n as int].virt[j] as int, j)
            } by {
                assert(t[n as int].virt.dom().contains(j));
                assert(edge_ok(t, n as int, t[n as int].virt[j] as int, j));
            }
            lemma_update_keeps_tree(t, n as int, v);
        }
    }

    /// One growth step of the trace strength of node `n`.
    pub(crate) fn incr_trace(&mut self, n: usize)
        requires
            old(self).sound(),
            n < old(self)@.len(),
        ensures
            final(self).sound(),
            final(self)@ == old(self)@.update(
                n as int,
                MopView { trace: S::grow(old(self)@[n as int].trace), ..old(self)@[n as int] },
            ),
            old(self)@[n as int].trace <= final(self)@[n as int].trace,
            final(self)@[n as int].trace > 0,
    {
        let ghost t = self@;
        self.mops[n].incr_trace_strength();
        proof {
            let v = self.mops@[n as int]@;
            assert(self@ =~= t.update(n as int, v));
            assert(node_ok(t, n as int));
            self.lemma_strength_change(t, n as int, v);
        }
    }

    /// One growth step of the epitome strength of node `n`.
    pub(crate) fn incr_epitome(&mut self, n: usize)
        requires
            old(self).sound(),
            n < old(self)@.len(),
        ensures
            final(self).sound(),
            final(self)@ == old(self)@.update(
                n as int,
                MopView { epitome: S::grow(old(self)@[n as int].epitome), ..old(self)@[n as int] },
            ),
            old(self)@[n as int].epitome <= final(self)@[n as int].epitome,
    {
        let ghost t = self@;
        self.mops[n].incr_epitome_strength();
        proof {
            let v = self.mops@[n as int]@;
            assert(self@ =~= t.update(n as int, v));
            assert(node_ok(t, n as int));
            self.lemma_strength_change(t, n as int, v);
        }
    }

    /// One growth step of the undifferentiated strength of node `n`.
    pub(crate) fn incr_undif(&mut self, n: usize)
        requires
            old(self).sound(),
            n < old(self)@.len(),
        ensures
            final(self).sound(),
            final(self)@ == old(self)@.update(
                n as int,
                MopView { undif: S::grow(old(self)@[n as int].undif), ..old(self)@[n as int] },
            ),
            old(self)@[n as int].undif <= final(self)@[n as int].undif,
    {
        let ghost t = self@;
        self.mops[n].incr_undif_strength();
        proof {
            let v = self.mops@[n as int]@;
            assert(self@ =~= t.update(n as int, v));
            assert(node_ok(t, n as int));
            self.lemma_strength_change(t, n as int, v);
        }
    }

    /// One decay step of each of the three strengths of node `n`.
    pub(crate) fn decay(&mut self, n: usize)
        requires
            old(self).sound(),
            n < old(self)@.len(),
        ensures
            final(self).sound(),
            final(self)@ == old(self)@.update(
                n as int,
                MopView {
                    trace: S::decay(old(self)@[n as int].trace),
                    epitome: S::decay(old(self)@[n as int].epitome),
                    undif: S::decay(old(self)@[n as int].undif),
                    ..old(self)@[n as int]
                },
            ),
            decayed(old(self)@[n as int], final(self)@[n as int]),
    {
        let ghost t = self@;
        self.mops[n].decr_trace_strength();
        self.mops[n].decr_epitome_strength();
        self.mops[n].decr_undif_strength();
        proof {
            let v = self.mops@[n as int]@;
            assert(self@ =~= t.update(n as int, v));
            assert(node_ok(t, n as int));
            self.lemma_strength_change(t, n as int, v);
        }
    }

    /// A change of the strengths of one node, within bounds, leaves a tree.
    proof fn lemma_strength_change(&self, t: Seq<MopView>, n: int, v: MopView)
        requires
            well_formed(t),
            0 <= n < t.len(),
            v.elements == t[n].elements,
            v.real == t[n].real,
            v.virt == t[n].virt,
            v.trace <= UNIT,
            v.epitome <= UNIT,
            v.undif <= UNIT,
        ensures
            well_formed(t.update(n, v)),
    {
        let t2 = t.update(n, v);
        assert(node_ok(t, n));
        assert forall|j: Symbol| #[trigger] t2[n].real.dom().contains(j) implies {
            &&& !t2[n].elements.contains(j)
            &&& !t2[n].virt.dom().contains(j)
            &&& edge_ok(t2, n, t2[n].real[j] as int, j)
        } by {
            assert(edge_ok(t, n, t[n].real[j] as int, j));
        }
        assert forall|j: Symbol| #[trigger] t2[n].virt.dom().contains(j) implies {
            &&& !t2[n].elements.contains(j)
            &&& edge_ok(t2, n, t2[n].virt[j] as int, j)
        } by {
            assert(edge_ok(t, n, t[n].virt[j] as int, j));
        }
        lemma_update_keeps_tree(t, n, v);
    }
}

/// From `a` to `b` a node has lost strength and nothing else: no strength
/// has risen, and each strength that was above zero has fallen.
pub open spec fn decayed(a: MopView, b: MopView) -> bool {
    &&& b.elements == a.elements
    &&& b.real == a.real
    &&& b.virt == a.virt
    &&& b.trace <= a.trace
    &&& b.epitome <= a.epitome
    &&& b.undif <= a.undif
    &&& a.trace > 0 ==> b.trace < a.trace
    &&& a.epitome > 0 ==> b.epitome < a.epitome
    &&& a.undif > 0 ==> b.undif < a.undif
}

} // verus!
