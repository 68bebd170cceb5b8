//! Checks of a tree at run time: whether the keys of its nodes are apart,
//! and whether it is ready to take an excerpt in.
use vstd::prelude::*;
use crate::model::{child, compatible, distance, keys_apart, lemma_child_edge,
    lemma_distance_child, lemma_keys_apart};
use crate::ordered_set::{OrderedSet, Symbol};
use crate::strength::Strength;
use crate::tree::RedundantDiscriminationTree;

verus! {

impl<S: Strength> RedundantDiscriminationTree<S> {
    /// Whether, at node `n`, no key of a child edge is in the node's set
    /// and no key is both real and virtual.
    pub fn verify_mop(&self, n: usize) -> (ok: bool)
        requires
            n < self@.len(),
        ensures
            ok == keys_apart(self@[n as int]),
            self.sound() ==> ok,
    {
        proof {
            if self.sound() {
                lemma_keys_apart(self@, n as int);
            }
        }
        let r_indices = self.mop(n).children_r().keys();
        let v_indices = self.mop(n).children_v().keys();
        let mut result = true;
        if !r_indices.is_disjoint(self.mop(n).elements()) {
            result = false;
        }
        if !v_indices.is_disjoint(self.mop(n).elements()) {
            result = false;
        }
        if !r_indices.is_disjoint(&v_indices) {
            result = false;
        }
        result
    }

    /// Whether the keys of every node are apart.
    pub fn verify_tree(&self) -> (ok: bool)
        ensures
            ok == forall|n: int| 0 <= n < self@.len() ==> keys_apart(#[trigger] self@[n]),
            self.sound() ==> ok,
    {
        proof {
            if self.sound() {
                assert forall|n: int| 0 <= n < self@.len() implies keys_apart(#[trigger] self@[n]) by {
                    lemma_keys_apart(self@, n);
                }
            }
        }
        let mut n: usize = 0;
        while n < self.node_count()
            invariant
                n <= self@.len(),
                forall|k: int| 0 <= k < n ==> keys_apart(#[trigger] self@[k]),
            decreases self@.len() - n,
        {
            if !self.verify_mop(n) {
                return false;
            }
            n = n + 1;
        }
        true
    }

    /// Whether every node that `excerpt` reaches from node `n` has its set
    /// within `excerpt`. The excerpt reaches the child under each of its
    /// symbols: the real child if there is one, else the virtual one.
    pub fn is_recursive_compatible_with(&self, n: usize, excerpt: &OrderedSet) -> (ok: bool)
        requires
            self.sound(),
            n < self@.len(),
        ensures
            ok == compatible(self@, n as int, excerpt@),
        decreases distance(self@, n as int, excerpt@),
    {
        let ghost t = self@;
        let ghost e = excerpt@;
        proof {
            excerpt.lemma_finite();
        }
        if !self.mop(n).elements().is_subset(excerpt) {
            return false;
        }
        let items = excerpt.items();
        let mut i: usize = 0;
        while i < items.len()
            invariant
                i <= items.len(),
                t == self@,
                e == excerpt@,
                e.finite(),
                self.sound(),
                n < t.len(),
                items@.to_set() == e,
                t[n as int].elements.subset_of(e),
                forall|k: int|
                    #![trigger items@[k]]
                    0 <= k < i && child(t, n as int, items@[k]) is Some ==> compatible(
                        t,
                        child(t, n as int, items@[k]).unwrap() as int,
                        e,
                    ),
            decreases items.len() - i,
        {
            let key: Symbol = items[i];
            assert(items@.contains(key));
            assert(e.contains(key));
            let found: Option<usize> = match self.mop(n).get_r_child(key) {
                Some(c) => Some(c),
                None => self.mop(n).get_v_child(key),
            };
            assert(found == child(t, n as int, key));
            match found {
                Some(c) => {
                    proof {
                        lemma_child_edge(t, n as int, key);
                        lemma_distance_child(t, n as int, c as int, key, e);
                    }
                    if !self.is_recursive_compatible_with(c, excerpt) {
                        return false;
                    }
                },
                None => {},
            }
            i = i + 1;
        }
        proof {
            assert forall|j: Symbol|
                #![trigger child(t, n as int, j)]
                e.contains(j) && child(t, n as int, j) is Some implies {
                &&& distance(t, child(t, n as int, j).unwrap() as int, e) < distance(t, n as int, e)
                &&& compatible(t, child(t, n as int, j).unwrap() as int, e)
            } by {
                assert(items@.to_set().contains(j));
                let k = choose|k: int| 0 <= k < items@.len() && items@[k] == j;
                assert(child(t, n as int, items@[k]) is Some);
                lemma_child_edge(t, n as int, j);
                lemma_distance_child(t, n as int, child(t, n as int, j).unwrap() as int, j, e);
            }
        }
        true
    }
}

} // verus!
