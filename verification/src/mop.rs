//! A memory-organisation packet: one node of the tree.
//!
//! A node holds its characterising set, its real and its virtual child edges
//! and three strengths. A child is named by its handle, the index of the child
//! in the tree that owns both nodes, so two keys lead to the same child
//! exactly when they hold the same handle.
use vstd::prelude::*;
use crate::ordered_map::OrderedMap;
use crate::ordered_set::{OrderedSet, Symbol};
use crate::strength::{Strength, UNIT};

verus! {

/// What a node is to the contracts: its set, its two edge maps and the
/// levels of its three strengths.
pub struct MopView {
    /// The characterising set.
    pub elements: Set<Symbol>,
    /// The real child edges.
    pub real: Map<Symbol, usize>,
    /// The virtual child edges.
    pub virt: Map<Symbol, usize>,
    /// The level of the trace strength.
    pub trace: nat,
    /// The level of the epitome strength.
    pub epitome: nat,
    /// The level of the undifferentiated strength.
    pub undif: nat,
}

/// `edges` after `child` has been installed under every key of `keys`.
pub open spec fn installed(edges: Map<Symbol, usize>, keys: Set<Symbol>, child: usize) -> Map<
    Symbol,
    usize,
> {
    Map::new(
        |k: Symbol| edges.dom().contains(k) || keys.contains(k),
        |k: Symbol|
            if keys.contains(k) {
                child
            } else {
                edges[k]
            },
    )
}

/// A node of the tree.
#[derive(Debug)]
pub struct Mop<S: Strength> {
    elements: OrderedSet,
    children_r: OrderedMap,
    children_v: OrderedMap,
    trace_strength: S,
    epitome_strength: S,
    undif_strength: S,
}

impl<S: Strength> View for Mop<S> {
    type V = MopView;

    closed spec fn view(&self) -> MopView {
        MopView {
            elements: self.elements@,
            real: self.children_r@,
            virt: self.children_v@,
            trace: self.trace_strength.level(),
            epitome: self.epitome_strength.level(),
            undif: self.undif_strength.level(),
        }
    }
}

impl<S: Strength> Mop<S> {
    /// The set and the key sets of a node are finite.
    pub proof fn lemma_finite(&self)
        ensures
            self@.elements.finite(),
            self@.real.dom().finite(),
            self@.virt.dom().finite(),
    {
        self.elements.lemma_finite();
        self.children_r.lemma_finite();
        self.children_v.lemma_finite();
    }

    /// The characterising set.
    pub fn elements(&self) -> (s: &OrderedSet)
        ensures
            s@ == self@.elements,
    {
        &self.elements
    }

    /// The level of the trace strength, between `0` and `UNIT`.
    pub fn trace_strength(&self) -> (v: u64)
        ensures
            v == self@.trace,
            v <= UNIT,
    {
        self.trace_strength.value()
    }

    /// The level of the epitome strength, between `0` and `UNIT`.
    pub fn epitome_strength(&self) -> (v: u64)
        ensures
            v == self@.epitome,
            v <= UNIT,
    {
        self.epitome_strength.value()
    }

    /// Whether this node stands for an excerpt that was seen: its trace strength is above zero.
    pub fn is_trace(&self) -> (b: bool)
        ensures
            b == (self@.trace > 0),
    {
        self.trace_strength() > 0
    }

    /// Whether this node has a child, real or virtual.
    pub fn is_epitome(&self) -> (b: bool)
        ensures
            b == (self@.real.dom().len() > 0 || self@.virt.dom().len() > 0),
            b == !(self@.real.dom().is_empty() && self@.virt.dom().is_empty()),
    {
        proof {
            self.lemma_finite();
            if self@.real.dom().len() == 0 {
                assert(self@.real.dom().is_empty());
            }
            if self@.virt.dom().len() == 0 {
                assert(self@.virt.dom().is_empty());
            }
        }
        self.children_r.len() > 0 || self.children_v.len() > 0
    }

    /// The real child edges by ascending key: each key with the handle of its child.
    pub fn real_edges(&self) -> (edges: Vec<(Symbol, usize)>)
        ensures
            edges@.len() == self@.real.dom().len(),
            forall|i: int|
                0 <= i < edges@.len() ==> self@.real.dom().contains((#[trigger] edges@[i]).0)
                    && self@.real[edges@[i].0] == edges@[i].1,
            forall|i: int, j: int| 0 <= i < j < edges@.len() ==> edges@[i].0 < edges@[j].0,
    {
        Self::edge_list(&self.children_r)
    }

    /// The virtual child edges by ascending key: each key with the handle of its child.
    pub fn virtual_edges(&self) -> (edges: Vec<(Symbol, usize)>)
        ensures
            edges@.len() == self@.virt.dom().len(),
            forall|i: int|
                0 <= i < edges@.len() ==> self@.virt.dom().contains((#[trigger] edges@[i]).0)
                    && self@.virt[edges@[i].0] == edges@[i].1,
            forall|i: int, j: int| 0 <= i < j < edges@.len() ==> edges@[i].0 < edges@[j].0,
    {
        Self::edge_list(&self.children_v)
    }

    /// The entries of `map` by ascending key.
    fn edge_list(map: &OrderedMap) -> (edges: Vec<(Symbol, usize)>)
        ensures
            edges@.len() == map@.dom().len(),
            forall|i: int|
                0 <= i < edges@.len() ==> map@.dom().contains((#[trigger] edges@[i]).0) && map@[edges@[i].0]
                    == edges@[i].1,
            forall|i: int, j: int| 0 <= i < j < edges@.len() ==> edges@[i].0 < edges@[j].0,
    {
        let (keys, values) = map.entries();
        let count: usize = map.len();
        proof {
            crate::ordered_set::lemma_ascending_len(keys@);
        }
        let mut edges: Vec<(Symbol, usize)> = Vec::new();
        let mut i: usize = 0;
        while i < keys.len()
            invariant
                i <= keys.len(),
                keys@.len() == values@.len(),
                edges@.len() == i,
                forall|k: int| 0 <= k < i ==> (#[trigger] edges@[k]) == (keys@[k], values@[k]),
            decreases keys.len() - i,
        {
            edges.push((keys[i], values[i]));
            i = i + 1;
        }
        proof {
            assert forall|k: int| 0 <= k < edges@.len() implies map@.dom().contains(
                (#[trigger] edges@[k]).0,
            ) && map@[edges@[k].0] == edges@[k].1 by {
                assert(keys@.contains(keys@[k]));
                assert(keys@.to_set().contains(keys@[k]));
            }
        }
        edges
    }

    /// The node of the empty set, with no child and all strengths at zero.
    pub(crate) fn tabula_rasa() -> (m: Self)
        ensures
            m@ == (MopView {
                elements: Set::empty(),
                real: Map::empty(),
                virt: Map::empty(),
                trace: 0,
                epitome: 0,
                undif: 0,
            }),
    {
        Mop {
            elements: OrderedSet::new(),
            children_r: OrderedMap::new(),
            children_v: OrderedMap::new(),
            trace_strength: S::new(false),
            epitome_strength: S::new(false),
            undif_strength: S::new(false),
        }
    }

    /// A childless node for an excerpt seen once.
    pub(crate) fn new_trace(elements: OrderedSet) -> (m: Self)
        ensures
            m@ == (MopView {
                elements: elements@,
                real: Map::empty(),
                virt: Map::empty(),
                trace: S::grow(0),
                epitome: 0,
                undif: S::grow(0),
            }),
            0 < m@.trace <= UNIT,
            m@.undif <= UNIT,
    {
        proof {
            S::lemma_grow(0);
        }
        Mop {
            elements,
            children_r: OrderedMap::new(),
            children_v: OrderedMap::new(),
            trace_strength: S::new(true),
            epitome_strength: S::new(false),
            undif_strength: S::new(true),
        }
    }

    /// A node that abstracts from a node of undifferentiated strength
    /// `undif_strength`: it takes `children_v` as its virtual children.
    pub(crate) fn new_epitome(elements: OrderedSet, children_v: OrderedMap, undif_strength: S) -> (m:
        Self)
        ensures
            m@ == (MopView {
                elements: elements@,
                real: Map::empty(),
                virt: children_v@,
                trace: 0,
                epitome: undif_strength.level(),
                undif: undif_strength.level(),
            }),
    {
        Mop {
            elements,
            children_r: OrderedMap::new(),
            children_v,
            trace_strength: S::new(false),
            epitome_strength: undif_strength,
            undif_strength,
        }
    }

    /// The undifferentiated strength.
    pub(crate) fn undif_strength(&self) -> (s: S)
        ensures
            s.level() == self@.undif,
            s.level() <= UNIT,
    {
        let v: u64 = self.undif_strength.value();
        self.undif_strength
    }

    /// The real child edges.
    pub(crate) fn children_r(&self) -> (m: &OrderedMap)
        ensures
            m@ == self@.real,
    {
        &self.children_r
    }

    /// The virtual child edges.
    pub(crate) fn children_v(&self) -> (m: &OrderedMap)
        ensures
            m@ == self@.virt,
    {
        &self.children_v
    }

    /// Installs `child` as a real child under each key of `keys`.
    pub(crate) fn insert_r_child(&mut self, keys: &OrderedSet, child: usize)
        ensures
            final(self)@ == (MopView { real: installed(old(self)@.real, keys@, child), ..old(self)@ }),
    {
        let items = keys.items();
        let mut i: usize = 0;
        proof {
            assert(items@.subrange(0, 0).to_set() =~= Set::<Symbol>::empty());
            assert(installed(self@.real, Set::empty(), child) =~= self@.real);
        }
        while i < items.len()
            invariant
                i <= items.len(),
                items@.to_set() == keys@,
                self@ == (MopView {
                    real: installed(old(self)@.real, items@.subrange(0, i as int).to_set(), child),
                    ..old(self)@
                }),
            decreases items.len() - i,
        {
            let ghost before = items@.subrange(0, i as int);
            self.children_r.insert(items[i], child);
            proof {
                assert(items@.subrange(0, i + 1) =~= before.push(items@[i as int]));
                before.lemma_push_to_set_commute(items@[i as int]);
                assert(self@.real =~= installed(
                    old(self)@.real,
                    items@.subrange(0, i + 1).to_set(),
                    child,
                ));
            }
            i = i + 1;
        }
        proof {
            assert(items@.subrange(0, i as int) =~= items@);
        }
    }

    /// Installs `child` as a virtual child under each key of `keys`.
    pub(crate) fn insert_v_child(&mut self, keys: &OrderedSet, child: usize)
        ensures
            final(self)@ == (MopView { virt: installed(old(self)@.virt, keys@, child), ..old(self)@ }),
    {
        let items = keys.items();
        let mut i: usize = 0;
        proof {
            assert(items@.subrange(0, 0).to_set() =~= Set::<Symbol>::empty());
            assert(installed(self@.virt, Set::empty(), child) =~= self@.virt);
        }
        while i < items.len()
            invariant
                i <= items.len(),
                items@.to_set() == keys@,
                self@ == (MopView {
                    virt: installed(old(self)@.virt, items@.subrange(0, i as int).to_set(), child),
                    ..old(self)@
                }),
            decreases items.len() - i,
        {
            let ghost before = items@.subrange(0, i as int);
            self.children_v.insert(items[i], child);
            proof {
                assert(items@.subrange(0, i + 1) =~= before.push(items@[i as int]));
                before.lemma_push_to_set_commute(items@[i as int]);
                assert(self@.virt =~= installed(
                    old(self)@.virt,
                    items@.subrange(0, i + 1).to_set(),
                    child,
                ));
            }
            i = i + 1;
        }
        proof {
            assert(items@.subrange(0, i as int) =~= items@);
        }
    }

    /// Puts `child` in place of the virtual child under `key`.
    pub(crate) fn retarget_v_child(&mut self, key: Symbol, child: usize)
        ensures
            final(self)@ == (MopView { virt: old(self)@.virt.insert(key, child), ..old(self)@ }),
    {
        self.children_v.insert(key, child);
    }

    /// Takes each key of `keys` out of the virtual child edges.
    pub(crate) fn delete_v_children(&mut self, keys: &OrderedSet)
        ensures
            final(self)@ == (MopView { virt: old(self)@.virt.remove_keys(keys@), ..old(self)@ }),
    {
        let items = keys.items();
        let mut i: usize = 0;
        proof {
            assert(items@.subrange(0, 0).to_set() =~= Set::<Symbol>::empty());
            assert(self@.virt.remove_keys(Set::empty()) =~= self@.virt);
        }
        while i < items.len()
            invariant
                i <= items.len(),
                items@.to_set() == keys@,
                self@ == (MopView {
                    virt: old(self)@.virt.remove_keys(items@.subrange(0, i as int).to_set()),
                    ..old(self)@
                }),
            decreases items.len() - i,
        {
            let ghost before = items@.subrange(0, i as int);
            self.children_v.remove(items[i]);
            proof {
                assert(items@.subrange(0, i + 1) =~= before.push(items@[i as int]));
                before.lemma_push_to_set_commute(items@[i as int]);
                assert(self@.virt =~= old(self)@.virt.remove_keys(
                    items@.subrange(0, i + 1).to_set(),
                ));
            }
            i = i + 1;
        }
        proof {
            assert(items@.subrange(0, i as int) =~= items@);
        }
    }

    /// The real child under `key`, if there is one.
    pub(crate) fn get_r_child(&self, key: Symbol) -> (r: Option<usize>)
        ensures
            r == (if self@.real.dom().contains(key) {
                Some(self@.real[key])
            } else {
                None
            }),
    {
        self.children_r.get(key)
    }

    /// The virtual child under `key`, if there is one.
    pub(crate) fn get_v_child(&self, key: Symbol) -> (r: Option<usize>)
        ensures
            r == (if self@.virt.dom().contains(key) {
                Some(self@.virt[key])
            } else {
                None
            }),
    {
        self.children_v.get(key)
    }

    /// Whether no key of a child edge, real or virtual, is in `set`.
    pub(crate) fn is_disjoint_child_indices(&self, set: &OrderedSet) -> (b: bool)
        ensures
            b == (self@.real.dom().disjoint(set@) && self@.virt.dom().disjoint(set@)),
    {
        self.children_r.keys().is_disjoint(set) && self.children_v.keys().is_disjoint(set)
    }

    /// The real and the virtual child edges in one map. Under a key that is
    /// both a real and a virtual key the real child stands.
    pub(crate) fn merged_children(&self) -> (m: OrderedMap)
        ensures
            m@ == self@.virt.union_prefer_right(self@.real),
    {
        self.children_r.merged(&self.children_v)
    }

    /// One growth step of the trace strength.
    pub(crate) fn incr_trace_strength(&mut self)
        ensures
            final(self)@ == (MopView { trace: S::grow(old(self)@.trace), ..old(self)@ }),
            old(self)@.trace <= final(self)@.trace <= UNIT,
            final(self)@.trace > 0,
    {
        self.trace_strength = self.trace_strength.incremented();
    }

    /// One decay step of the trace strength.
    pub(crate) fn decr_trace_strength(&mut self)
        ensures
            final(self)@ == (MopView { trace: S::decay(old(self)@.trace), ..old(self)@ }),
            final(self)@.trace <= old(self)@.trace <= UNIT,
            old(self)@.trace > 0 ==> final(self)@.trace < old(self)@.trace,
    {
        self.trace_strength = self.trace_strength.decremented();
    }

    /// One growth step of the epitome strength.
    pub(crate) fn incr_epitome_strength(&mut self)
        ensures
            final(self)@ == (MopView { epitome: S::grow(old(self)@.epitome), ..old(self)@ }),
            old(self)@.epitome <= final(self)@.epitome <= UNIT,
    {
        self.epitome_strength = self.epitome_strength.incremented();
    }

    /// One decay step of the epitome strength.
    pub(crate) fn decr_epitome_strength(&mut self)
        ensures
            final(self)@ == (MopView { epitome: S::decay(old(self)@.epitome), ..old(self)@ }),
            final(self)@.epitome <= old(self)@.epitome <= UNIT,
            old(self)@.epitome > 0 ==> final(self)@.epitome < old(self)@.epitome,
    {
        self.epitome_strength = self.epitome_strength.decremented();
    }

    /// One growth step of the undifferentiated strength.
    pub(crate) fn incr_undif_strength(&mut self)
        ensures
            final(self)@ == (MopView { undif: S::grow(old(self)@.undif), ..old(self)@ }),
            old(self)@.undif <= final(self)@.undif <= UNIT,
    {
        self.undif_strength = self.undif_strength.incremented();
    }

    /// One decay step of the undifferentiated strength.
    pub(crate) fn decr_undif_strength(&mut self)
        ensures
            final(self)@ == (MopView { undif: S::decay(old(self)@.undif), ..old(self)@ }),
            final(self)@.undif <= old(self)@.undif <= UNIT,
            old(self)@.undif > 0 ==> final(self)@.undif < old(self)@.undif,
    {
        self.undif_strength = self.undif_strength.decremented();
    }
}

} // verus!
