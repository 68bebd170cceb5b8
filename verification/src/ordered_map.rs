//! An ordered map from symbols to node handles, kept as two vectors in step:
//! the keys, strictly ascending, and the value of each key.
//!
//! The contracts speak of the map's view, a finite `Map<u64, usize>`.
use vstd::prelude::*;
use crate::ordered_set::{ascending, lemma_ascending_len, lemma_insert_at, lemma_remove_at,
    lower_bound, with_inserted, with_removed, OrderedSet, Symbol};

verus! {

/// The map that pairs each key of `keys` with the value at the same index.
pub open spec fn paired(keys: Seq<Symbol>, values: Seq<usize>) -> Map<Symbol, usize> {
    Map::new(|k: Symbol| keys.contains(k), |k: Symbol| values[keys.index_of(k)])
}

/// In an ascending key sequence each key has one index, so `paired` gives
/// the key at index `i` the value at index `i`.
pub proof fn lemma_paired_at(keys: Seq<Symbol>, values: Seq<usize>, i: int)
    requires
        ascending(keys),
        0 <= i < keys.len(),
    ensures
        paired(keys, values).dom().contains(keys[i]),
        paired(keys, values)[keys[i]] == values[i],
        keys.index_of(keys[i]) == i,
{
    assert(keys.contains(keys[i]));
    let j = keys.index_of(keys[i]);
    assert(0 <= j < keys.len() && keys[j] == keys[i]);
    if j < i {
        assert(keys[j] < keys[i]);
    }
    if i < j {
        assert(keys[i] < keys[j]);
    }
}

/// Putting a new key at its place adds one entry to the paired map.
pub proof fn lemma_paired_insert(keys: Seq<Symbol>, values: Seq<usize>, pos: int, k: Symbol, v: usize)
    requires
        ascending(keys),
        keys.len() == values.len(),
        0 <= pos <= keys.len(),
        forall|i: int| 0 <= i < pos ==> keys[i] < k,
        forall|i: int| pos <= i < keys.len() ==> k < keys[i],
    ensures
        ascending(keys.insert(pos, k)),
        paired(keys.insert(pos, k), values.insert(pos, v)) == paired(keys, values).insert(k, v),
{
    lemma_insert_at(keys, pos, k);
    let nk = keys.insert(pos, k);
    let nv = values.insert(pos, v);
    let before = paired(keys, values);
    let after = paired(nk, nv);
    assert forall|x: Symbol| after.dom().contains(x) <==> before.insert(k, v).dom().contains(x) by {
        assert(nk.to_set().contains(x) <==> keys.to_set().insert(k).contains(x));
    }
    assert forall|x: Symbol| after.dom().contains(x) implies after[x] == before.insert(k, v)[x] by {
        let i = choose|i: int| 0 <= i < nk.len() && nk[i] == x;
        lemma_paired_at(nk, nv, i);
        if i < pos {
            lemma_paired_at(keys, values, i);
        } else if i > pos {
            lemma_paired_at(keys, values, i - 1);
        }
    }
    assert(after =~= before.insert(k, v));
}

/// Taking out the key at `pos` takes its entry out of the paired map.
pub proof fn lemma_paired_remove(keys: Seq<Symbol>, values: Seq<usize>, pos: int)
    requires
        ascending(keys),
        keys.len() == values.len(),
        0 <= pos < keys.len(),
    ensures
        ascending(keys.remove(pos)),
        paired(keys.remove(pos), values.remove(pos)) == paired(keys, values).remove(keys[pos]),
{
    lemma_remove_at(keys, pos);
    let nk = keys.remove(pos);
    let nv = values.remove(pos);
    let before = paired(keys, values);
    let after = paired(nk, nv);
    assert forall|x: Symbol| after.dom().contains(x) <==> before.remove(keys[pos]).dom().contains(x) by {
        assert(nk.to_set().contains(x) <==> keys.to_set().remove(keys[pos]).contains(x));
    }
    assert forall|x: Symbol| after.dom().contains(x) implies after[x] == before.remove(keys[pos])[x] by {
        let i = choose|i: int| 0 <= i < nk.len() && nk[i] == x;
        lemma_paired_at(nk, nv, i);
        if i < pos {
            lemma_paired_at(keys, values, i);
        } else {
            lemma_paired_at(keys, values, i + 1);
        }
    }
    assert(after =~= before.remove(keys[pos]));
}

/// Replacing the value at `pos` replaces the entry of the key at `pos`.
pub proof fn lemma_paired_update(keys: Seq<Symbol>, values: Seq<usize>, pos: int, v: usize)
    requires
        ascending(keys),
        keys.len() == values.len(),
        0 <= pos < keys.len(),
    ensures
        paired(keys, values.update(pos, v)) == paired(keys, values).insert(keys[pos], v),
{
    let nv = values.update(pos, v);
    let before = paired(keys, values);
    let after = paired(keys, nv);
    assert(keys.contains(keys[pos]));
    assert forall|x: Symbol| after.dom().contains(x) implies after[x] == before.insert(keys[pos], v)[x] by {
        let i = choose|i: int| 0 <= i < keys.len() && keys[i] == x;
        lemma_paired_at(keys, nv, i);
        lemma_paired_at(keys, values, i);
        lemma_paired_at(keys, values, pos);
    }
    assert(after =~= before.insert(keys[pos], v));
}

/// A finite map from symbols to node handles that can be walked by ascending key.
#[derive(Debug)]
pub struct OrderedMap {
    keys: Vec<Symbol>,
    values: Vec<usize>,
}

impl View for OrderedMap {
    type V = Map<Symbol, usize>;

    closed spec fn view(&self) -> Map<Symbol, usize> {
        paired(self.keys@, self.values@)
    }
}

impl OrderedMap {
    #[verifier::type_invariant]
    spec fn in_step(&self) -> bool {
        ascending(self.keys@) && self.keys@.len() == self.values@.len()
    }

    /// The keys of a map are finitely many.
    pub proof fn lemma_finite(&self)
        ensures
            self@.dom().finite(),
    {
        vstd::seq_lib::seq_to_set_is_finite(self.keys@);
        assert(self@.dom() =~= self.keys@.to_set());
    }

    /// The empty map.
    pub fn new() -> (m: Self)
        ensures
            m@ == Map::<Symbol, usize>::empty(),
    {
        let m = OrderedMap { keys: Vec::new(), values: Vec::new() };
        assert(m@ =~= Map::<Symbol, usize>::empty());
        m
    }

    /// The number of entries.
    pub fn len(&self) -> (n: usize)
        ensures
            n == self@.dom().len(),
    {
        proof {
            use_type_invariant(self);
            lemma_ascending_len(self.keys@);
            assert(self@.dom() =~= self.keys@.to_set());
        }
        self.keys.len()
    }

    /// Whether the map has no entry.
    pub fn is_empty(&self) -> (b: bool)
        ensures
            b == (self@ == Map::<Symbol, usize>::empty()),
            b == self@.dom().is_empty(),
    {
        proof {
            if self.keys@.len() > 0 {
                assert(self.keys@.contains(self.keys@[0]));
                assert(self@.dom().contains(self.keys@[0]));
            } else {
                assert(self@ =~= Map::<Symbol, usize>::empty());
            }
        }
        self.keys.len() == 0
    }

    /// The value under `k`, if `k` is a key.
    pub fn get(&self, k: Symbol) -> (r: Option<usize>)
        ensures
            r == (if self@.dom().contains(k) {
                Some(self@[k])
            } else {
                None
            }),
    {
        proof {
            use_type_invariant(self);
        }
        let pos: usize = lower_bound(&self.keys, k);
        if pos < self.keys.len() && self.keys[pos] == k {
            proof {
                lemma_paired_at(self.keys@, self.values@, pos as int);
            }
            Some(self.values[pos])
        } else {
            assert(!self.keys@.contains(k)) by {
                if self.keys@.contains(k) {
                    let i = choose|i: int| 0 <= i < self.keys@.len() && self.keys@[i] == k;
                    assert(self.keys@[i] == k);
                    assert(i > pos);
                    assert(self.keys@[pos as int] < self.keys@[i]);
                }
            }
            None
        }
    }

    /// Whether `k` is a key.
    pub fn contains_key(&self, k: Symbol) -> (b: bool)
        ensures
            b == self@.dom().contains(k),
    {
        self.get(k).is_some()
    }

    /// Puts `v` under `k`, in place of the value that `k` had, if any.
    pub fn insert(&mut self, k: Symbol, v: usize)
        ensures
            final(self)@ == old(self)@.insert(k, v),
    {
        proof {
            use_type_invariant(&*self);
        }
        let pos: usize = lower_bound(&self.keys, k);
        if pos < self.keys.len() && self.keys[pos] == k {
            let values: Vec<usize> = with_replaced(&self.values, pos, v);
            proof {
                lemma_paired_update(self.keys@, self.values@, pos as int, v);
            }
            self.values = values;
        } else {
            let keys: Vec<Symbol> = with_inserted(&self.keys, pos, k);
            let values: Vec<usize> = with_inserted(&self.values, pos, v);
            proof {
                assert forall|i: int| pos <= i < self.keys@.len() implies k < self.keys@[i] by {
                    if i > pos {
                        assert(self.keys@[pos as int] < self.keys@[i]);
                    }
                }
                lemma_paired_insert(self.keys@, self.values@, pos as int, k, v);
            }
            *self = OrderedMap { keys, values };
        }
    }

    /// Takes out the entry under `k`, if there is one.
    pub fn remove(&mut self, k: Symbol)
        ensures
            final(self)@ == old(self)@.remove(k),
    {
        proof {
            use_type_invariant(&*self);
        }
        let pos: usize = lower_bound(&self.keys, k);
        if pos < self.keys.len() && self.keys[pos] == k {
            let keys: Vec<Symbol> = with_removed(&self.keys, pos);
            let values: Vec<usize> = with_removed(&self.values, pos);
            proof {
                lemma_paired_remove(self.keys@, self.values@, pos as int);
            }
            *self = OrderedMap { keys, values };
        } else {
            assert(!self.keys@.contains(k)) by {
                if self.keys@.contains(k) {
                    let i = choose|i: int| 0 <= i < self.keys@.len() && self.keys@[i] == k;
                    assert(self.keys@[i] == k);
                    assert(i > pos);
                    assert(self.keys@[pos as int] < self.keys@[i]);
                }
            }
            assert(self@ =~= self@.remove(k));
        }
    }

    /// The keys in ascending order, and the value of each at the same index.
    pub fn entries(&self) -> (r: (&Vec<Symbol>, &Vec<usize>))
        ensures
            ascending(r.0@),
            r.0@.len() == r.1@.len(),
            r.0@.to_set() == self@.dom(),
            forall|i: int| 0 <= i < r.0@.len() ==> self@[#[trigger] r.0@[i]] == r.1@[i],
    {
        proof {
            use_type_invariant(self);
            assert(self@.dom() =~= self.keys@.to_set());
            assert forall|i: int| 0 <= i < self.keys@.len() implies self@[#[trigger] self.keys@[i]]
                == self.values@[i] by {
                lemma_paired_at(self.keys@, self.values@, i);
            }
        }
        (&self.keys, &self.values)
    }

    /// The set of the keys.
    pub fn keys(&self) -> (s: OrderedSet)
        ensures
            s@ == self@.dom(),
    {
        proof {
            use_type_invariant(self);
            assert(self@.dom() =~= self.keys@.to_set());
        }
        let mut out: Vec<Symbol> = Vec::new();
        let mut i: usize = 0;
        while i < self.keys.len()
            invariant
                i <= self.keys.len(),
                out@ == self.keys@.subrange(0, i as int),
            decreases self.keys.len() - i,
        {
            out.push(self.keys[i]);
            assert(out@ =~= self.keys@.subrange(0, i + 1));
            i = i + 1;
        }
        assert(out@ =~= self.keys@);
        OrderedSet::from_ascending(out)
    }

    /// A copy of this map.
    fn duplicate(&self) -> (m: Self)
        ensures
            m@ == self@,
    {
        proof {
            use_type_invariant(self);
        }
        let mut keys: Vec<Symbol> = Vec::new();
        let mut values: Vec<usize> = Vec::new();
        let mut i: usize = 0;
        while i < self.keys.len()
            invariant
                i <= self.keys.len(),
                self.keys.len() == self.values.len(),
                keys@ == self.keys@.subrange(0, i as int),
                values@ == self.values@.subrange(0, i as int),
            decreases self.keys.len() - i,
        {
            keys.push(self.keys[i]);
            values.push(self.values[i]);
            assert(keys@ =~= self.keys@.subrange(0, i + 1));
            assert(values@ =~= self.values@.subrange(0, i + 1));
            i = i + 1;
        }
        assert(keys@ =~= self.keys@);
        assert(values@ =~= self.values@);
        OrderedMap { keys, values }
    }

    /// The entries of this map, and those of `other` under the keys that this map lacks.
    pub fn merged(&self, other: &OrderedMap) -> (m: Self)
        ensures
            m@ == other@.union_prefer_right(self@),
    {
        proof {
            use_type_invariant(other);
        }
        let mut m = self.clone();
        let mut i: usize = 0;
        while i < other.keys.len()
            invariant
                i <= other.keys.len(),
                other.keys.len() == other.values.len(),
                ascending(other.keys@),
                m@.dom() == self@.dom().union(other.keys@.subrange(0, i as int).to_set()),
                forall|k: Symbol| self@.dom().contains(k) ==> m@[k] == self@[k],
                forall|j: int| 0 <= j < i && !self@.dom().contains(#[trigger] other.keys@[j]) ==> m@[
                    other.keys@[j]] == other.values@[j],
            decreases other.keys.len() - i,
        {
            let k: Symbol = other.keys[i];
            let ghost before = other.keys@.subrange(0, i as int);
            let ghost prev = m@;
            if !m.contains_key(k) {
                m.insert(k, other.values[i]);
            }
            proof {
                assert(other.keys@.subrange(0, i + 1) =~= before.push(k));
                before.lemma_push_to_set_commute(k);
                assert(m@.dom() =~= self@.dom().union(other.keys@.subrange(0, i + 1).to_set()));
                assert forall|j: int| 0 <= j < i + 1 && !self@.dom().contains(
                    #[trigger] other.keys@[j]) implies m@[other.keys@[j]] == other.values@[j] by {
                    if j < i {
                        assert(other.keys@[j] < other.keys@[i as int]);
                    } else {
                        assert(!prev.dom().contains(k)) by {
                            if before.to_set().contains(k) {
                                let a = choose|a: int| 0 <= a < before.len() && before[a] == k;
                                assert(other.keys@[a] < other.keys@[i as int]);
                            }
                        }
                    }
                }
            }
            i = i + 1;
        }
        proof {
            assert(other.keys@.subrange(0, i as int) =~= other.keys@);
            assert(other@.dom() =~= other.keys@.to_set());
            let want = other@.union_prefer_right(self@);
            assert(m@.dom() =~= want.dom());
            assert forall|k: Symbol| m@.dom().contains(k) implies m@[k] == want[k] by {
                if !self@.dom().contains(k) {
                    let j = choose|j: int| 0 <= j < other.keys@.len() && other.keys@[j] == k;
                    lemma_paired_at(other.keys@, other.values@, j);
                    assert(m@[other.keys@[j]] == other.values@[j]);
                }
            }
            assert(m@ =~= want);
        }
        m
    }
}

impl Clone for OrderedMap {
    fn clone(&self) -> (m: Self)
        ensures
            m@ == self@,
    {
        self.duplicate()
    }
}

/// A copy of `items` with `x` at index `pos`.
pub fn with_replaced(items: &Vec<usize>, pos: usize, x: usize) -> (out: Vec<usize>)
    requires
        pos < items.len(),
    ensures
        out@ == items@.update(pos as int, x),
{
    let mut out: Vec<usize> = Vec::new();
    let mut i: usize = 0;
    while i < items.len()
        invariant
            i <= items.len(),
            pos < items.len(),
            out@ == items@.update(pos as int, x).subrange(0, i as int),
        decreases items.len() - i,
    {
        if i == pos {
            out.push(x);
        } else {
            out.push(items[i]);
        }
        assert(out@ =~= items@.update(pos as int, x).subrange(0, i + 1));
        i = i + 1;
    }
    assert(out@ =~= items@.update(pos as int, x));
    out
}

} // verus!
