//! An ordered set of symbols, kept as a strictly ascending vector.
//!
//! The contracts speak of the set's view, a finite `Set<u64>`. What depends on
//! the order (the first element, the elements past a key, the ascending walk)
//! is stated over that view with `is_least`, `above` and `ascending`.
use vstd::prelude::*;

verus! {

/// A symbol of an excerpt. Symbols are ordered as numbers.
pub type Symbol = u64;

/// Each element is smaller than every later one.
pub open spec fn ascending(s: Seq<Symbol>) -> bool {
    forall|i: int, j: int| 0 <= i < j < s.len() ==> s[i] < s[j]
}

/// `x` is the smallest element of `s`.
pub open spec fn is_least(s: Set<Symbol>, x: Symbol) -> bool {
    s.contains(x) && forall|y: Symbol| s.contains(y) ==> x <= y
}

/// The elements of `s` that are greater than `k`.
pub open spec fn above(s: Set<Symbol>, k: Symbol) -> Set<Symbol> {
    Set::new(|x: Symbol| s.contains(x) && x > k)
}

/// An ascending sequence lists the smallest element of its set first.
pub proof fn lemma_first_is_least(s: Seq<Symbol>)
    requires
        ascending(s),
        s.len() > 0,
    ensures
        is_least(s.to_set(), s[0]),
{
    assert(s.contains(s[0]));
    assert forall|y: Symbol| s.to_set().contains(y) implies s[0] <= y by {
        let i = choose|i: int| 0 <= i < s.len() && s[i] == y;
        assert(s[i] == y);
    }
}

/// Two ascending sequences with the same elements are the same sequence.
pub proof fn lemma_ascending_unique(a: Seq<Symbol>, b: Seq<Symbol>)
    requires
        ascending(a),
        ascending(b),
        a.to_set() == b.to_set(),
    ensures
        a == b,
    decreases a.len(),
{
    if a.len() == 0 {
        if b.len() > 0 {
            assert(b.contains(b[0]));
            assert(b.to_set().contains(b[0]));
            assert(a.to_set().contains(b[0]));
        }
        assert(a =~= b);
    } else {
        assert(a.contains(a[0]));
        assert(a.to_set().contains(a[0]));
        assert(b.to_set().contains(a[0]));
        assert(b.len() > 0);
        lemma_first_is_least(a);
        lemma_first_is_least(b);
        assert(a[0] == b[0]);
        let ta = a.subrange(1, a.len() as int);
        let tb = b.subrange(1, b.len() as int);
        assert forall|x: Symbol| ta.to_set().contains(x) == tb.to_set().contains(x) by {
            if ta.contains(x) {
                let i = choose|i: int| 0 <= i < ta.len() && ta[i] == x;
                assert(a[i + 1] == x);
                assert(a.contains(x));
                assert(b.to_set().contains(x));
                let j = choose|j: int| 0 <= j < b.len() && b[j] == x;
                assert(j != 0);
                assert(tb[j - 1] == x);
            }
            if tb.contains(x) {
                let i = choose|i: int| 0 <= i < tb.len() && tb[i] == x;
                assert(b[i + 1] == x);
                assert(b.contains(x));
                assert(a.to_set().contains(x));
                let j = choose|j: int| 0 <= j < a.len() && a[j] == x;
                assert(j != 0);
                assert(ta[j - 1] == x);
            }
        }
        assert(ta.to_set() =~= tb.to_set());
        lemma_ascending_unique(ta, tb);
        assert(a =~= seq![a[0]] + ta);
        assert(b =~= seq![b[0]] + tb);
    }
}

/// The number of elements of an ascending vector that are smaller than `x`.
pub fn lower_bound(items: &Vec<Symbol>, x: Symbol) -> (pos: usize)
    requires
        ascending(items@),
    ensures
        pos <= items.len(),
        forall|i: int| 0 <= i < pos ==> items[i] < x,
        forall|i: int| pos <= i < items.len() ==> x <= items[i],
{
    let mut lo: usize = 0;
    let mut hi: usize = items.len();
    while lo < hi
        invariant
            lo <= hi <= items.len(),
            ascending(items@),
            forall|i: int| 0 <= i < lo ==> items[i] < x,
            forall|i: int| hi <= i < items.len() ==> x <= items[i],
        decreases hi - lo,
    {
        let mid: usize = lo + (hi - lo) / 2;
        if items[mid] < x {
            lo = mid + 1;
        } else {
            hi = mid;
        }
    }
    lo
}

/// A copy of `items` with `x` put in at index `pos`.
pub fn with_inserted<T: Copy>(items: &Vec<T>, pos: usize, x: T) -> (out: Vec<T>)
    requires
        pos <= items.len(),
    ensures
        out@ == items@.insert(pos as int, x),
{
    let mut out: Vec<T> = Vec::new();
    let mut i: usize = 0;
    while i < pos
        invariant
            i <= pos <= items.len(),
            out@ == items@.subrange(0, i as int),
        decreases pos - i,
    {
        out.push(items[i]);
        assert(out@ =~= items@.subrange(0, i + 1));
        i = i + 1;
    }
    out.push(x);
    while i < items.len()
        invariant
            pos <= i <= items.len(),
            out@ == items@.subrange(0, pos as int).push(x) + items@.subrange(pos as int, i as int),
        decreases items.len() - i,
    {
        out.push(items[i]);
        assert(out@ =~= items@.subrange(0, pos as int).push(x) + items@.subrange(pos as int, i + 1));
        i = i + 1;
    }
    assert(out@ =~= items@.insert(pos as int, x));
    out
}

/// A copy of `items` without the element at index `pos`.
pub fn with_removed<T: Copy>(items: &Vec<T>, pos: usize) -> (out: Vec<T>)
    requires
        pos < items.len(),
    ensures
        out@ == items@.remove(pos as int),
{
    let mut out: Vec<T> = Vec::new();
    let mut i: usize = 0;
    while i < items.len()
        invariant
            i <= items.len(),
            pos < items.len(),
            out@ == (if i <= pos {
                items@.subrange(0, i as int)
            } else {
                items@.subrange(0, pos as int) + items@.subrange(pos + 1, i as int)
            }),
        decreases items.len() - i,
    {
        if i != pos {
            out.push(items[i]);
        }
        proof {
            if i < pos {
                assert(out@ =~= items@.subrange(0, i + 1));
            } else if i == pos {
                assert(out@ =~= items@.subrange(0, pos as int) + items@.subrange(pos + 1, i + 1));
            } else {
                assert(out@ =~= items@.subrange(0, pos as int) + items@.subrange(pos + 1, i + 1));
            }
        }
        i = i + 1;
    }
    assert(out@ =~= items@.remove(pos as int));
    out
}

/// A finite set of symbols that can be walked in ascending order.
#[derive(Debug)]
pub struct OrderedSet {
    items: Vec<Symbol>,
}

impl View for OrderedSet {
    type V = Set<Symbol>;

    closed spec fn view(&self) -> Set<Symbol> {
        self.items@.to_set()
    }
}

impl OrderedSet {
    #[verifier::type_invariant]
    spec fn sorted(&self) -> bool {
        ascending(self.items@)
    }

    /// The view of a set is finite.
    pub proof fn lemma_finite(&self)
        ensures
            self@.finite(),
    {
        vstd::seq_lib::seq_to_set_is_finite(self.items@);
    }

    /// The empty set.
    pub fn new() -> (s: Self)
        ensures
            s@ == Set::<Symbol>::empty(),
    {
        let s = OrderedSet { items: Vec::new() };
        assert(s.items@.to_set() =~= Set::<Symbol>::empty());
        s
    }

    /// The set whose ascending walk is `items`.
    pub fn from_ascending(items: Vec<Symbol>) -> (s: Self)
        requires
            ascending(items@),
        ensures
            s@ == items@.to_set(),
    {
        OrderedSet { items }
    }

    /// The set of the symbols of `symbols`, whatever their order and however often each occurs.
    pub fn from_slice(symbols: &[Symbol]) -> (s: Self)
        ensures
            s@ == symbols@.to_set(),
    {
        let mut s = OrderedSet::new();
        let mut i: usize = 0;
        while i < symbols.len()
            invariant
                i <= symbols.len(),
                s@ == symbols@.subrange(0, i as int).to_set(),
            decreases symbols.len() - i,
        {
            let ghost before = symbols@.subrange(0, i as int);
            s.insert(symbols[i]);
            proof {
                assert(symbols@.subrange(0, i + 1) =~= before.push(symbols@[i as int]));
                before.lemma_push_to_set_commute(symbols@[i as int]);
            }
            i = i + 1;
        }
        assert(symbols@.subrange(0, i as int) =~= symbols@);
        s
    }

    /// The set of the symbols of `symbols`.
    pub fn from_vec(symbols: Vec<Symbol>) -> (s: Self)
        ensures
            s@ == symbols@.to_set(),
    {
        OrderedSet::from_slice(symbols.as_slice())
    }

    /// The number of elements.
    pub fn len(&self) -> (n: usize)
        ensures
            n == self@.len(),
    {
        proof {
            use_type_invariant(self);
            lemma_ascending_len(self.items@);
        }
        self.items.len()
    }

    /// Whether the set has no element.
    pub fn is_empty(&self) -> (b: bool)
        ensures
            b == self@.is_empty(),
            b == (self@ == Set::<Symbol>::empty()),
    {
        proof {
            if self.items@.len() > 0 {
                assert(self.items@.contains(self.items@[0]));
                assert(self@.contains(self.items@[0]));
            } else {
                assert(self@ =~= Set::<Symbol>::empty());
            }
        }
        self.items.len() == 0
    }

    /// The elements in ascending order.
    pub fn items(&self) -> (v: &Vec<Symbol>)
        ensures
            ascending(v@),
            v@.to_set() == self@,
            v@.len() == self@.len(),
    {
        proof {
            use_type_invariant(self);
            lemma_ascending_len(self.items@);
        }
        &self.items
    }

    /// Whether `x` is an element.
    pub fn contains(&self, x: Symbol) -> (b: bool)
        ensures
            b == self@.contains(x),
    {
        proof {
            use_type_invariant(self);
        }
        let pos: usize = lower_bound(&self.items, x);
        if pos < self.items.len() && self.items[pos] == x {
            assert(self.items@.contains(x));
            true
        } else {
            assert(!self.items@.contains(x)) by {
                if self.items@.contains(x) {
                    let i = choose|i: int| 0 <= i < self.items@.len() && self.items@[i] == x;
                    assert(self.items@[i] == x);
                    assert(i >= pos);
                    assert(i != pos);
                    assert(self.items@[pos as int] < self.items@[i]);
                }
            }
            false
        }
    }

    /// The smallest element, if there is one.
    pub fn first(&self) -> (r: Option<Symbol>)
        ensures
            match r {
                Some(x) => is_least(self@, x),
                None => self@ == Set::<Symbol>::empty(),
            },
    {
        proof {
            use_type_invariant(self);
        }
        if self.items.len() == 0 {
            assert(self@ =~= Set::<Symbol>::empty());
            None
        } else {
            proof {
                lemma_first_is_least(self.items@);
            }
            Some(self.items[0])
        }
    }

    /// Adds `x`. Returns whether `x` was new.
    pub fn insert(&mut self, x: Symbol) -> (added: bool)
        ensures
            final(self)@ == old(self)@.insert(x),
            added == !old(self)@.contains(x),
    {
        proof {
            use_type_invariant(&*self);
        }
        let pos: usize = lower_bound(&self.items, x);
        if pos < self.items.len() && self.items[pos] == x {
            assert(self.items@.contains(x));
            assert(self@ =~= self@.insert(x));
            false
        } else {
            let ghost before = self.items@;
            assert(!before.contains(x)) by {
                if before.contains(x) {
                    let i = choose|i: int| 0 <= i < before.len() && before[i] == x;
                    assert(before[i] == x);
                    assert(i > pos);
                    assert(before[pos as int] < before[i]);
                }
            }
            let items: Vec<Symbol> = with_inserted(&self.items, pos, x);
            proof {
                lemma_insert_at(before, pos as int, x);
            }
            self.items = items;
            true
        }
    }

    /// Removes `x`. Returns whether `x` was an element.
    pub fn remove(&mut self, x: Symbol) -> (removed: bool)
        ensures
            final(self)@ == old(self)@.remove(x),
            removed == old(self)@.contains(x),
    {
        proof {
            use_type_invariant(&*self);
        }
        let pos: usize = lower_bound(&self.items, x);
        if pos < self.items.len() && self.items[pos] == x {
            let ghost before = self.items@;
            assert(before.contains(x));
            let items: Vec<Symbol> = with_removed(&self.items, pos);
            proof {
                lemma_remove_at(before, pos as int);
            }
            self.items = items;
            true
        } else {
            assert(!self.items@.contains(x)) by {
                if self.items@.contains(x) {
                    let i = choose|i: int| 0 <= i < self.items@.len() && self.items@[i] == x;
                    assert(self.items@[i] == x);
                    assert(i > pos);
                    assert(self.items@[pos as int] < self.items@[i]);
                }
            }
            assert(self@ =~= self@.remove(x));
            false
        }
    }

    /// A copy of this set.
    fn duplicate(&self) -> (s: Self)
        ensures
            s@ == self@,
            s.items@ == self.items@,
    {
        proof {
            use_type_invariant(self);
        }
        let mut out: Vec<Symbol> = Vec::new();
        let mut i: usize = 0;
        while i < self.items.len()
            invariant
                i <= self.items.len(),
                out@ == self.items@.subrange(0, i as int),
            decreases self.items.len() - i,
        {
            out.push(self.items[i]);
            assert(out@ =~= self.items@.subrange(0, i + 1));
            i = i + 1;
        }
        assert(out@ =~= self.items@);
        OrderedSet { items: out }
    }

    /// The elements of this set that are also in `other`.
    pub fn intersection(&self, other: &OrderedSet) -> (s: Self)
        ensures
            s@ == self@.intersect(other@),
    {
        let s = self.select(other, true);
        assert(s@ =~= self@.intersect(other@));
        s
    }

    /// The elements of this set that are not in `other`.
    pub fn difference(&self, other: &OrderedSet) -> (s: Self)
        ensures
            s@ == self@.difference(other@),
    {
        let s = self.select(other, false);
        assert(s@ =~= self@.difference(other@));
        s
    }

    /// The elements of this set whose membership in `other` is `keep`.
    fn select(&self, other: &OrderedSet, keep: bool) -> (s: Self)
        ensures
            forall|x: Symbol| s@.contains(x) <==> (self@.contains(x) && other@.contains(x) == keep),
    {
        proof {
            use_type_invariant(self);
        }
        let mut out: Vec<Symbol> = Vec::new();
        let mut i: usize = 0;
        while i < self.items.len()
            invariant
                i <= self.items.len(),
                ascending(self.items@),
                ascending(out@),
                forall|k: int| 0 <= k < out.len() ==> exists|j: int| 0 <= j < i && self.items[j] == #[trigger] out[k],
                forall|j: int| 0 <= j < i && other@.contains(#[trigger] self.items[j]) == keep ==> out@.contains(self.items[j]),
                forall|k: int| 0 <= k < out.len() ==> other@.contains(#[trigger] out[k]) == keep,
            decreases self.items.len() - i,
        {
            let x: Symbol = self.items[i];
            if other.contains(x) == keep {
                let ghost prev = out@;
                out.push(x);
                proof {
                    assert forall|a: int, b: int| 0 <= a < b < out.len() implies out[a] < out[b] by {
                        if b == out.len() - 1 {
                            let j = choose|j: int| 0 <= j < i && self.items[j] == prev[a];
                            assert(self.items[j] < self.items[i as int]);
                        }
                    }
                    assert forall|j: int| 0 <= j < i + 1 && other@.contains(#[trigger] self.items[j]) == keep implies out@.contains(self.items[j]) by {
                        if j < i {
                            assert(prev.contains(self.items[j]));
                            let k = choose|k: int| 0 <= k < prev.len() && prev[k] == self.items[j];
                            assert(out[k] == self.items[j]);
                        } else {
                            assert(out[out.len() - 1] == self.items[j]);
                        }
                    }
                    assert forall|k: int| 0 <= k < out.len() implies exists|j: int| 0 <= j < i + 1 && self.items[j] == #[trigger] out[k] by {
                        if k < prev.len() {
                            let j = choose|j: int| 0 <= j < i && self.items[j] == prev[k];
                            assert(self.items[j] == out[k]);
                        } else {
                            assert(self.items[i as int] == out[k]);
                        }
                    }
                }
            }
            i = i + 1;
        }
        let s = OrderedSet { items: out };
        proof {
            assert forall|x: Symbol| s@.contains(x) <==> (self@.contains(x) && other@.contains(x) == keep) by {
                if s@.contains(x) {
                    let k = choose|k: int| 0 <= k < out.len() && out[k] == x;
                    let j = choose|j: int| 0 <= j < i && self.items[j] == out[k];
                    assert(self.items@[j] == x);
                    assert(self.items@.contains(x));
                }
                if self@.contains(x) && other@.contains(x) == keep {
                    let j = choose|j: int| 0 <= j < self.items.len() && self.items[j] == x;
                    assert(out@.contains(self.items[j]));
                }
            }
        }
        s
    }

    /// The elements of this set and those of `other`.
    pub fn union(&self, other: &OrderedSet) -> (s: Self)
        ensures
            s@ == self@.union(other@),
    {
        proof {
            use_type_invariant(other);
        }
        let mut s = self.clone();
        let mut i: usize = 0;
        while i < other.items.len()
            invariant
                i <= other.items.len(),
                s@ == self@.union(other.items@.subrange(0, i as int).to_set()),
            decreases other.items.len() - i,
        {
            let ghost before = other.items@.subrange(0, i as int);
            s.insert(other.items[i]);
            proof {
                assert(other.items@.subrange(0, i + 1) =~= before.push(other.items@[i as int]));
                before.lemma_push_to_set_commute(other.items@[i as int]);
                assert(s@ =~= self@.union(other.items@.subrange(0, i + 1).to_set()));
            }
            i = i + 1;
        }
        assert(other.items@.subrange(0, i as int) =~= other.items@);
        s
    }

    /// The elements of this set that are greater than `k`.
    pub fn advance_past(&self, k: Symbol) -> (s: Self)
        ensures
            s@ == above(self@, k),
    {
        proof {
            use_type_invariant(self);
        }
        let mut out: Vec<Symbol> = Vec::new();
        let start: usize = if k == u64::MAX {
            self.items.len()
        } else {
            lower_bound(&self.items, k + 1)
        };
        let mut i: usize = start;
        while i < self.items.len()
            invariant
                start <= i <= self.items.len(),
                out@ == self.items@.subrange(start as int, i as int),
            decreases self.items.len() - i,
        {
            out.push(self.items[i]);
            assert(out@ =~= self.items@.subrange(start as int, i + 1));
            i = i + 1;
        }
        let s = OrderedSet { items: out };
        proof {
            assert forall|x: Symbol| s@.contains(x) <==> above(self@, k).contains(x) by {
                if s@.contains(x) {
                    let a = choose|a: int| 0 <= a < out.len() && out[a] == x;
                    assert(self.items@[start + a] == x);
                    assert(self.items@.contains(x));
                }
                if above(self@, k).contains(x) {
                    let j = choose|j: int| 0 <= j < self.items.len() && self.items[j] == x;
                    assert(j >= start);
                    assert(out[j - start] == x);
                }
            }
            assert(s@ =~= above(self@, k));
        }
        s
    }

    /// Whether every element of this set is in `other`.
    pub fn is_subset(&self, other: &OrderedSet) -> (b: bool)
        ensures
            b == self@.subset_of(other@),
    {
        let mut i: usize = 0;
        while i < self.items.len()
            invariant
                i <= self.items.len(),
                forall|j: int| 0 <= j < i ==> other@.contains(#[trigger] self.items[j]),
            decreases self.items.len() - i,
        {
            if !other.contains(self.items[i]) {
                assert(self.items@.contains(self.items[i as int]));
                assert(self@.contains(self.items[i as int]));
                return false;
            }
            i = i + 1;
        }
        proof {
            assert forall|x: Symbol| self@.contains(x) implies other@.contains(x) by {
                let j = choose|j: int| 0 <= j < self.items.len() && self.items[j] == x;
                assert(other@.contains(self.items[j]));
            }
        }
        true
    }

    /// Whether every element of `other` is in this set.
    pub fn is_superset(&self, other: &OrderedSet) -> (b: bool)
        ensures
            b == other@.subset_of(self@),
    {
        other.is_subset(self)
    }

    /// Whether this set and `other` share no element.
    pub fn is_disjoint(&self, other: &OrderedSet) -> (b: bool)
        ensures
            b == self@.disjoint(other@),
    {
        let mut i: usize = 0;
        while i < self.items.len()
            invariant
                i <= self.items.len(),
                forall|j: int| 0 <= j < i ==> !other@.contains(#[trigger] self.items[j]),
            decreases self.items.len() - i,
        {
            if other.contains(self.items[i]) {
                assert(self.items@.contains(self.items[i as int]));
                assert(self@.contains(self.items[i as int]));
                return false;
            }
            i = i + 1;
        }
        proof {
            assert forall|x: Symbol| self@.contains(x) implies !other@.contains(x) by {
                let j = choose|j: int| 0 <= j < self.items.len() && self.items[j] == x;
                assert(!other@.contains(self.items[j]));
            }
        }
        true
    }

    /// Whether this set comes before `other` in the order of sets: whether
    /// its ascending sequence comes first in the lexicographic order.
    pub fn precedes(&self, other: &OrderedSet) -> (b: bool)
        ensures
            b == crate::set_order::set_before(self@, other@),
    {
        proof {
            use_type_invariant(self);
            use_type_invariant(other);
            crate::set_order::lemma_is_ascending_seq(self.items@);
            crate::set_order::lemma_is_ascending_seq(other.items@);
        }
        let mut i: usize = 0;
        while i < self.items.len() && i < other.items.len()
            invariant
                i <= self.items.len(),
                i <= other.items.len(),
                crate::set_order::ascending_seq(self@) == self.items@,
                crate::set_order::ascending_seq(other@) == other.items@,
                forall|k: int| 0 <= k < i ==> self.items[k] == other.items[k],
            decreases self.items.len() - i,
        {
            if self.items[i] < other.items[i] {
                assert(crate::set_order::parts_at(self.items@, other.items@, i as int));
                return true;
            }
            if self.items[i] > other.items[i] {
                proof {
                    assert(crate::set_order::parts_at(other.items@, self.items@, i as int));
                    if crate::set_order::lex_before(self.items@, other.items@) {
                        crate::set_order::lemma_lex_transitive(self.items@, other.items@, self.items@);
                    }
                }
                return false;
            }
            i = i + 1;
        }
        if i < other.items.len() {
            assert(crate::set_order::parts_at(self.items@, other.items@, i as int));
            true
        } else {
            proof {
                if self.items.len() == other.items.len() {
                    assert(self.items@ =~= other.items@);
                } else {
                    assert(crate::set_order::parts_at(other.items@, self.items@, i as int));
                    if crate::set_order::lex_before(self.items@, other.items@) {
                        crate::set_order::lemma_lex_transitive(self.items@, other.items@, self.items@);
                    }
                }
            }
            false
        }
    }

    /// Whether this set and `other` have the same elements.
    pub fn same_as(&self, other: &OrderedSet) -> (b: bool)
        ensures
            b == (self@ == other@),
    {
        proof {
            use_type_invariant(self);
            use_type_invariant(other);
        }
        if self.items.len() != other.items.len() {
            proof {
                if self@ == other@ {
                    lemma_ascending_unique(self.items@, other.items@);
                }
            }
            return false;
        }
        let mut i: usize = 0;
        while i < self.items.len()
            invariant
                i <= self.items.len(),
                self.items.len() == other.items.len(),
                ascending(self.items@),
                ascending(other.items@),
                forall|j: int| 0 <= j < i ==> self.items[j] == other.items[j],
            decreases self.items.len() - i,
        {
            if self.items[i] != other.items[i] {
                proof {
                    if self@ == other@ {
                        lemma_ascending_unique(self.items@, other.items@);
                    }
                }
                return false;
            }
            i = i + 1;
        }
        assert(self.items@ =~= other.items@);
        true
    }
}

impl Clone for OrderedSet {
    fn clone(&self) -> (s: Self)
        ensures
            s@ == self@,
    {
        self.duplicate()
    }
}

impl From<Vec<Symbol>> for OrderedSet {
    fn from(symbols: Vec<Symbol>) -> (s: Self)
        ensures
            s@ == symbols@.to_set(),
    {
        OrderedSet::from_vec(symbols)
    }
}

impl vstd::std_specs::convert::FromSpecImpl<Vec<Symbol>> for OrderedSet {
    open spec fn obeys_from_spec() -> bool {
        false
    }

    open spec fn from_spec(symbols: Vec<Symbol>) -> Self {
        choose|s: OrderedSet| s@ == symbols@.to_set()
    }
}

impl PartialEq for OrderedSet {
    fn eq(&self, other: &Self) -> (b: bool) {
        self.same_as(other)
    }
}

impl Eq for OrderedSet {

}

impl vstd::std_specs::cmp::PartialEqSpecImpl for OrderedSet {
    open spec fn obeys_eq_spec() -> bool {
        true
    }

    open spec fn eq_spec(&self, other: &Self) -> bool {
        self@ == other@
    }
}

/// An ascending sequence has as many elements as its set.
pub proof fn lemma_ascending_len(s: Seq<Symbol>)
    requires
        ascending(s),
    ensures
        s.to_set().len() == s.len(),
        s.to_set().finite(),
{
    vstd::seq_lib::seq_to_set_is_finite(s);
    assert(s.no_duplicates());
    s.unique_seq_to_set();
}

/// Inserting a new symbol at its place keeps the order and adds it to the set.
pub proof fn lemma_insert_at(s: Seq<Symbol>, pos: int, x: Symbol)
    requires
        ascending(s),
        0 <= pos <= s.len(),
        forall|i: int| 0 <= i < pos ==> s[i] < x,
        forall|i: int| pos <= i < s.len() ==> x < s[i],
    ensures
        ascending(s.insert(pos, x)),
        s.insert(pos, x).to_set() == s.to_set().insert(x),
{
    let t = s.insert(pos, x);
    assert forall|i: int, j: int| 0 <= i < j < t.len() implies t[i] < t[j] by {
        if i < pos && j > pos {
            assert(t[i] == s[i] && t[j] == s[j - 1]);
        }
    }
    assert forall|y: Symbol| t.to_set().contains(y) <==> s.to_set().insert(x).contains(y) by {
        if t.contains(y) {
            let i = choose|i: int| 0 <= i < t.len() && t[i] == y;
            if i < pos {
                assert(s[i] == y);
                assert(s.contains(y));
            } else if i > pos {
                assert(s[i - 1] == y);
                assert(s.contains(y));
            }
        }
        if s.contains(y) {
            let i = choose|i: int| 0 <= i < s.len() && s[i] == y;
            if i < pos {
                assert(t[i] == y);
            } else {
                assert(t[i + 1] == y);
            }
            assert(t.contains(y));
        }
        if y == x {
            assert(t[pos] == y);
            assert(t.contains(y));
        }
    }
    assert(t.to_set() =~= s.to_set().insert(x));
}

/// Removing the symbol at `pos` keeps the order and takes it out of the set.
pub proof fn lemma_remove_at(s: Seq<Symbol>, pos: int)
    requires
        ascending(s),
        0 <= pos < s.len(),
    ensures
        ascending(s.remove(pos)),
        s.remove(pos).to_set() == s.to_set().remove(s[pos]),
{
    let t = s.remove(pos);
    assert forall|i: int, j: int| 0 <= i < j < t.len() implies t[i] < t[j] by {
        let a = if i < pos { i } else { i + 1 };
        let b = if j < pos { j } else { j + 1 };
        assert(t[i] == s[a] && t[j] == s[b]);
    }
    assert forall|y: Symbol| t.to_set().contains(y) <==> s.to_set().remove(s[pos]).contains(y) by {
        if t.contains(y) {
            let i = choose|i: int| 0 <= i < t.len() && t[i] == y;
            let a = if i < pos { i } else { i + 1 };
            assert(s[a] == y);
            assert(s.contains(y));
        }
        if s.contains(y) && y != s[pos] {
            let i = choose|i: int| 0 <= i < s.len() && s[i] == y;
            if i < pos {
                assert(t[i] == y);
            } else {
                assert(t[i - 1] == y);
            }
            assert(t.contains(y));
        }
    }
    assert(t.to_set() =~= s.to_set().remove(s[pos]));
}

} // verus!
