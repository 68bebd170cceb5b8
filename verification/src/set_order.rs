//! The order of sets of symbols: a set comes before another if its
//! ascending sequence comes first in the lexicographic order.
use vstd::prelude::*;
use crate::ordered_set::{ascending, is_least, lemma_ascending_unique, Symbol};

verus! {

/// The sequences agree before index `i`, and at `i` the first ends while
/// the second goes on, or the first holds the smaller symbol.
pub open spec fn parts_at(a: Seq<Symbol>, b: Seq<Symbol>, i: int) -> bool {
    &&& 0 <= i <= a.len()
    &&& i <= b.len()
    &&& forall|k: int| 0 <= k < i ==> a[k] == b[k]
    &&& (i == a.len() && i < b.len()) || (i < a.len() && i < b.len() && a[i] < b[i])
}

/// `a` comes before `b` in the lexicographic order.
pub open spec fn lex_before(a: Seq<Symbol>, b: Seq<Symbol>) -> bool {
    exists|i: int| #[trigger] parts_at(a, b, i)
}

/// The ascending sequence of the elements of a finite set.
pub open spec fn ascending_seq(s: Set<Symbol>) -> Seq<Symbol> {
    choose|q: Seq<Symbol>| ascending(q) && q.to_set() == s
}

/// `a` comes before `b`: its ascending sequence comes first.
pub open spec fn set_before(a: Set<Symbol>, b: Set<Symbol>) -> bool {
    lex_before(ascending_seq(a), ascending_seq(b))
}

/// A set of symbols that has an element has a smallest one.
pub proof fn lemma_has_least(s: Set<Symbol>, x: Symbol)
    requires
        s.contains(x),
    ensures
        exists|m: Symbol| is_least(s, m),
    decreases x,
{
    if forall|y: Symbol| s.contains(y) ==> x <= y {
        assert(is_least(s, x));
    } else {
        let y = choose|y: Symbol| s.contains(y) && !(x <= y);
        lemma_has_least(s, y);
    }
}

/// A finite set has an ascending sequence, and only one.
pub proof fn lemma_ascending_seq(s: Set<Symbol>)
    requires
        s.finite(),
    ensures
        ascending(ascending_seq(s)),
        ascending_seq(s).to_set() == s,
    decreases s.len(),
{
    if s.is_empty() {
        let q = Seq::<Symbol>::empty();
        assert(q.to_set() =~= s);
    } else {
        let x = choose|x: Symbol| s.contains(x);
        lemma_has_least(s, x);
        let j = choose|m: Symbol| is_least(s, m);
        let rest = s.remove(j);
        lemma_ascending_seq(rest);
        let tail = ascending_seq(rest);
        let q = seq![j] + tail;
        assert forall|a: int, b: int| 0 <= a < b < q.len() implies q[a] < q[b] by {
            if a == 0 {
                assert(tail.contains(tail[b - 1]));
                assert(rest.contains(q[b]));
            } else {
                assert(q[a] == tail[a - 1] && q[b] == tail[b - 1]);
            }
        }
        assert forall|y: Symbol| q.to_set().contains(y) <==> s.contains(y) by {
            if q.contains(y) {
                let i = choose|i: int| 0 <= i < q.len() && q[i] == y;
                if i > 0 {
                    assert(tail[i - 1] == y);
                    assert(tail.contains(y));
                    assert(rest.contains(y));
                }
            }
            if s.contains(y) {
                if y == j {
                    assert(q[0] == y);
                } else {
                    assert(rest.contains(y));
                    assert(tail.to_set().contains(y));
                    let i = choose|i: int| 0 <= i < tail.len() && tail[i] == y;
                    assert(q[i + 1] == y);
                }
                assert(q.contains(y));
            }
        }
        assert(q.to_set() =~= s);
    }
}

/// An ascending sequence is the ascending sequence of its set.
pub proof fn lemma_is_ascending_seq(q: Seq<Symbol>)
    requires
        ascending(q),
    ensures
        ascending_seq(q.to_set()) == q,
{
    let r = ascending_seq(q.to_set());
    assert(ascending(q) && q.to_set() == q.to_set());
    lemma_ascending_unique(r, q);
}

/// Coming before is transitive.
pub proof fn lemma_lex_transitive(a: Seq<Symbol>, b: Seq<Symbol>, c: Seq<Symbol>)
    requires
        lex_before(a, b),
        lex_before(b, c),
    ensures
        lex_before(a, c),
{
    let i = choose|i: int| #[trigger] parts_at(a, b, i);
    let j = choose|j: int| #[trigger] parts_at(b, c, j);
    if i <= j {
        assert(parts_at(a, c, i));
    } else {
        assert(parts_at(a, c, j));
    }
}

/// Of two sequences that agree before index `i`, one comes before the
/// other, or they are the same.
pub proof fn lemma_lex_total_from(a: Seq<Symbol>, b: Seq<Symbol>, i: int)
    requires
        0 <= i <= a.len(),
        i <= b.len(),
        forall|k: int| 0 <= k < i ==> a[k] == b[k],
    ensures
        a == b || lex_before(a, b) || lex_before(b, a),
    decreases a.len() - i,
{
    if i == a.len() {
        if i == b.len() {
            assert(a =~= b);
        } else {
            assert(parts_at(a, b, i));
        }
    } else if i == b.len() {
        assert(parts_at(b, a, i));
    } else if a[i] < b[i] {
        assert(parts_at(a, b, i));
    } else if b[i] < a[i] {
        assert(parts_at(b, a, i));
    } else {
        lemma_lex_total_from(a, b, i + 1);
    }
}

/// No finite set comes before itself; of two different finite sets one
/// comes before the other; and coming before is transitive.
pub proof fn lemma_set_order(a: Set<Symbol>, b: Set<Symbol>, c: Set<Symbol>)
    requires
        a.finite(),
        b.finite(),
        c.finite(),
    ensures
        !set_before(a, a),
        a == b || set_before(a, b) || set_before(b, a),
        !(set_before(a, b) && set_before(b, a)),
        set_before(a, b) && set_before(b, c) ==> set_before(a, c),
{
    lemma_ascending_seq(a);
    lemma_ascending_seq(b);
    lemma_ascending_seq(c);
    lemma_lex_total_from(ascending_seq(a), ascending_seq(b), 0);
    if set_before(a, b) && set_before(b, c) {
        lemma_lex_transitive(ascending_seq(a), ascending_seq(b), ascending_seq(c));
    }
    if set_before(a, b) && set_before(b, a) {
        lemma_lex_transitive(ascending_seq(a), ascending_seq(b), ascending_seq(a));
    }
}

} // verus!
