//! What the enumerations look for: the walk over the nodes that lists the
//! traces and the epitomes, and the search for the partial matches of a query.
use vstd::prelude::*;
use crate::model::{child, child_below, complete_match_of, descent, least, lemma_child_edge,
    lemma_less_left, lemma_room_child, node_ok, room, well_formed};
use crate::mop::MopView;
use crate::ordered_set::{ascending, is_least, Symbol};
use crate::readiness::whole;
use crate::retention::{lemma_descent_within, lemma_match_exact, organised, organised_at};
use crate::set_order::{lemma_has_least, set_before};

verus! {

/// `j` lies past `after` and before `before`, where these are given.
pub open spec fn between(after: Option<Symbol>, j: Symbol, before: Option<Symbol>) -> bool {
    &&& after matches Some(k) ==> k < j
    &&& before matches Some(k) ==> j < k
}

/// The walk over the nodes goes from node `n` down the edge under key
/// `j`: `n` has a child under `j`, and `j` is the smallest symbol that the
/// child has and `n` has not.
pub open spec fn walk_step(t: Seq<MopView>, n: int, j: Symbol) -> bool {
    &&& child(t, n, j) is Some
    &&& is_least(t[child(t, n, j).unwrap() as int].elements.difference(t[n].elements), j)
}

/// Node `x` is met on the walk that starts at node `n` and there takes
/// only edges under keys between `after` and `before`: `x` is `n`, or it is
/// met on the walk that starts at a child of `n` to which the walk goes
/// down, under such a key, and that takes only edges past that key.
pub open spec fn walked(
    t: Seq<MopView>,
    n: int,
    after: Option<Symbol>,
    before: Option<Symbol>,
    x: int,
) -> bool
    decreases room(t, n),
{
    x == n || exists|j: Symbol|
        #![trigger child(t, n, j)]
        {
            &&& between(after, j, before)
            &&& walk_step(t, n, j)
            &&& child_below(t, n, j)
            &&& walked(t, child(t, n, j).unwrap() as int, Some(j), None, x)
        }
}

/// What an enumeration looks for.
#[derive(Clone, Copy, PartialEq, Eq, Structural, Debug)]
pub enum Kind {
    /// Nodes with a trace strength above zero.
    Trace,
    /// Nodes with a child, real or virtual.
    Epitome,
}

/// Whether a node is of the kind.
pub open spec fn is_of_kind(v: MopView, kind: Kind) -> bool {
    match kind {
        Kind::Trace => v.trace > 0,
        Kind::Epitome => !(v.real.dom().is_empty() && v.virt.dom().is_empty()),
    }
}

/// The search for partial matches of `q` goes from node `n` down the edge
/// under key `j`: `j` is a symbol of `q` that `n` has not, `n` has a
/// child under `j`, and `j` is the smallest symbol of `q` that the child
/// has and `n` has not.
pub open spec fn match_step(t: Seq<MopView>, n: int, q: Set<Symbol>, j: Symbol) -> bool {
    &&& q.contains(j)
    &&& !t[n].elements.contains(j)
    &&& child(t, n, j) is Some
    &&& is_least(
        t[child(t, n, j).unwrap() as int].elements.difference(t[n].elements).intersect(q),
        j,
    )
}

/// Node `x` is a partial match of `q` found from node `n`, where the
/// search takes only edges under keys between `after` and `before`. If no
/// key of `n` is in `q`, the search ends at `n`, which is a match if its
/// set shares a symbol with `q`. Otherwise the matches are those found from
/// the children to which the search goes down, past the key it took.
pub open spec fn matched(
    t: Seq<MopView>,
    n: int,
    q: Set<Symbol>,
    after: Option<Symbol>,
    before: Option<Symbol>,
    x: int,
) -> bool
    decreases room(t, n),
{
    if t[n].real.dom().disjoint(q) && t[n].virt.dom().disjoint(q) {
        x == n && !q.disjoint(t[n].elements)
    } else {
        exists|j: Symbol|
            #![trigger child(t, n, j)]
            {
                &&& between(after, j, before)
                &&& match_step(t, n, q, j)
                &&& child_below(t, n, j)
                &&& matched(t, child(t, n, j).unwrap() as int, q, Some(j), None, x)
            }
    }
}

/// A partial match found in a tree is a node whose set shares a symbol with the query.
pub proof fn lemma_matched_shares(
    t: Seq<MopView>,
    n: int,
    q: Set<Symbol>,
    after: Option<Symbol>,
    before: Option<Symbol>,
    x: int,
)
    requires
        0 <= n < t.len(),
        matched(t, n, q, after, before, x),
    ensures
        0 <= x < t.len(),
        !q.disjoint(t[x].elements),
    decreases room(t, n),
{
    if t[n].real.dom().disjoint(q) && t[n].virt.dom().disjoint(q) {
    } else {
        let j = choose|j: Symbol|
            #![trigger child(t, n, j)]
            {
                &&& between(after, j, before)
                &&& match_step(t, n, q, j)
                &&& child_below(t, n, j)
                &&& matched(t, child(t, n, j).unwrap() as int, q, Some(j), None, x)
            };
        lemma_matched_shares(t, child(t, n, j).unwrap() as int, q, Some(j), None, x);
    }
}

/// The handles of `ids` name nodes in the order of their sets.
pub open spec fn sorted_sets(t: Seq<MopView>, ids: Seq<usize>) -> bool {
    forall|i: int, j: int|
        0 <= i < j < ids.len() ==> set_before(t[ids[i] as int].elements, t[ids[j] as int].elements)
}

/// Some handle of `ids` names a node with the set `s`.
pub open spec fn holds_set(t: Seq<MopView>, ids: Seq<usize>, s: Set<Symbol>) -> bool {
    exists|i: int| 0 <= i < ids.len() && t[#[trigger] ids[i] as int].elements == s
}

/// The key at index `i` of `keys`, if there is one.
pub open spec fn key_at(keys: Seq<Symbol>, i: int) -> Option<Symbol> {
    if 0 <= i < keys.len() {
        Some(keys[i])
    } else {
        None
    }
}

/// The handles of `out` name the nodes of the kind that are met on the walk
/// from node `n` between `after` and `before`, one for each set, in the
/// order of the sets.
pub open spec fn gathers_walk(
    t: Seq<MopView>,
    out: Seq<usize>,
    n: int,
    after: Option<Symbol>,
    before: Option<Symbol>,
    kind: Kind,
) -> bool {
    &&& forall|i: int|
        0 <= i < out.len() ==> {
            &&& (#[trigger] out[i]) < t.len()
            &&& walked(t, n, after, before, out[i] as int)
            &&& is_of_kind(t[out[i] as int], kind)
        }
    &&& forall|x: int|
        0 <= x < t.len() && #[trigger] walked(t, n, after, before, x) && is_of_kind(t[x], kind)
            ==> holds_set(t, out, t[x].elements)
    &&& sorted_sets(t, out)
}

/// The handles of `out` name the partial matches of `q` found from node
/// `n` between `after` and `before`, one for each set, in the order of the sets.
pub open spec fn gathers_matches(
    t: Seq<MopView>,
    out: Seq<usize>,
    n: int,
    q: Set<Symbol>,
    after: Option<Symbol>,
    before: Option<Symbol>,
) -> bool {
    &&& forall|i: int|
        0 <= i < out.len() ==> {
            &&& (#[trigger] out[i]) < t.len()
            &&& matched(t, n, q, after, before, out[i] as int)
        }
    &&& forall|x: int|
        0 <= x < t.len() && #[trigger] matched(t, n, q, after, before, x) ==> holds_set(
            t,
            out,
            t[x].elements,
        )
    &&& sorted_sets(t, out)
}

/// Before the first key the walk has met the node it starts at and no other.
pub proof fn lemma_walk_start(
    t: Seq<MopView>,
    n: int,
    after: Option<Symbol>,
    keys: Seq<Symbol>,
    x: int,
)
    requires
        ascending(keys),
        keys.to_set() == t[n].real.dom().union(t[n].virt.dom()),
        keys.len() > 0,
    ensures
        walked(t, n, after, key_at(keys, 0), x) <==> x == n,
{
    if walked(t, n, after, key_at(keys, 0), x) && x != n {
        let j = choose|j: Symbol|
            #![trigger child(t, n, j)]
            {
                &&& between(after, j, key_at(keys, 0))
                &&& walk_step(t, n, j)
                &&& child_below(t, n, j)
                &&& walked(t, child(t, n, j).unwrap() as int, Some(j), None, x)
            };
        assert(keys.to_set().contains(j));
        let i = choose|i: int| 0 <= i < keys.len() && keys[i] == j;
        assert(keys[0] <= keys[i]);
    }
}

/// With one more key the walk meets what it met before and what it meets
/// below the child under that key, if it goes down there.
pub proof fn lemma_walk_extend(
    t: Seq<MopView>,
    n: int,
    after: Option<Symbol>,
    keys: Seq<Symbol>,
    idx: int,
    x: int,
)
    requires
        ascending(keys),
        keys.to_set() == t[n].real.dom().union(t[n].virt.dom()),
        0 <= idx < keys.len(),
    ensures
        walked(t, n, after, key_at(keys, idx + 1), x) <==> (walked(
            t,
            n,
            after,
            key_at(keys, idx),
            x,
        ) || {
            &&& between(after, keys[idx], None)
            &&& walk_step(t, n, keys[idx])
            &&& child_below(t, n, keys[idx])
            &&& walked(t, child(t, n, keys[idx]).unwrap() as int, Some(keys[idx]), None, x)
        }),
{
    let k = keys[idx];
    if walked(t, n, after, key_at(keys, idx + 1), x) && x != n {
        let j = choose|j: Symbol|
            #![trigger child(t, n, j)]
            {
                &&& between(after, j, key_at(keys, idx + 1))
                &&& walk_step(t, n, j)
                &&& child_below(t, n, j)
                &&& walked(t, child(t, n, j).unwrap() as int, Some(j), None, x)
            };
        assert(keys.to_set().contains(j));
        let i = choose|i: int| 0 <= i < keys.len() && keys[i] == j;
        if i > idx {
            if idx + 1 < keys.len() {
                assert(keys[idx + 1] <= keys[i]);
            }
        } else if i < idx {
            assert(keys[i] < keys[idx]);
            assert(between(after, j, key_at(keys, idx)));
        }
    }
    if walked(t, n, after, key_at(keys, idx), x) && x != n {
        let j = choose|j: Symbol|
            #![trigger child(t, n, j)]
            {
                &&& between(after, j, key_at(keys, idx))
                &&& walk_step(t, n, j)
                &&& child_below(t, n, j)
                &&& walked(t, child(t, n, j).unwrap() as int, Some(j), None, x)
            };
        if idx + 1 < keys.len() {
            assert(keys[idx] < keys[idx + 1]);
        }
        assert(between(after, j, key_at(keys, idx + 1)));
    }
    if between(after, k, None) && walk_step(t, n, k) && child_below(t, n, k) && walked(
        t,
        child(t, n, k).unwrap() as int,
        Some(k),
        None,
        x,
    ) {
        if idx + 1 < keys.len() {
            assert(keys[idx] < keys[idx + 1]);
        }
        assert(between(after, k, key_at(keys, idx + 1)));
    }
}

/// Before the first candidate key the search under a node with a key in
/// the query has found nothing.
pub proof fn lemma_match_start(
    t: Seq<MopView>,
    n: int,
    q: Set<Symbol>,
    after: Option<Symbol>,
    keys: Seq<Symbol>,
    x: int,
)
    requires
        ascending(keys),
        forall|j: Symbol|
            q.contains(j) && !t[n].elements.contains(j) && between(after, j, None)
                ==> keys.to_set().contains(j),
        keys.len() > 0,
        !(t[n].real.dom().disjoint(q) && t[n].virt.dom().disjoint(q)),
    ensures
        !matched(t, n, q, after, key_at(keys, 0), x),
{
    if matched(t, n, q, after, key_at(keys, 0), x) {
        let j = choose|j: Symbol|
            #![trigger child(t, n, j)]
            {
                &&& between(after, j, key_at(keys, 0))
                &&& match_step(t, n, q, j)
                &&& child_below(t, n, j)
                &&& matched(t, child(t, n, j).unwrap() as int, q, Some(j), None, x)
            };
        assert(keys.to_set().contains(j));
        let i = choose|i: int| 0 <= i < keys.len() && keys[i] == j;
        assert(keys[0] <= keys[i]);
    }
}

/// With one more candidate key the search has found what it had found
/// before and what it finds below the child under that key, if it goes down there.
pub proof fn lemma_match_extend(
    t: Seq<MopView>,
    n: int,
    q: Set<Symbol>,
    after: Option<Symbol>,
    keys: Seq<Symbol>,
    idx: int,
    x: int,
)
    requires
        ascending(keys),
        forall|j: Symbol|
            q.contains(j) && !t[n].elements.contains(j) && between(after, j, None)
                ==> keys.to_set().contains(j),
        0 <= idx < keys.len(),
        !(t[n].real.dom().disjoint(q) && t[n].virt.dom().disjoint(q)),
    ensures
        matched(t, n, q, after, key_at(keys, idx + 1), x) <==> (matched(
            t,
            n,
            q,
            after,
            key_at(keys, idx),
            x,
        ) || {
            &&& between(after, keys[idx], None)
            &&& match_step(t, n, q, keys[idx])
            &&& child_below(t, n, keys[idx])
            &&& matched(t, child(t, n, keys[idx]).unwrap() as int, q, Some(keys[idx]), None, x)
        }),
{
    let k = keys[idx];
    if matched(t, n, q, after, key_at(keys, idx + 1), x) {
        let j = choose|j: Symbol|
            #![trigger child(t, n, j)]
            {
                &&& between(after, j, key_at(keys, idx + 1))
                &&& match_step(t, n, q, j)
                &&& child_below(t, n, j)
                &&& matched(t, child(t, n, j).unwrap() as int, q, Some(j), None, x)
            };
        assert(keys.to_set().contains(j));
        let i = choose|i: int| 0 <= i < keys.len() && keys[i] == j;
        if i > idx {
            if idx + 1 < keys.len() {
                assert(keys[idx + 1] <= keys[i]);
            }
        } else if i < idx {
            assert(keys[i] < keys[idx]);
            assert(between(after, j, key_at(keys, idx)));
        }
    }
    if matched(t, n, q, after, key_at(keys, idx), x) {
        let j = choose|j: Symbol|
            #![trigger child(t, n, j)]
            {
                &&& between(after, j, key_at(keys, idx))
                &&& match_step(t, n, q, j)
                &&& child_below(t, n, j)
                &&& matched(t, child(t, n, j).unwrap() as int, q, Some(j), None, x)
            };
        if idx + 1 < keys.len() {
            assert(keys[idx] < keys[idx + 1]);
        }
        assert(between(after, j, key_at(keys, idx + 1)));
    }
    if between(after, k, None) && match_step(t, n, q, k) && child_below(t, n, k) && matched(
        t,
        child(t, n, k).unwrap() as int,
        q,
        Some(k),
        None,
        x,
    ) {
        if idx + 1 < keys.len() {
            assert(keys[idx] < keys[idx + 1]);
        }
        assert(between(after, k, key_at(keys, idx + 1)));
    }
}


/// In a tree organised for `e`, the descent from a node within `e`, for
/// what the node lacks of `e`, goes the way of the walk: the node it ends in
/// is met on the walk from that node past `after`, if all that the node
/// lacks of `e` lies past `after`.
pub proof fn lemma_descent_walked(t: Seq<MopView>, e: Set<Symbol>, n: int, after: Option<Symbol>)
    requires
        well_formed(t),
        organised(t, e),
        e.finite(),
        0 <= n < t.len(),
        t[n].elements.subset_of(e),
        after matches Some(k) ==> forall|s: Symbol|
            e.contains(s) && !t[n].elements.contains(s) ==> k < s,
    ensures
        descent(t, n, e.difference(t[n].elements)) is Some,
        walked(t, n, after, None, descent(t, n, e.difference(t[n].elements)).unwrap()),
    decreases e.difference(t[n].elements).len(),
{
    let rest = e.difference(t[n].elements);
    lemma_descent_within(t, e, n, rest);
    if !rest.is_empty() {
        let x0 = choose|x0: Symbol| rest.contains(x0);
        lemma_has_least(rest, x0);
        let j = least(rest);
        assert(is_least(rest, j));
        assert(organised_at(t, n, e));
        assert(t[n].elements != e);
        assert(child(t, n, j) is Some);
        let c = child(t, n, j).unwrap() as int;
        lemma_child_edge(t, n, j);
        lemma_room_child(t, n, j);
        assert(t[c].elements.subset_of(e));
        lemma_less_left(e, t[n].elements, t[c].elements, j);
        assert(rest.difference(t[c].elements) =~= e.difference(t[c].elements));
        assert(walk_step(t, n, j)) by {
            let diff = t[c].elements.difference(t[n].elements);
            assert forall|s: Symbol| diff.contains(s) implies j <= s by {
                assert(rest.contains(s));
            }
        }
        assert forall|s: Symbol| e.contains(s) && !t[c].elements.contains(s) implies j < s by {
            assert(rest.contains(s));
        }
        lemma_descent_walked(t, e, c, Some(j));
        assert(between(after, j, None));
        assert(child_below(t, n, j));
    }
}

/// In a whole tree every node is met on the walk from the root.
pub proof fn lemma_walk_meets_all(t: Seq<MopView>, x: int)
    requires
        whole(t),
        0 <= x < t.len(),
    ensures
        walked(t, 0, None, None, x),
{
    assert(node_ok(t, x));
    let e = t[x].elements;
    lemma_descent_walked(t, e, 0, None);
    lemma_match_exact(t, x);
    assert(e.difference(t[0].elements) =~= e);
    let y = descent(t, 0, e.difference(t[0].elements)).unwrap();
    assert(complete_match_of(t, e) == Some(y));
    assert(t[y].elements == t[x].elements);
    assert(y == x);
}

/// In a whole tree the handles that gather the nodes of a kind met on the
/// walk from the root name every node of the kind.
pub proof fn lemma_gathers_all(t: Seq<MopView>, ids: Seq<usize>, kind: Kind, x: int)
    requires
        whole(t),
        gathers_walk(t, ids, 0, None, None, kind),
        0 <= x < t.len(),
        is_of_kind(t[x], kind),
    ensures
        exists|i: int| 0 <= i < ids.len() && #[trigger] ids[i] == x,
{
    lemma_walk_meets_all(t, x);
    assert(holds_set(t, ids, t[x].elements));
    let i = choose|i: int| 0 <= i < ids.len() && t[#[trigger] ids[i] as int].elements == t[x].elements;
    assert(ids[i] < t.len());
    assert(ids[i] == x);
}

/// Node `y` is a partial match of `q`: its set shares a symbol with `q`,
/// it has no child under a symbol of `q`, and it is the complete match of
/// what its set shares with `q`.
pub open spec fn is_partial_match(t: Seq<MopView>, q: Set<Symbol>, y: int) -> bool {
    &&& 0 <= y < t.len()
    &&& !q.disjoint(t[y].elements)
    &&& t[y].real.dom().disjoint(q)
    &&& t[y].virt.dom().disjoint(q)
    &&& complete_match_of(t, t[y].elements.intersect(q)) == Some(y)
}

/// In a whole tree the complete match of a set that the set of some node
/// holds is the node with the least set that holds it.
pub proof fn lemma_match_is_least(t: Seq<MopView>, s: Set<Symbol>, z: int)
    requires
        whole(t),
        0 <= z < t.len(),
        s.subset_of(t[z].elements),
    ensures
        complete_match_of(t, s) is Some,
        0 <= complete_match_of(t, s).unwrap() < t.len(),
        s.subset_of(t[complete_match_of(t, s).unwrap()].elements),
        t[complete_match_of(t, s).unwrap()].elements.subset_of(t[z].elements),
{
    assert(node_ok(t, z));
    vstd::set_lib::lemma_len_subset(s, t[z].elements);
    let rest = s.difference(t[0].elements);
    assert(rest =~= s);
    lemma_descent_within(t, t[z].elements, 0, rest);
}

/// The search that has come to node `n`, the complete match of what its
/// set shares with `q`, finds only partial matches of `q`.
pub proof fn lemma_matched_is_partial(
    t: Seq<MopView>,
    q: Set<Symbol>,
    n: int,
    after: Option<Symbol>,
    y: int,
)
    requires
        whole(t),
        0 <= n < t.len(),
        complete_match_of(t, t[n].elements.intersect(q)) == Some(n),
        matched(t, n, q, after, None, y),
    ensures
        is_partial_match(t, q, y),
    decreases room(t, n),
{
    if t[n].real.dom().disjoint(q) && t[n].virt.dom().disjoint(q) {
    } else {
        let j = choose|j: Symbol|
            #![trigger child(t, n, j)]
            {
                &&& between(after, j, None)
                &&& match_step(t, n, q, j)
                &&& child_below(t, n, j)
                &&& matched(t, child(t, n, j).unwrap() as int, q, Some(j), None, y)
            };
        let c = child(t, n, j).unwrap() as int;
        lemma_child_edge(t, n, j);
        let part = t[c].elements.intersect(q);
        lemma_match_is_least(t, part, c);
        let w = complete_match_of(t, part).unwrap();
        assert(t[n].elements.intersect(q).subset_of(t[w].elements));
        lemma_match_is_least(t, t[n].elements.intersect(q), w);
        assert(t[n].elements.subset_of(t[w].elements));
        assert(part.contains(j));
        assert(organised(t, t[w].elements));
        assert(organised_at(t, n, t[w].elements));
        assert(child(t, n, j) is Some);
        assert(t[c].elements.subset_of(t[w].elements));
        assert(t[c].elements =~= t[w].elements);
        assert(w == c);
        lemma_matched_is_partial(t, q, c, Some(j), y);
    }
}

/// The search that has come to a node on the way of the descent to a
/// partial match `y` of `q` finds `y`.
pub proof fn lemma_partial_is_matched(
    t: Seq<MopView>,
    q: Set<Symbol>,
    y: int,
    n: int,
    after: Option<Symbol>,
)
    requires
        whole(t),
        0 <= y < t.len(),
        !q.disjoint(t[y].elements),
        t[y].real.dom().disjoint(q),
        t[y].virt.dom().disjoint(q),
        0 <= n < t.len(),
        t[n].elements.subset_of(t[y].elements),
        descent(t, n, t[y].elements.intersect(q).difference(t[n].elements)) == Some(y),
        after matches Some(k) ==> forall|s: Symbol|
            t[y].elements.contains(s) && q.contains(s) && !t[n].elements.contains(s) ==> k < s,
    ensures
        matched(t, n, q, after, None, y),
    decreases t[y].elements.intersect(q).difference(t[n].elements).len(),
{
    let part = t[y].elements.intersect(q);
    let rest = part.difference(t[n].elements);
    assert(node_ok(t, y));
    vstd::set_lib::lemma_len_subset(part, t[y].elements);
    vstd::set_lib::lemma_len_subset(rest, part);
    if rest.is_empty() {
        assert(n == y);
    } else {
        let x0 = choose|x0: Symbol| rest.contains(x0);
        lemma_has_least(rest, x0);
        let j = least(rest);
        assert(is_least(rest, j));
        assert(organised(t, t[y].elements));
        assert(organised_at(t, n, t[y].elements));
        assert(t[n].elements != t[y].elements);
        assert(child(t, n, j) is Some);
        let c = child(t, n, j).unwrap() as int;
        lemma_child_edge(t, n, j);
        lemma_room_child(t, n, j);
        assert(t[c].elements.subset_of(t[y].elements));
        let next = rest.difference(t[c].elements);
        assert(next =~= part.difference(t[c].elements));
        vstd::set_lib::lemma_len_subset(next, rest);
        next.lemma_subset_not_in_lt(rest, j);
        assert(match_step(t, n, q, j)) by {
            let diff = t[c].elements.difference(t[n].elements).intersect(q);
            assert(diff.contains(j));
            assert forall|s: Symbol| diff.contains(s) implies j <= s by {
                assert(rest.contains(s));
            }
        }
        assert forall|s: Symbol|
            t[y].elements.contains(s) && q.contains(s) && !t[c].elements.contains(s) implies j < s by {
            assert(rest.contains(s));
        }
        lemma_partial_is_matched(t, q, y, c, Some(j));
        assert(between(after, j, None));
        assert(child_below(t, n, j));
        assert(!(t[n].real.dom().disjoint(q) && t[n].virt.dom().disjoint(q))) by {
            if t[n].real.dom().contains(j) {
                assert(q.contains(j));
            } else {
                assert(t[n].virt.dom().contains(j));
            }
        }
    }
}

/// In a whole tree the search for the partial matches of `q` finds the
/// nodes that are partial matches of `q`, and no others.
pub proof fn lemma_matches_are_partial(t: Seq<MopView>, q: Set<Symbol>, y: int)
    requires
        whole(t),
        q.finite(),
    ensures
        (0 <= y < t.len() && matched(t, 0, q, None, None, y)) <==> is_partial_match(t, q, y),
{
    assert(t[0].elements.intersect(q) =~= Set::<Symbol>::empty());
    assert(Set::<Symbol>::empty().difference(t[0].elements) =~= Set::<Symbol>::empty());
    assert(complete_match_of(t, Set::<Symbol>::empty()) == Some(0int));
    if 0 <= y < t.len() && matched(t, 0, q, None, None, y) {
        lemma_matched_is_partial(t, q, 0, None, y);
    }
    if is_partial_match(t, q, y) {
        let part = t[y].elements.intersect(q);
        assert(part.difference(t[0].elements) =~= part);
        lemma_partial_is_matched(t, q, y, 0, None);
    }
}

/// Node `x` is found by the plain search for the partial matches of `q`
/// from node `n`, which at a node with a key in `q` goes down under every
/// symbol of `q`, before `before`, that is a key of the node.
pub open spec fn roamed(
    t: Seq<MopView>,
    n: int,
    q: Set<Symbol>,
    before: Option<Symbol>,
    x: int,
) -> bool
    decreases room(t, n),
{
    if t[n].real.dom().disjoint(q) && t[n].virt.dom().disjoint(q) {
        x == n && !q.disjoint(t[n].elements)
    } else {
        exists|j: Symbol|
            #![trigger child(t, n, j)]
            {
                &&& q.contains(j)
                &&& between(None, j, before)
                &&& child_below(t, n, j)
                &&& roamed(t, child(t, n, j).unwrap() as int, q, None, x)
            }
    }
}

/// The handles of `out` name the nodes that the plain search for the
/// partial matches of `q` finds from node `n` under keys before `before`,
/// one for each set, in the order of the sets.
pub open spec fn gathers_roamed(
    t: Seq<MopView>,
    out: Seq<usize>,
    n: int,
    q: Set<Symbol>,
    before: Option<Symbol>,
) -> bool {
    &&& forall|i: int|
        0 <= i < out.len() ==> {
            &&& (#[trigger] out[i]) < t.len()
            &&& roamed(t, n, q, before, out[i] as int)
        }
    &&& forall|x: int|
        0 <= x < t.len() && #[trigger] roamed(t, n, q, before, x) ==> holds_set(t, out, t[x].elements)
    &&& sorted_sets(t, out)
}

/// Before the first symbol of the query the plain search under a node
/// with a key in the query has found nothing.
pub proof fn lemma_roam_start(t: Seq<MopView>, n: int, q: Set<Symbol>, keys: Seq<Symbol>, x: int)
    requires
        ascending(keys),
        keys.to_set() == q,
        keys.len() > 0,
        !(t[n].real.dom().disjoint(q) && t[n].virt.dom().disjoint(q)),
    ensures
        !roamed(t, n, q, key_at(keys, 0), x),
{
    if roamed(t, n, q, key_at(keys, 0), x) {
        let j = choose|j: Symbol|
            #![trigger child(t, n, j)]
            {
                &&& q.contains(j)
                &&& between(None, j, key_at(keys, 0))
                &&& child_below(t, n, j)
                &&& roamed(t, child(t, n, j).unwrap() as int, q, None, x)
            };
        assert(keys.to_set().contains(j));
        let i = choose|i: int| 0 <= i < keys.len() && keys[i] == j;
        assert(keys[0] <= keys[i]);
    }
}

/// With one more symbol of the query the plain search has found what it
/// had found before and what it finds below the child under that symbol.
pub proof fn lemma_roam_extend(
    t: Seq<MopView>,
    n: int,
    q: Set<Symbol>,
    keys: Seq<Symbol>,
    idx: int,
    x: int,
)
    requires
        ascending(keys),
        keys.to_set() == q,
        0 <= idx < keys.len(),
        !(t[n].real.dom().disjoint(q) && t[n].virt.dom().disjoint(q)),
    ensures
        roamed(t, n, q, key_at(keys, idx + 1), x) <==> (roamed(t, n, q, key_at(keys, idx), x) || {
            &&& child_below(t, n, keys[idx])
            &&& roamed(t, child(t, n, keys[idx]).unwrap() as int, q, None, x)
        }),
{
    let k = keys[idx];
    assert(keys.contains(k));
    assert(q.contains(k));
    if roamed(t, n, q, key_at(keys, idx + 1), x) {
        let j = choose|j: Symbol|
            #![trigger child(t, n, j)]
            {
                &&& q.contains(j)
                &&& between(None, j, key_at(keys, idx + 1))
                &&& child_below(t, n, j)
                &&& roamed(t, child(t, n, j).unwrap() as int, q, None, x)
            };
        assert(keys.to_set().contains(j));
        let i = choose|i: int| 0 <= i < keys.len() && keys[i] == j;
        if i > idx {
            if idx + 1 < keys.len() {
                assert(keys[idx + 1] <= keys[i]);
            }
        } else if i < idx {
            assert(keys[i] < keys[idx]);
            assert(between(None, j, key_at(keys, idx)));
        }
    }
    if roamed(t, n, q, key_at(keys, idx), x) {
        let j = choose|j: Symbol|
            #![trigger child(t, n, j)]
            {
                &&& q.contains(j)
                &&& between(None, j, key_at(keys, idx))
                &&& child_below(t, n, j)
                &&& roamed(t, child(t, n, j).unwrap() as int, q, None, x)
            };
        if idx + 1 < keys.len() {
            assert(keys[idx] < keys[idx + 1]);
        }
        assert(between(None, j, key_at(keys, idx + 1)));
    }
    if child_below(t, n, k) && roamed(t, child(t, n, k).unwrap() as int, q, None, x) {
        if idx + 1 < keys.len() {
            assert(keys[idx] < keys[idx + 1]);
        }
        assert(between(None, k, key_at(keys, idx + 1)));
    }
}

/// The plain search that has come to node `n`, the complete match of what
/// its set shares with `q`, finds only partial matches of `q`.
pub proof fn lemma_roamed_is_partial(t: Seq<MopView>, q: Set<Symbol>, n: int, y: int)
    requires
        whole(t),
        0 <= n < t.len(),
        complete_match_of(t, t[n].elements.intersect(q)) == Some(n),
        roamed(t, n, q, None, y),
    ensures
        is_partial_match(t, q, y),
    decreases room(t, n),
{
    if t[n].real.dom().disjoint(q) && t[n].virt.dom().disjoint(q) {
    } else {
        let j = choose|j: Symbol|
            #![trigger child(t, n, j)]
            {
                &&& q.contains(j)
                &&& between(None, j, None)
                &&& child_below(t, n, j)
                &&& roamed(t, child(t, n, j).unwrap() as int, q, None, y)
            };
        let c = child(t, n, j).unwrap() as int;
        lemma_child_edge(t, n, j);
        let part = t[c].elements.intersect(q);
        lemma_match_is_least(t, part, c);
        let w = complete_match_of(t, part).unwrap();
        assert(t[n].elements.intersect(q).subset_of(t[w].elements));
        lemma_match_is_least(t, t[n].elements.intersect(q), w);
        assert(t[n].elements.subset_of(t[w].elements));
        assert(part.contains(j));
        assert(organised(t, t[w].elements));
        assert(organised_at(t, n, t[w].elements));
        assert(child(t, n, j) is Some);
        assert(t[c].elements.subset_of(t[w].elements));
        assert(t[c].elements =~= t[w].elements);
        assert(w == c);
        lemma_roamed_is_partial(t, q, c, y);
    }
}

/// What the search for the partial matches of `q` finds, the plain search finds.
pub proof fn lemma_matched_is_roamed(
    t: Seq<MopView>,
    q: Set<Symbol>,
    n: int,
    after: Option<Symbol>,
    y: int,
)
    requires
        matched(t, n, q, after, None, y),
    ensures
        roamed(t, n, q, None, y),
    decreases room(t, n),
{
    if t[n].real.dom().disjoint(q) && t[n].virt.dom().disjoint(q) {
    } else {
        let j = choose|j: Symbol|
            #![trigger child(t, n, j)]
            {
                &&& between(after, j, None)
                &&& match_step(t, n, q, j)
                &&& child_below(t, n, j)
                &&& matched(t, child(t, n, j).unwrap() as int, q, Some(j), None, y)
            };
        lemma_matched_is_roamed(t, q, child(t, n, j).unwrap() as int, Some(j), y);
        assert(between(None, j, None));
    }
}

/// In a whole tree the plain search for the partial matches of `q` finds
/// the nodes that are partial matches of `q`, and no others.
pub proof fn lemma_roamed_are_partial(t: Seq<MopView>, q: Set<Symbol>, y: int)
    requires
        whole(t),
        q.finite(),
    ensures
        (0 <= y < t.len() && roamed(t, 0, q, None, y)) <==> is_partial_match(t, q, y),
{
    assert(t[0].elements.intersect(q) =~= Set::<Symbol>::empty());
    assert(Set::<Symbol>::empty().difference(t[0].elements) =~= Set::<Symbol>::empty());
    assert(complete_match_of(t, Set::<Symbol>::empty()) == Some(0int));
    if 0 <= y < t.len() && roamed(t, 0, q, None, y) {
        lemma_roamed_is_partial(t, q, 0, y);
    }
    if is_partial_match(t, q, y) {
        lemma_matches_are_partial(t, q, y);
        lemma_matched_is_roamed(t, q, 0, None, y);
    }
}

} // verus!
