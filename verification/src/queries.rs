//! The enumerations: the traces, the epitomes and the partial matches of a query.
use vstd::prelude::*;
use crate::model::{child, child_below, lemma_child_edge, lemma_least_unique, lemma_room_child,
    node_ok, room, well_formed};
use crate::search::{between, gathers_matches, gathers_roamed, gathers_walk, holds_set,
    is_of_kind, is_partial_match, key_at, lemma_gathers_all, lemma_matches_are_partial,
    lemma_roam_extend, lemma_roam_start, lemma_roamed_are_partial, roamed,
    lemma_match_extend, lemma_match_start, lemma_matched_shares, lemma_walk_extend,
    lemma_walk_start, match_step, matched, sorted_sets, walk_step, walked, Kind};
use crate::mop::{Mop, MopView};
use crate::ordered_set::{is_least, OrderedSet, Symbol};
use crate::set_order::{lemma_set_order, set_before};
use crate::strength::Strength;
use crate::tree::RedundantDiscriminationTree;

verus! {

impl<S: Strength> RedundantDiscriminationTree<S> {
    /// Puts into `out`, at its place in the order of the sets, each handle
    /// of `more` whose node has a set that no node named in `out` has yet.
    fn add_unseen(&self, out: &mut Vec<usize>, more: &Vec<usize>)
        requires
            self.sound(),
            forall|i: int| 0 <= i < old(out)@.len() ==> (#[trigger] old(out)@[i]) < self@.len(),
            forall|i: int| 0 <= i < more@.len() ==> (#[trigger] more@[i]) < self@.len(),
            sorted_sets(self@, old(out)@),
        ensures
            forall|i: int| 0 <= i < final(out)@.len() ==> (#[trigger] final(out)@[i]) < self@.len(),
            sorted_sets(self@, final(out)@),
            forall|i: int|
                0 <= i < final(out)@.len() ==> old(out)@.contains(#[trigger] final(out)@[i])
                    || more@.contains(final(out)@[i]),
            forall|s: Set<Symbol>| #[trigger]
                holds_set(self@, final(out)@, s) ==> holds_set(self@, old(out)@, s) || holds_set(
                    self@,
                    more@,
                    s,
                ),
            forall|s: Set<Symbol>| #[trigger]
                holds_set(self@, old(out)@, s) ==> holds_set(self@, final(out)@, s),
            forall|s: Set<Symbol>| #[trigger]
                holds_set(self@, more@, s) ==> holds_set(self@, final(out)@, s),
    {
        let ghost t = self@;
        let mut k: usize = 0;
        while k < more.len()
            invariant
                k <= more.len(),
                t == self@,
                well_formed(t),
                forall|i: int| 0 <= i < out@.len() ==> (#[trigger] out@[i]) < t.len(),
                forall|i: int| 0 <= i < more@.len() ==> (#[trigger] more@[i]) < t.len(),
                sorted_sets(t, out@),
                forall|i: int|
                    0 <= i < out@.len() ==> old(out)@.contains(#[trigger] out@[i]) || more@.contains(
                        out@[i],
                    ),
                forall|s: Set<Symbol>| #[trigger]
                    holds_set(t, out@, s) ==> holds_set(t, old(out)@, s) || holds_set(
                        t,
                        more@.subrange(0, k as int),
                        s,
                    ),
                forall|s: Set<Symbol>| #[trigger] holds_set(t, old(out)@, s) ==> holds_set(t, out@, s),
                forall|s: Set<Symbol>| #[trigger]
                    holds_set(t, more@.subrange(0, k as int), s) ==> holds_set(t, out@, s),
            decreases more.len() - k,
        {
            let id: usize = more[k];
            let ghost prev = out@;
            let ghost set = t[id as int].elements;
            let mut pos: usize = 0;
            let mut placed: bool = false;
            while pos < out.len() && !placed
                invariant
                    pos <= out.len(),
                    t == self@,
                    id < t.len(),
                    set == t[id as int].elements,
                    out@ == prev,
                    forall|a: int| 0 <= a < out@.len() ==> (#[trigger] out@[a]) < t.len(),
                    forall|a: int|
                        0 <= a < pos ==> set_before(t[(#[trigger] out@[a]) as int].elements, set),
                    placed ==> pos < out.len() && !set_before(
                        t[out@[pos as int] as int].elements,
                        set,
                    ),
                decreases out.len() - pos + (if placed { 0int } else { 1int }),
            {
                if self.mop(out[pos]).elements().precedes(self.mop(id).elements()) {
                    pos = pos + 1;
                } else {
                    placed = true;
                }
            }
            let seen: bool = pos < out.len() && self.mop(out[pos]).elements().same_as(
                self.mop(id).elements(),
            );
            if !seen {
                out.insert(pos, id);
                proof {
                    assert(out@[pos as int] == id);
                    assert(more@.contains(id));
                    assert forall|a: int| 0 <= a < out@.len() implies (#[trigger] out@[a]) < t.len() by {
                        if a < pos {
                            assert(out@[a] == prev[a]);
                        } else if a > pos {
                            assert(out@[a] == prev[a - 1]);
                        }
                    }
                    assert forall|a: int| 0 <= a < out@.len() implies old(out)@.contains(
                        #[trigger] out@[a],
                    ) || more@.contains(out@[a]) by {
                        if a < pos {
                            assert(out@[a] == prev[a]);
                        } else if a > pos {
                            assert(out@[a] == prev[a - 1]);
                        }
                    }
                    assert forall|a: int, b: int| 0 <= a < b < out@.len() implies set_before(
                        t[out@[a] as int].elements,
                        t[out@[b] as int].elements,
                    ) by {
                        let ia = if a < pos { a } else { a - 1 };
                        let ib = if b < pos { b } else { b - 1 };
                        if a != pos && b != pos {
                            assert(out@[a] == prev[ia] && out@[b] == prev[ib]);
                        } else if b == pos {
                            assert(out@[a] == prev[a]);
                        } else {
                            assert(out@[b] == prev[b - 1]);
                            let first = t[prev[pos as int] as int].elements;
                            let other = t[prev[b - 1] as int].elements;
                            assert(node_ok(t, prev[pos as int] as int));
                            assert(node_ok(t, prev[b - 1] as int));
                            assert(node_ok(t, id as int));
                            lemma_set_order(first, set, other);
                            lemma_set_order(set, first, other);
                        }
                    }
                }
            }
            proof {
                let before = more@.subrange(0, k as int);
                let now = more@.subrange(0, k + 1);
                assert(now =~= before.push(id));
                assert forall|s: Set<Symbol>| #[trigger] holds_set(t, prev, s) implies holds_set(
                    t,
                    out@,
                    s,
                ) by {
                    let b = choose|b: int| 0 <= b < prev.len() && t[#[trigger] prev[b] as int].elements == s;
                    if !seen {
                        if b < pos {
                            assert(out@[b] == prev[b]);
                        } else {
                            assert(out@[b + 1] == prev[b]);
                        }
                    }
                }
                assert forall|s: Set<Symbol>| #[trigger] holds_set(t, now, s) implies holds_set(
                    t,
                    out@,
                    s,
                ) by {
                    let a = choose|a: int| 0 <= a < now.len() && t[#[trigger] now[a] as int].elements == s;
                    if a < before.len() {
                        assert(before[a] == now[a]);
                        assert(holds_set(t, before, s));
                        assert(holds_set(t, prev, s));
                    } else {
                        assert(now[a] == id);
                        if seen {
                            assert(t[prev[pos as int] as int].elements == s);
                            assert(holds_set(t, prev, s));
                        } else {
                            assert(out@[pos as int] == id);
                        }
                    }
                }
                assert forall|s: Set<Symbol>| #[trigger] holds_set(t, old(out)@, s) implies holds_set(
                    t,
                    out@,
                    s,
                ) by {
                    assert(holds_set(t, prev, s));
                }
                assert forall|s: Set<Symbol>| #[trigger] holds_set(t, out@, s) implies holds_set(
                    t,
                    old(out)@,
                    s,
                ) || holds_set(t, now, s) by {
                    let a = choose|a: int| 0 <= a < out@.len() && t[#[trigger] out@[a] as int].elements == s;
                    if seen || a != pos {
                        let ia = if seen || a < pos { a } else { a - 1 };
                        assert(out@[a] == prev[ia]);
                        assert(holds_set(t, prev, s));
                        if holds_set(t, before, s) {
                            let b = choose|b: int|
                                0 <= b < before.len() && t[#[trigger] before[b] as int].elements == s;
                            assert(now[b] == before[b]);
                        }
                    } else {
                        assert(now[k as int] == id);
                    }
                }
            }
            k = k + 1;
        }
        proof {
            assert(more@.subrange(0, k as int) =~= more@);
        }
    }

    /// Whether node `n` is of the kind.
    fn is_kind(&self, n: usize, kind: Kind) -> (b: bool)
        requires
            n < self@.len(),
        ensures
            b == is_of_kind(self@[n as int], kind),
    {
        match kind {
            Kind::Trace => self.mop(n).is_trace(),
            Kind::Epitome => self.mop(n).is_epitome(),
        }
    }

    /// The nodes of the kind that are met on the walk from node `n` past
    /// the key `after`, one for each set. The walk looks at the children of
    /// a node by ascending key, real and virtual ones alike, and goes down
    /// to a child only under the smallest symbol that the child has and the
    /// node has not.
    pub(crate) fn walk(&self, n: usize, after: Option<Symbol>, kind: Kind) -> (out: Vec<usize>)
        requires
            self.sound(),
            n < self@.len(),
        ensures
            gathers_walk(self@, out@, n as int, after, None, kind),
        decreases room(self@, n as int),
    {
        let ghost t = self@;
        let mut out: Vec<usize> = Vec::new();
        if self.is_kind(n, kind) {
            out.push(n);
        }
        let merged = self.mop(n).merged_children();
        let (keys, targets) = merged.entries();
        proof {
            assert(node_ok(t, n as int));
            assert(merged@.dom() =~= t[n as int].real.dom().union(t[n as int].virt.dom()));
            assert forall|j: Symbol| merged@.dom().contains(j) implies child(t, n as int, j) == Some(
                merged@[j],
            ) by {}
            if keys@.len() == 0 {
                assert forall|x: int| walked(t, n as int, after, None, x) implies x == n by {
                    if x != n {
                        let j = choose|j: Symbol|
                            #![trigger child(t, n as int, j)]
                            {
                                &&& between(after, j, None)
                                &&& walk_step(t, n as int, j)
                                &&& child_below(t, n as int, j)
                            };
                        assert(keys@.to_set().contains(j));
                    }
                }
            } else {
                assert forall|x: int| walked(t, n as int, after, key_at(keys@, 0), x) <==> x == n by {
                    lemma_walk_start(t, n as int, after, keys@, x);
                }
            }
            assert(gathers_walk(t, out@, n as int, after, key_at(keys@, 0), kind)) by {
                if is_of_kind(t[n as int], kind) {
                    assert(out@[0] == n);
                }
            }
        }
        let mut idx: usize = 0;
        while idx < keys.len()
            invariant
                idx <= keys.len(),
                t == self@,
                self.sound(),
                n < t.len(),
                crate::ordered_set::ascending(keys@),
                keys@.len() == targets@.len(),
                keys@.to_set() == t[n as int].real.dom().union(t[n as int].virt.dom()),
                forall|i: int| 0 <= i < keys@.len() ==> child(t, n as int, #[trigger] keys@[i]) == Some(
                    targets@[i],
                ),
                gathers_walk(t, out@, n as int, after, key_at(keys@, idx as int), kind),
            decreases keys.len() - idx,
        {
            let j: Symbol = keys[idx];
            let c: usize = targets[idx];
            let ghost prev = out@;
            let ghost mut sub_ids: Seq<usize> = Seq::empty();
            let ghost mut went: bool = false;
            proof {
                assert(child(t, n as int, keys@[idx as int]) == Some(c));
                lemma_room_child(t, n as int, j);
                lemma_child_edge(t, n as int, j);
            }
            let past: bool = match after {
                Some(k) => j > k,
                None => true,
            };
            if past {
                let first = self.mop(c).elements().difference(self.mop(n).elements()).first();
                let is_first: bool = match first {
                    Some(f) => f == j,
                    None => false,
                };
                proof {
                    let diff = t[c as int].elements.difference(t[n as int].elements);
                    assert(diff.contains(j));
                    if is_first {
                        assert(walk_step(t, n as int, j));
                    } else {
                        if is_least(diff, j) {
                            lemma_least_unique(diff, j);
                            lemma_least_unique(diff, first.unwrap());
                        }
                    }
                }
                if is_first {
                    let sub = self.walk(c, Some(j), kind);
                    proof {
                        sub_ids = sub@;
                        went = true;
                    }
                    self.add_unseen(&mut out, &sub);
                }
            }
            proof {
                let fin = out@;
                if !went {
                    assert(fin == prev);
                }
                assert forall|x: int|
                    #![trigger walked(t, n as int, after, key_at(keys@, idx + 1), x)]
                    walked(t, n as int, after, key_at(keys@, idx + 1), x) <==> (walked(
                        t,
                        n as int,
                        after,
                        key_at(keys@, idx as int),
                        x,
                    ) || (went && walked(t, c as int, Some(j), None, x))) by {
                    lemma_walk_extend(t, n as int, after, keys@, idx as int, x);
                }
                assert forall|i: int| 0 <= i < fin.len() implies {
                    &&& (#[trigger] fin[i]) < t.len()
                    &&& walked(t, n as int, after, key_at(keys@, idx + 1), fin[i] as int)
                    &&& is_of_kind(t[fin[i] as int], kind)
                } by {
                    if went {
                        if prev.contains(fin[i]) {
                            let a = choose|a: int| 0 <= a < prev.len() && prev[a] == fin[i];
                            assert(walked(t, n as int, after, key_at(keys@, idx as int), prev[a] as int));
                        } else {
                            assert(sub_ids.contains(fin[i]));
                            let a = choose|a: int| 0 <= a < sub_ids.len() && sub_ids[a] == fin[i];
                            assert(walked(t, c as int, Some(j), None, sub_ids[a] as int));
                        }
                    }
                }
                assert forall|x: int|
                    0 <= x < t.len() && #[trigger] walked(t, n as int, after, key_at(keys@, idx + 1), x)
                        && is_of_kind(t[x], kind) implies holds_set(t, fin, t[x].elements) by {
                    if walked(t, n as int, after, key_at(keys@, idx as int), x) {
                        assert(holds_set(t, prev, t[x].elements));
                    } else {
                        assert(went);
                        assert(walked(t, c as int, Some(j), None, x));
                        assert(holds_set(t, sub_ids, t[x].elements));
                    }

                }
            }
            idx = idx + 1;
        }
        out
    }

    /// The partial matches of `query` found from node `n` past the key
    /// `after`, one for each set.
    pub(crate) fn partial_match_after(&self, n: usize, query: &OrderedSet, after: Option<Symbol>) -> (out:
        Vec<usize>)
        requires
            self.sound(),
            n < self@.len(),
        ensures
            gathers_matches(self@, out@, n as int, query@, after, None),
        decreases room(self@, n as int),
    {
        let ghost t = self@;
        let ghost q = query@;
        let mut out: Vec<usize> = Vec::new();
        if self.mop(n).is_disjoint_child_indices(query) {
            if !query.is_disjoint(self.mop(n).elements()) {
                out.push(n);
                assert(out@[0] == n);
            }
            return out;
        }
        let beyond = query.difference(self.mop(n).elements());
        let candidates = match after {
            Some(k) => beyond.advance_past(k),
            None => beyond,
        };
        let keys = candidates.items();
        proof {
            assert(node_ok(t, n as int));
            assert forall|j: Symbol|
                q.contains(j) && !t[n as int].elements.contains(j) && between(after, j, None) implies keys@.to_set().contains(
                j,
            ) by {
                assert(candidates@.contains(j));
            }
            assert forall|i: int| 0 <= i < keys@.len() implies q.contains(#[trigger] keys@[i])
                && !t[n as int].elements.contains(keys@[i]) && between(after, keys@[i], None) by {
                assert(keys@.contains(keys@[i]));
                assert(candidates@.contains(keys@[i]));
            }
            if keys@.len() == 0 {
                assert forall|x: int| !matched(t, n as int, q, after, None, x) by {
                    if matched(t, n as int, q, after, None, x) {
                        let j = choose|j: Symbol|
                            #![trigger child(t, n as int, j)]
                            {
                                &&& between(after, j, None)
                                &&& match_step(t, n as int, q, j)
                                &&& child_below(t, n as int, j)
                            };
                        assert(keys@.to_set().contains(j));
                        assert(keys@.contains(j));
                    }
                }
            } else {
                assert forall|x: int| !matched(t, n as int, q, after, key_at(keys@, 0), x) by {
                    lemma_match_start(t, n as int, q, after, keys@, x);
                }
            }
        }
        let mut idx: usize = 0;
        while idx < keys.len()
            invariant
                idx <= keys.len(),
                t == self@,
                q == query@,
                self.sound(),
                n < t.len(),
                crate::ordered_set::ascending(keys@),
                !(t[n as int].real.dom().disjoint(q) && t[n as int].virt.dom().disjoint(q)),
                forall|j: Symbol|
                    q.contains(j) && !t[n as int].elements.contains(j) && between(after, j, None)
                        ==> keys@.to_set().contains(j),
                forall|i: int|
                    0 <= i < keys@.len() ==> q.contains(#[trigger] keys@[i]) && !t[n as int].elements.contains(
                        keys@[i],
                    ) && between(after, keys@[i], None),
                gathers_matches(t, out@, n as int, q, after, key_at(keys@, idx as int)),
            decreases keys.len() - idx,
        {
            let j: Symbol = keys[idx];
            let ghost prev = out@;
            let ghost mut sub_ids: Seq<usize> = Seq::empty();
            let ghost mut went: bool = false;
            let ghost mut down: int = 0;
            let found: Option<usize> = match self.mop(n).get_r_child(j) {
                Some(c) => Some(c),
                None => self.mop(n).get_v_child(j),
            };
            assert(found == child(t, n as int, j));
            match found {
                Some(c) => {
                    proof {
                        lemma_room_child(t, n as int, j);
                        lemma_child_edge(t, n as int, j);
                        down = c as int;
                    }
                    let first = self.mop(c).elements().difference(
                        self.mop(n).elements(),
                    ).intersection(query).first();
                    let is_first: bool = match first {
                        Some(f) => f == j,
                        None => false,
                    };
                    proof {
                        let diff = t[c as int].elements.difference(t[n as int].elements).intersect(q);
                        assert(diff.contains(j));
                        if is_first {
                            assert(match_step(t, n as int, q, j));
                        } else {
                            if is_least(diff, j) {
                                lemma_least_unique(diff, j);
                                lemma_least_unique(diff, first.unwrap());
                            }
                        }
                    }
                    if is_first {
                        let sub = self.partial_match_after(c, query, Some(j));
                        proof {
                            sub_ids = sub@;
                            went = true;
                        }
                        self.add_unseen(&mut out, &sub);
                    }
                },
                None => {},
            }
            proof {
                let fin = out@;
                if !went {
                    assert(fin == prev);
                }
                assert forall|x: int|
                    #![trigger matched(t, n as int, q, after, key_at(keys@, idx + 1), x)]
                    matched(t, n as int, q, after, key_at(keys@, idx + 1), x) <==> (matched(
                        t,
                        n as int,
                        q,
                        after,
                        key_at(keys@, idx as int),
                        x,
                    ) || (went && matched(t, down, q, Some(j), None, x))) by {
                    lemma_match_extend(t, n as int, q, after, keys@, idx as int, x);
                }
                assert forall|i: int| 0 <= i < fin.len() implies {
                    &&& (#[trigger] fin[i]) < t.len()
                    &&& matched(t, n as int, q, after, key_at(keys@, idx + 1), fin[i] as int)
                } by {
                    if went {
                        if prev.contains(fin[i]) {
                            let a = choose|a: int| 0 <= a < prev.len() && prev[a] == fin[i];
                            assert(matched(t, n as int, q, after, key_at(keys@, idx as int), prev[a] as int));
                        } else {
                            assert(sub_ids.contains(fin[i]));
                            let a = choose|a: int| 0 <= a < sub_ids.len() && sub_ids[a] == fin[i];
                            assert(matched(t, down, q, Some(j), None, sub_ids[a] as int));
                        }
                    }
                }
                assert forall|x: int|
                    0 <= x < t.len() && #[trigger] matched(t, n as int, q, after, key_at(keys@, idx + 1), x) implies holds_set(
                    t,
                    fin,
                    t[x].elements,
                ) by {
                    if matched(t, n as int, q, after, key_at(keys@, idx as int), x) {
                        assert(holds_set(t, prev, t[x].elements));
                    } else {
                        assert(went);
                        assert(matched(t, down, q, Some(j), None, x));
                        assert(holds_set(t, sub_ids, t[x].elements));
                    }

                }
            }
            idx = idx + 1;
        }
        out
    }

    /// `found` lists the nodes that the handles of `ids` name, in the same order.
    pub open spec fn lists(&self, found: Seq<&Mop<S>>, ids: Seq<usize>) -> bool {
        &&& found.len() == ids.len()
        &&& forall|i: int| 0 <= i < ids.len() ==> (#[trigger] found[i])@ == self@[ids[i] as int]
    }

    /// In a whole tree what gathers the nodes of a kind met on the walk
    /// from the root lists every node of the kind, and only such nodes.
    proof fn lemma_listed_all(&self, found: Seq<&Mop<S>>, ids: Seq<usize>, kind: Kind)
        requires
            self.wf(),
            self.lists(found, ids),
            gathers_walk(self@, ids, 0, None, None, kind),
        ensures
            forall|i: int| 0 <= i < found.len() ==> is_of_kind((#[trigger] found[i])@, kind),
            forall|x: int|
                0 <= x < self@.len() && is_of_kind(#[trigger] self@[x], kind) ==> lists_node(
                    found,
                    self@[x],
                ),
    {
        assert forall|i: int| 0 <= i < found.len() implies is_of_kind((#[trigger] found[i])@, kind) by {
            assert(ids[i] < self@.len());
        }
        assert forall|x: int|
            0 <= x < self@.len() && is_of_kind(#[trigger] self@[x], kind) implies lists_node(
            found,
            self@[x],
        ) by {
            lemma_gathers_all(self@, ids, kind, x);
            let i = choose|i: int| 0 <= i < ids.len() && #[trigger] ids[i] == x;
            assert(found[i]@ == self@[ids[i] as int]);
        }
    }

    /// Nodes listed in the order of their sets are so listed.
    proof fn lemma_listed_in_order(&self, found: Seq<&Mop<S>>, ids: Seq<usize>)
        requires
            self.lists(found, ids),
            sorted_sets(self@, ids),
        ensures
            in_set_order(found),
    {
        assert forall|i: int, j: int| 0 <= i < j < found.len() implies set_before(
            found[i]@.elements,
            found[j]@.elements,
        ) by {
            assert(found[i]@ == self@[ids[i] as int]);
            assert(found[j]@ == self@[ids[j] as int]);
        }
    }

    /// The nodes that the handles of `ids` name.
    fn mops_of<'a>(&'a self, ids: &Vec<usize>) -> (found: Vec<&'a Mop<S>>)
        requires
            forall|i: int| 0 <= i < ids@.len() ==> (#[trigger] ids@[i]) < self@.len(),
        ensures
            self.lists(found@, ids@),
    {
        let mut found: Vec<&'a Mop<S>> = Vec::new();
        let mut i: usize = 0;
        while i < ids.len()
            invariant
                i <= ids.len(),
                found@.len() == i,
                forall|k: int| 0 <= k < ids@.len() ==> (#[trigger] ids@[k]) < self@.len(),
                forall|k: int| 0 <= k < i ==> (#[trigger] found@[k])@ == self@[ids@[k] as int],
            decreases ids.len() - i,
        {
            found.push(self.mop(ids[i]));
            i = i + 1;
        }
        found
    }

    /// The traces that the walk from the root meets, one for each set, in
    /// the order of the sets.
    pub fn traces(&self) -> (found: Vec<&Mop<S>>)
        requires
            self.wf(),
        ensures
            exists|ids: Seq<usize>|
                gathers_walk(self@, ids, 0, None, None, Kind::Trace) && #[trigger] self.lists(
                    found@,
                    ids,
                ),
            in_set_order(found@),
            forall|i: int| 0 <= i < found@.len() ==> (#[trigger] found@[i])@.trace > 0,
            forall|x: int|
                0 <= x < self@.len() && (#[trigger] self@[x]).trace > 0 ==> lists_node(found@, self@[x]),
    {
        Public::traces(self)
    }

    /// The epitomes that the walk from the root meets, one for each set, in
    /// the order of the sets.
    pub fn epitomes(&self) -> (found: Vec<&Mop<S>>)
        requires
            self.wf(),
        ensures
            exists|ids: Seq<usize>|
                gathers_walk(self@, ids, 0, None, None, Kind::Epitome) && #[trigger] self.lists(
                    found@,
                    ids,
                ),
            in_set_order(found@),
            forall|i: int|
                0 <= i < found@.len() ==> is_of_kind((#[trigger] found@[i])@, Kind::Epitome),
            forall|x: int|
                0 <= x < self@.len() && is_of_kind(#[trigger] self@[x], Kind::Epitome) ==> lists_node(
                    found@,
                    self@[x],
                ),
    {
        Public::epitomes(self)
    }

    /// The partial matches of `query`, in the order of their sets: the nodes
    /// whose set shares a symbol with `query`, that have no child under a
    /// symbol of `query`, and that are the complete match of what their set
    /// shares with `query`. They are the nodes at which the search from the
    /// root ends.
    pub fn partial_matches(&self, query: &OrderedSet) -> (found: Vec<&Mop<S>>)
        requires
            self.wf(),
        ensures
            exists|ids: Seq<usize>|
                gathers_matches(self@, ids, 0, query@, None, None) && #[trigger] self.lists(
                    found@,
                    ids,
                ),
            in_set_order(found@),
            forall|i: int| 0 <= i < found@.len() ==> !query@.disjoint((#[trigger] found@[i])@.elements),
            forall|i: int|
                0 <= i < found@.len() ==> matches_partly(self@, query@, (#[trigger] found@[i])@),
            forall|y: int|
                #![trigger self@[y]]
                is_partial_match(self@, query@, y) ==> lists_node(found@, self@[y]),
    {
        let ids = self.partial_match_after(0, query, None);
        let found = self.mops_of(&ids);
        proof {
            self.lemma_listed_in_order(found@, ids@);
            query.lemma_finite();
            assert forall|i: int| 0 <= i < found@.len() implies !query@.disjoint(
                (#[trigger] found@[i])@.elements,
            ) by {
                assert(ids@[i] < self@.len());
                lemma_matched_shares(self@, 0, query@, None, None, ids@[i] as int);
            }
            assert forall|i: int| 0 <= i < found@.len() implies matches_partly(
                self@,
                query@,
                (#[trigger] found@[i])@,
            ) by {
                assert(ids@[i] < self@.len());
                lemma_matches_are_partial(self@, query@, ids@[i] as int);
                assert(is_partial_match(self@, query@, ids@[i] as int));
                assert(found@[i]@ == self@[ids@[i] as int]);
            }
            assert forall|y: int|
                #![trigger self@[y]]
                is_partial_match(self@, query@, y) implies lists_node(found@, self@[y]) by {
                lemma_matches_are_partial(self@, query@, y);
                assert(holds_set(self@, ids@, self@[y].elements));
                let i = choose|i: int|
                    0 <= i < ids@.len() && self@[#[trigger] ids@[i] as int].elements == self@[y].elements;
                assert(ids@[i] < self@.len());
                assert(ids@[i] == y);
                assert(found@[i]@ == self@[ids@[i] as int]);
            }
        }
        found
    }

    /// The nodes that the plain search for the partial matches of `query`
    /// finds from node `n`, one for each set. At a node with a key in
    /// `query` the plain search goes down under every symbol of `query`
    /// that is a key of the node; at a node without one it ends.
    pub(crate) fn roam(&self, n: usize, query: &OrderedSet) -> (out: Vec<usize>)
        requires
            self.sound(),
            n < self@.len(),
        ensures
            gathers_roamed(self@, out@, n as int, query@, None),
        decreases room(self@, n as int),
    {
        let ghost t = self@;
        let ghost q = query@;
        let mut out: Vec<usize> = Vec::new();
        if self.mop(n).is_disjoint_child_indices(query) {
            if !query.is_disjoint(self.mop(n).elements()) {
                out.push(n);
                assert(out@[0] == n);
            }
            return out;
        }
        let keys = query.items();
        proof {
            assert(node_ok(t, n as int));
            if keys@.len() == 0 {
                assert forall|x: int| !roamed(t, n as int, q, None, x) by {
                    if roamed(t, n as int, q, None, x) {
                        let j = choose|j: Symbol|
                            #![trigger child(t, n as int, j)]
                            {
                                &&& q.contains(j)
                                &&& between(None, j, None)
                                &&& child_below(t, n as int, j)
                            };
                        assert(keys@.to_set().contains(j));
                        assert(keys@.contains(j));
                    }
                }
            } else {
                assert forall|x: int| !roamed(t, n as int, q, key_at(keys@, 0), x) by {
                    lemma_roam_start(t, n as int, q, keys@, x);
                }
            }
        }
        let mut idx: usize = 0;
        while idx < keys.len()
            invariant
                idx <= keys.len(),
                t == self@,
                q == query@,
                self.sound(),
                n < t.len(),
                crate::ordered_set::ascending(keys@),
                keys@.to_set() == q,
                !(t[n as int].real.dom().disjoint(q) && t[n as int].virt.dom().disjoint(q)),
                gathers_roamed(t, out@, n as int, q, key_at(keys@, idx as int)),
            decreases keys.len() - idx,
        {
            let j: Symbol = keys[idx];
            let ghost prev = out@;
            let ghost mut sub_ids: Seq<usize> = Seq::empty();
            let ghost mut went: bool = false;
            let ghost mut down: int = 0;
            let found: Option<usize> = match self.mop(n).get_r_child(j) {
                Some(c) => Some(c),
                None => self.mop(n).get_v_child(j),
            };
            assert(found == child(t, n as int, j));
            match found {
                Some(c) => {
                    proof {
                        lemma_room_child(t, n as int, j);
                        down = c as int;
                    }
                    let sub = self.roam(c, query);
                    proof {
                        sub_ids = sub@;
                        went = true;
                    }
                    self.add_unseen(&mut out, &sub);
                },
                None => {},
            }
            proof {
                let fin = out@;
                if !went {
                    assert(fin == prev);
                }
                assert forall|x: int|
                    #![trigger roamed(t, n as int, q, key_at(keys@, idx + 1), x)]
                    roamed(t, n as int, q, key_at(keys@, idx + 1), x) <==> (roamed(
                        t,
                        n as int,
                        q,
                        key_at(keys@, idx as int),
                        x,
                    ) || (went && roamed(t, down, q, None, x))) by {
                    lemma_roam_extend(t, n as int, q, keys@, idx as int, x);
                }
                assert forall|i: int| 0 <= i < fin.len() implies {
                    &&& (#[trigger] fin[i]) < t.len()
                    &&& roamed(t, n as int, q, key_at(keys@, idx + 1), fin[i] as int)
                } by {
                    if went {
                        if prev.contains(fin[i]) {
                            let a = choose|a: int| 0 <= a < prev.len() && prev[a] == fin[i];
                            assert(roamed(t, n as int, q, key_at(keys@, idx as int), prev[a] as int));
                        } else {
                            assert(sub_ids.contains(fin[i]));
                            let a = choose|a: int| 0 <= a < sub_ids.len() && sub_ids[a] == fin[i];
                            assert(roamed(t, down, q, None, sub_ids[a] as int));
                        }
                    }
                }
                assert forall|x: int|
                    0 <= x < t.len() && #[trigger] roamed(t, n as int, q, key_at(keys@, idx + 1), x) implies holds_set(
                    t,
                    fin,
                    t[x].elements,
                ) by {
                    if roamed(t, n as int, q, key_at(keys@, idx as int), x) {
                        assert(holds_set(t, prev, t[x].elements));
                    } else {
                        assert(went);
                        assert(roamed(t, down, q, None, x));
                        assert(holds_set(t, sub_ids, t[x].elements));
                    }
                }
            }
            idx = idx + 1;
        }
        out
    }

    /// The partial matches of `query`, in the order of their sets, as the
    /// plain search from the root finds them: it goes down under every
    /// symbol of `query` and so comes to a node by more than one way. It
    /// finds the nodes that `partial_matches` finds.
    pub fn partial_matches_rv(&self, query: &OrderedSet) -> (found: Vec<&Mop<S>>)
        requires
            self.wf(),
        ensures
            exists|ids: Seq<usize>|
                gathers_roamed(self@, ids, 0, query@, None) && #[trigger] self.lists(found@, ids),
            in_set_order(found@),
            forall|i: int|
                0 <= i < found@.len() ==> matches_partly(self@, query@, (#[trigger] found@[i])@),
            forall|y: int|
                #![trigger self@[y]]
                is_partial_match(self@, query@, y) ==> lists_node(found@, self@[y]),
    {
        let ids = self.roam(0, query);
        let found = self.mops_of(&ids);
        proof {
            self.lemma_listed_in_order(found@, ids@);
            query.lemma_finite();
            assert forall|i: int| 0 <= i < found@.len() implies matches_partly(
                self@,
                query@,
                (#[trigger] found@[i])@,
            ) by {
                assert(ids@[i] < self@.len());
                lemma_roamed_are_partial(self@, query@, ids@[i] as int);
                assert(is_partial_match(self@, query@, ids@[i] as int));
                assert(found@[i]@ == self@[ids@[i] as int]);
            }
            assert forall|y: int|
                #![trigger self@[y]]
                is_partial_match(self@, query@, y) implies lists_node(found@, self@[y]) by {
                lemma_roamed_are_partial(self@, query@, y);
                assert(holds_set(self@, ids@, self@[y].elements));
                let i = choose|i: int|
                    0 <= i < ids@.len() && self@[#[trigger] ids@[i] as int].elements == self@[y].elements;
                assert(ids@[i] < self@.len());
                assert(ids@[i] == y);
                assert(found@[i]@ == self@[ids@[i] as int]);
            }
        }
        found
    }
}

/// The node `v` is a node of the tree that is a partial match of `q`.
pub open spec fn matches_partly(t: Seq<MopView>, q: Set<Symbol>, v: MopView) -> bool {
    exists|y: int| is_partial_match(t, q, y) && #[trigger] t[y] == v
}

/// The node `v` is one of those listed.
pub open spec fn lists_node<S: Strength>(found: Seq<&Mop<S>>, v: MopView) -> bool {
    exists|i: int| 0 <= i < found.len() && (#[trigger] found[i])@ == v
}

/// The nodes are listed in the order of their sets: each comes before
/// every later one, so no two have the same set.
pub open spec fn in_set_order<S: Strength>(found: Seq<&Mop<S>>) -> bool {
    forall|i: int, j: int|
        0 <= i < j < found.len() ==> set_before(found[i]@.elements, found[j]@.elements)
}

/// The enumerations that a memory of excerpts offers.
pub trait Public<S: Strength> {
    /// The nodes of the memory.
    spec fn nodes(&self) -> Seq<MopView>;

    /// `found` lists the nodes that the handles of `ids` name.
    spec fn names(&self, found: Seq<&Mop<S>>, ids: Seq<usize>) -> bool;

    /// The nodes form a tree.
    spec fn in_order(&self) -> bool;

    /// The traces that the walk from the root meets, one for each set, in
    /// the order of the sets.
    fn traces(&self) -> (found: Vec<&Mop<S>>)
        requires
            self.in_order(),
        ensures
            exists|ids: Seq<usize>|
                gathers_walk(self.nodes(), ids, 0, None, None, Kind::Trace) && #[trigger] self.names(
                    found@,
                    ids,
                ),
            in_set_order(found@),
            forall|i: int| 0 <= i < found@.len() ==> (#[trigger] found@[i])@.trace > 0,
            forall|x: int|
                0 <= x < self.nodes().len() && (#[trigger] self.nodes()[x]).trace > 0 ==> lists_node(
                    found@,
                    self.nodes()[x],
                ),
    ;

    /// The epitomes that the walk from the root meets, one for each set, in
    /// the order of the sets.
    fn epitomes(&self) -> (found: Vec<&Mop<S>>)
        requires
            self.in_order(),
        ensures
            exists|ids: Seq<usize>|
                gathers_walk(self.nodes(), ids, 0, None, None, Kind::Epitome)
                    && #[trigger] self.names(found@, ids),
            in_set_order(found@),
            forall|i: int|
                0 <= i < found@.len() ==> is_of_kind((#[trigger] found@[i])@, Kind::Epitome),
            forall|x: int|
                0 <= x < self.nodes().len() && is_of_kind(#[trigger] self.nodes()[x], Kind::Epitome)
                    ==> lists_node(found@, self.nodes()[x]),
    ;
}

impl<S: Strength> Public<S> for RedundantDiscriminationTree<S> {
    open spec fn nodes(&self) -> Seq<MopView> {
        self@
    }

    open spec fn names(&self, found: Seq<&Mop<S>>, ids: Seq<usize>) -> bool {
        self.lists(found, ids)
    }

    open spec fn in_order(&self) -> bool {
        self.wf()
    }

    fn traces(&self) -> (found: Vec<&Mop<S>>) {
        let ids = self.walk(0, None, Kind::Trace);
        let found = self.mops_of(&ids);
        proof {
            assert(self.names(found@, ids@));
            self.lemma_listed_in_order(found@, ids@);
            self.lemma_listed_all(found@, ids@, Kind::Trace);
        }
        found
    }

    fn epitomes(&self) -> (found: Vec<&Mop<S>>) {
        let ids = self.walk(0, None, Kind::Epitome);
        let found = self.mops_of(&ids);
        proof {
            assert(self.names(found@, ids@));
            self.lemma_listed_in_order(found@, ids@);
            self.lemma_listed_all(found@, ids@, Kind::Epitome);
        }
        found
    }
}

} // verus!
