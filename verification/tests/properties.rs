use rdt::ordered_set::OrderedSet;
use rdt::strength::SimpleStrength;
use rdt::tree::RedundantDiscriminationTree;

type Tree = RedundantDiscriminationTree<SimpleStrength>;

struct Lcg(u64);

impl Lcg {
    fn next(&mut self) -> u64 {
        self.0 = self.0.wrapping_mul(6364136223846793005).wrapping_add(1442695040888963407);
        self.0 >> 33
    }

    fn excerpt(&mut self, universe: u64) -> Vec<u64> {
        let mut symbols = Vec::new();
        for symbol in 1..=universe {
            if self.next() % 2 == 0 {
                symbols.push(symbol);
            }
        }
        symbols
    }
}

fn shape(tree: &Tree) -> Vec<(Vec<u64>, Vec<(u64, usize)>, Vec<(u64, usize)>)> {
    (0..tree.node_count())
        .map(|id| {
            let mop = tree.mop(id);
            (mop.elements().items().clone(), mop.real_edges(), mop.virtual_edges())
        })
        .collect()
}

fn subsets(universe: u64) -> Vec<Vec<u64>> {
    (0..(1u64 << universe))
        .map(|mask| (1..=universe).filter(|s| mask & (1 << (s - 1)) != 0).collect())
        .collect()
}

fn grown(seed: u64) -> (Tree, Vec<Vec<u64>>, u64) {
    let mut rng = Lcg(seed * 7919 + 13);
    let universe = 3 + seed % 5;
    let count = 2 + rng.next() % 7;
    let mut tree = Tree::new();
    let mut seen = Vec::new();
    for _ in 0..count {
        let excerpt = rng.excerpt(universe);
        tree.include_experience(&excerpt);
        seen.push(excerpt);
    }
    (tree, seen, universe)
}

#[test]
fn keys_stay_apart_and_edges_enlarge_the_set() {
    for seed in 0..200 {
        let (tree, _, _) = grown(seed);
        assert!(tree.verify_tree());
        for id in 0..tree.node_count() {
            assert!(tree.verify_mop(id));
            let mop = tree.mop(id);
            let mut edges = mop.real_edges();
            edges.extend(mop.virtual_edges());
            for (key, child) in edges {
                let child = tree.mop(child);
                assert!(mop.elements().is_subset(child.elements()));
                assert_ne!(mop.elements(), child.elements());
                assert!(child.elements().contains(key));
                assert!(!mop.elements().contains(key));
            }
            for (key, _) in mop.real_edges() {
                assert!(mop.virtual_edges().iter().all(|edge| edge.0 != key));
            }
        }
    }
}

#[test]
fn every_excerpt_taken_in_is_matched_by_a_trace_of_its_own() {
    for seed in 0..200 {
        let mut rng = Lcg(seed * 31 + 5);
        let universe = 3 + seed % 5;
        let mut tree = Tree::new();
        let mut seen: Vec<Vec<u64>> = Vec::new();
        for _ in 0..6 {
            let excerpt = rng.excerpt(universe);
            tree.include_experience(&excerpt);
            seen.push(excerpt);
            assert!(tree.is_recursive_compatible_with(0, &OrderedSet::from_slice(seen.last().unwrap())));
            for old in seen.iter() {
                let query = OrderedSet::from_slice(old);
                let found = tree.complete_match(&query).unwrap();
                assert_eq!(found.elements(), &query);
                assert!(found.is_trace());
                assert!(tree.traces().iter().any(|mop| mop.elements() == &query));
            }
        }
    }
}

#[test]
fn a_match_holds_the_query_and_is_absent_only_if_no_node_holds_it() {
    for seed in 0..120 {
        let (tree, _, universe) = grown(seed);
        for query in subsets(universe) {
            let set = OrderedSet::from_slice(&query);
            match tree.complete_match(&set) {
                Some(found) => assert!(found.elements().is_superset(&set)),
                None => {
                    for id in 0..tree.node_count() {
                        assert!(!tree.mop(id).elements().is_superset(&set));
                    }
                },
            }
            assert_eq!(tree.complete_match(&set).map(|m| m.elements().clone()),
                tree.complete_match_id(&set).map(|id| tree.mop(id).elements().clone()));
        }
    }
}

#[test]
fn including_an_excerpt_again_keeps_the_shape() {
    for seed in 0..200 {
        let (mut tree, seen, _) = grown(seed);
        let last = seen.last().unwrap().clone();
        let before = shape(&tree);
        let strengths: Vec<u64> = (0..tree.node_count()).map(|id| tree.mop(id).trace_strength()).collect();
        tree.include_experience(&last);
        assert_eq!(shape(&tree), before);
        for id in 0..tree.node_count() {
            assert!(tree.mop(id).trace_strength() >= strengths[id]);
        }
        let query = OrderedSet::from_slice(&last);
        let trace = tree.complete_match_id(&query).unwrap();
        assert!(tree.mop(trace).trace_strength() > strengths[trace]);
    }
}

#[test]
fn including_an_excerpt_loses_no_node_no_set_and_no_real_key() {
    for seed in 0..200 {
        let (mut tree, _, universe) = grown(seed);
        let before = shape(&tree);
        let mut rng = Lcg(seed + 1000);
        tree.include_experience(&rng.excerpt(universe));
        let after = shape(&tree);
        assert!(after.len() >= before.len());
        for id in 0..before.len() {
            assert_eq!(after[id].0, before[id].0);
            for (key, _) in before[id].1.iter() {
                assert!(after[id].1.iter().any(|edge| edge.0 == *key));
            }
            for (key, _) in before[id].2.iter() {
                assert!(after[id].1.iter().chain(after[id].2.iter()).any(|edge| edge.0 == *key));
            }
        }
    }
}

#[test]
fn no_two_nodes_have_the_same_set() {
    for seed in 0..200 {
        let (tree, _, _) = grown(seed);
        let sets = shape(&tree);
        for i in 0..sets.len() {
            for j in 0..i {
                assert_ne!(sets[i].0, sets[j].0);
            }
        }
        assert_eq!(tree.traces().len() + 0, tree.traces().iter().map(|m| m.elements().items().clone()).collect::<std::collections::BTreeSet<_>>().len());
    }
}

#[test]
fn enumerations_list_every_node_of_their_kind_once() {
    for seed in 0..200 {
        let (tree, seen, _) = grown(seed);
        let traces = (0..tree.node_count()).filter(|id| tree.mop(*id).is_trace()).count();
        let epitomes = (0..tree.node_count()).filter(|id| tree.mop(*id).is_epitome()).count();
        assert_eq!(tree.traces().len(), traces);
        assert_eq!(tree.epitomes().len(), epitomes);
        let mut distinct = seen.clone();
        distinct.sort();
        distinct.dedup();
        assert_eq!(traces, distinct.len());
    }
}

#[test]
fn partial_matches_share_a_symbol_with_the_query() {
    for seed in 0..120 {
        let (tree, _, universe) = grown(seed);
        for query in subsets(universe) {
            let set = OrderedSet::from_slice(&query);
            let found = tree.partial_matches(&set);
            for mop in found.iter() {
                assert!(!mop.elements().is_disjoint(&set));
            }
            for i in 0..found.len() {
                for j in 0..i {
                    assert_ne!(found[i].elements(), found[j].elements());
                }
            }
            if query.is_empty() {
                assert_eq!(found.len(), 0);
            }
        }
    }
}

#[test]
fn decay_changes_strengths_only() {
    for seed in 0..100 {
        let (mut tree, _, _) = grown(seed);
        let before = shape(&tree);
        let levels: Vec<(u64, u64)> = (0..tree.node_count())
            .map(|id| (tree.mop(id).trace_strength(), tree.mop(id).epitome_strength()))
            .collect();
        tree.decrement_strengths();
        assert_eq!(shape(&tree), before);
        for id in 0..tree.node_count() {
            let mop = tree.mop(id);
            assert_eq!(mop.trace_strength(), levels[id].0 * 19 / 20);
            assert_eq!(mop.epitome_strength(), levels[id].1 * 19 / 20);
        }
        assert!(tree.verify_tree());
    }
}

#[test]
fn node_sets_after_an_inclusion_are_the_old_ones_the_excerpt_and_what_they_share() {
    for seed in 0..150 {
        let (mut tree, _, universe) = grown(seed);
        let before: Vec<Vec<u64>> = shape(&tree).into_iter().map(|node| node.0).collect();
        let mut rng = Lcg(seed + 4000);
        let excerpt = rng.excerpt(universe);
        tree.include_experience(&excerpt);
        let mut expected: Vec<Vec<u64>> = before.clone();
        expected.push(excerpt.clone());
        for set in before.iter() {
            expected.push(set.iter().copied().filter(|s| excerpt.contains(s)).collect());
        }
        expected.sort();
        expected.dedup();
        let mut after: Vec<Vec<u64>> = shape(&tree).into_iter().map(|node| node.0).collect();
        after.sort();
        assert_eq!(after, expected);
    }
}

#[test]
fn a_child_has_the_least_set_that_holds_the_node_and_the_key() {
    for seed in 0..100 {
        let (tree, _, universe) = grown(seed);
        let sets: Vec<OrderedSet> =
            (0..tree.node_count()).map(|id| tree.mop(id).elements().clone()).collect();
        for id in 0..tree.node_count() {
            let mop = tree.mop(id);
            let mut edges = mop.real_edges();
            edges.extend(mop.virtual_edges());
            for key in 1..=universe {
                let holders: Vec<&OrderedSet> = sets
                    .iter()
                    .filter(|set| mop.elements().is_subset(set) && set.contains(key))
                    .collect();
                let edge = edges.iter().find(|edge| edge.0 == key);
                if mop.elements().contains(key) || holders.is_empty() {
                    assert!(edge.is_none());
                } else {
                    let child = tree.mop(edge.unwrap().1).elements();
                    assert!(child.contains(key));
                    for holder in holders {
                        assert!(child.is_subset(holder));
                    }
                }
            }
        }
    }
}

#[test]
fn every_node_has_one_real_parent_and_is_reached_from_the_root() {
    for seed in 0..150 {
        let (tree, _, _) = grown(seed);
        let mut parents = vec![0usize; tree.node_count()];
        for id in 0..tree.node_count() {
            let mut children: Vec<usize> = tree.mop(id).real_edges().iter().map(|e| e.1).collect();
            children.sort();
            children.dedup();
            for child in children {
                parents[child] += 1;
            }
        }
        assert_eq!(parents[0], 0);
        for id in 1..tree.node_count() {
            assert_eq!(parents[id], 1);
        }
    }
}

#[test]
fn a_trace_that_has_decayed_to_nothing_is_still_matched() {
    let mut tree = Tree::new();
    tree.include_experience(&[7]);
    let query = OrderedSet::from_slice(&[7]);
    assert!(tree.complete_match(&query).unwrap().is_trace());
    for _ in 0..400 {
        tree.decrement_strengths();
    }
    let found = tree.complete_match(&query).unwrap();
    assert_eq!(found.elements(), &query);
    assert_eq!(found.trace_strength(), 0);
    assert!(!found.is_trace());
    assert_eq!(tree.traces().len(), 0);
    assert_eq!(tree.epitomes().len(), 1);
}

#[test]
fn a_complete_match_is_the_node_with_the_least_set_that_holds_the_query() {
    for seed in 0..100 {
        let (tree, _, universe) = grown(seed);
        for query in subsets(universe) {
            let set = OrderedSet::from_slice(&query);
            let holders: Vec<usize> = (0..tree.node_count())
                .filter(|id| tree.mop(*id).elements().is_superset(&set))
                .collect();
            match tree.complete_match_id(&set) {
                Some(found) => {
                    assert!(holders.contains(&found));
                    for id in holders {
                        assert!(tree.mop(found).elements().is_subset(tree.mop(id).elements()));
                    }
                },
                None => assert!(holders.is_empty()),
            }
        }
    }
}

#[test]
fn partial_matches_are_the_least_nodes_for_their_part_of_the_query_without_a_key_in_it() {
    for seed in 0..100 {
        let (tree, _, universe) = grown(seed);
        for query in subsets(universe) {
            let set = OrderedSet::from_slice(&query);
            let mut expected: Vec<Vec<u64>> = Vec::new();
            for id in 0..tree.node_count() {
                let mop = tree.mop(id);
                let part = mop.elements().intersection(&set);
                let mut keys: Vec<u64> = mop.real_edges().iter().map(|edge| edge.0).collect();
                keys.extend(mop.virtual_edges().iter().map(|edge| edge.0));
                if !part.is_empty()
                    && keys.iter().all(|key| !set.contains(*key))
                    && tree.complete_match_id(&part) == Some(id)
                {
                    expected.push(mop.elements().items().clone());
                }
            }
            expected.sort();
            let found: Vec<Vec<u64>> = tree
                .partial_matches(&set)
                .iter()
                .map(|mop| mop.elements().items().clone())
                .collect();
            assert_eq!(found, expected);
        }
    }
}

#[test]
fn the_plain_search_finds_the_same_partial_matches() {
    for seed in 0..120 {
        let (tree, _, universe) = grown(seed);
        for query in subsets(universe) {
            let set = OrderedSet::from_slice(&query);
            let quick: Vec<Vec<u64>> = tree
                .partial_matches(&set)
                .iter()
                .map(|mop| mop.elements().items().clone())
                .collect();
            let plain: Vec<Vec<u64>> = tree
                .partial_matches_rv(&set)
                .iter()
                .map(|mop| mop.elements().items().clone())
                .collect();
            assert_eq!(quick, plain);
        }
    }
}

#[test]
fn a_first_excerpt_hangs_under_real_keys_of_the_root() {
    let mut tree = Tree::new();
    tree.include_experience(&[1, 2, 3]);
    for _ in 0..2 {
        assert_eq!(tree.node_count(), 2);
        assert_eq!(tree.mop(0).real_edges(), vec![(1, 1), (2, 1), (3, 1)]);
        assert_eq!(tree.mop(0).virtual_edges(), vec![]);
        assert_eq!(tree.mop(1).elements().items(), &vec![1, 2, 3]);
        assert_eq!(tree.mop(1).real_edges(), vec![]);
        assert_eq!(tree.mop(1).virtual_edges(), vec![]);
        assert_eq!(tree.traces().len(), 1);
        assert_eq!(tree.epitomes().len(), 1);
        tree.include_excerpt(OrderedSet::from_slice(&[1, 2, 3]));
    }
}

#[test]
fn the_order_and_the_repeats_of_an_experience_make_no_difference() {
    for seed in 0..120 {
        let mut rng = Lcg(seed * 104729 + 7);
        let universe = 3 + seed % 5;
        let count = 2 + rng.next() % 6;
        let mut by_set = Tree::new();
        let mut by_slice = Tree::new();
        for _ in 0..count {
            let excerpt = rng.excerpt(universe);
            let mut shuffled: Vec<u64> = excerpt.iter().rev().cloned().collect();
            shuffled.extend(excerpt.iter().cloned());
            by_set.include_excerpt(OrderedSet::from_slice(&excerpt));
            by_slice.include_experience(&shuffled);
            assert_eq!(shape(&by_set), shape(&by_slice));
            for id in 0..by_set.node_count() {
                assert_eq!(by_set.mop(id).trace_strength(), by_slice.mop(id).trace_strength());
                assert_eq!(by_set.mop(id).epitome_strength(), by_slice.mop(id).epitome_strength());
            }
        }
    }
}

#[test]
fn a_new_trace_is_the_real_child_of_one_node_and_a_virtual_child_of_others() {
    let mut met = 0;
    for seed in 0..200 {
        let (mut tree, _, universe) = grown(seed);
        let mut rng = Lcg(seed * 31 + 5);
        let excerpt = rng.excerpt(universe);
        let set = OrderedSet::from_slice(&excerpt);
        let held = tree.complete_match(&set).is_some();
        let before = tree.node_count();
        tree.include_excerpt(set.clone());
        if held || excerpt.is_empty() {
            continue;
        }
        met += 1;
        let trace = (before..tree.node_count())
            .find(|id| tree.mop(*id).elements() == &set)
            .unwrap();
        let mut real_parents = 0;
        for id in 0..tree.node_count() {
            let real = tree.mop(id).real_edges().iter().any(|(_, c)| *c == trace);
            let virt = tree.mop(id).virtual_edges().iter().any(|(_, c)| *c == trace);
            assert!(!(real && virt));
            if real {
                real_parents += 1;
            }
        }
        assert_eq!(real_parents, 1);
        assert_eq!(tree.mop(trace).epitome_strength(), 0);
        assert_eq!(tree.mop(trace).trace_strength(), 50_000_000);
    }
    assert!(met > 20);
}

#[test]
fn edges_under_symbols_outside_the_excerpt_are_kept() {
    for seed in 0..200 {
        let (mut tree, _, universe) = grown(seed);
        let mut rng = Lcg(seed * 17 + 3);
        let excerpt = rng.excerpt(universe);
        let before = shape(&tree);
        tree.include_experience(&excerpt);
        let after = shape(&tree);
        for id in 0..before.len() {
            for edge in before[id].1.iter().filter(|(k, _)| !excerpt.contains(k)) {
                assert!(after[id].1.contains(edge));
            }
            for edge in before[id].2.iter().filter(|(k, _)| !excerpt.contains(k)) {
                assert!(after[id].2.contains(edge));
            }
        }
    }
}

#[test]
fn a_new_node_stands_before_the_node_that_matched_its_set() {
    let mut met = 0;
    for seed in 0..200 {
        let (old, seen, universe) = grown(seed);
        let mut tree = Tree::new();
        for excerpt in seen.iter() {
            tree.include_experience(excerpt);
        }
        let mut rng = Lcg(seed * 97 + 11);
        let excerpt = rng.excerpt(universe);
        let set = OrderedSet::from_slice(&excerpt);
        tree.include_excerpt(set.clone());
        for id in old.node_count()..tree.node_count() {
            let own = tree.mop(id).elements();
            match old.complete_match(own) {
                None => {
                    assert_eq!(own, &set);
                    assert_eq!(tree.mop(id).epitome_strength(), 0);
                },
                Some(source) => {
                    met += 1;
                    assert!(!source.elements().is_subset(&set));
                    assert_eq!(own, &source.elements().intersection(&set));
                    assert_eq!(
                        tree.mop(id).trace_strength(),
                        if own == &set { 50_000_000 } else { 0 }
                    );
                },
            }
        }
    }
    assert!(met > 20);
}
