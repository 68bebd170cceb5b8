use rdt::ordered_set::OrderedSet;
use rdt::strength::SimpleStrength;
use rdt::tree::RedundantDiscriminationTree;

const A: u64 = 1;
const B: u64 = 2;
const C: u64 = 3;
const D: u64 = 4;
const E: u64 = 5;
const X: u64 = 24;

type Tree = RedundantDiscriminationTree<SimpleStrength>;

fn set(symbols: &[u64]) -> OrderedSet {
    OrderedSet::from_slice(symbols)
}

fn matched(tree: &Tree, query: &[u64]) -> Option<Vec<u64>> {
    tree.complete_match(&set(query)).map(|mop| mop.elements().items().clone())
}

fn four_way() -> Tree {
    let mut tree = Tree::new();
    tree.include_excerpt(set(&[A, B, C, D]));
    tree.include_excerpt(set(&[A, B, C]));
    tree.include_excerpt(set(&[A, B, D]));
    tree.include_excerpt(set(&[A, D]));
    tree
}

fn disjoint_extension() -> Tree {
    let mut tree = four_way();
    tree.include_excerpt(set(&[E, B, D]));
    tree
}

#[test]
fn lib_it_works() {
    let mut rdt = RedundantDiscriminationTree::<SimpleStrength>::new();
    let excerpt: OrderedSet = vec![A, B, C, D].into();
    assert!(rdt.complete_match(&excerpt).is_none());
    rdt.include_excerpt(excerpt.clone());
    assert!(rdt.complete_match(&excerpt).is_some());
    rdt.include_experience(&[A, B, C]);
    assert!(rdt.complete_match(&vec![A, B, C].into()).is_some());
    rdt.include_experience(&[A, B, D]);
    assert!(rdt.complete_match(&vec![A, B, D].into()).is_some());
    rdt.include_experience(&[A, D]);
    assert!(rdt.complete_match(&vec![A, B, C].into()).is_some());
    assert!(rdt.complete_match(&vec![A, B, D].into()).is_some());
    assert!(rdt.complete_match(&vec![A, D].into()).is_some());
    assert!(rdt.complete_match(&vec![A, B].into()).is_some());
    assert!(rdt.complete_match(&vec![D, B].into()).is_some());

    assert_eq!(
        rdt.complete_match(&vec![A, B, C].into()).unwrap().elements(),
        &OrderedSet::from(vec![A, B, C])
    );
    assert_eq!(
        rdt.complete_match(&vec![A, B, D].into()).unwrap().elements(),
        &OrderedSet::from(vec![A, B, D])
    );
    assert_eq!(
        rdt.complete_match(&vec![A, D].into()).unwrap().elements(),
        &OrderedSet::from(vec![A, D])
    );
    assert_eq!(
        rdt.complete_match(&vec![A, B].into()).unwrap().elements(),
        &OrderedSet::from(vec![A, B])
    );
    assert_eq!(
        rdt.complete_match(&vec![D, B].into()).unwrap().elements(),
        &OrderedSet::from(vec![A, B, D])
    );
    assert_eq!(
        rdt.complete_match(&vec![D, B, A, C].into()).unwrap().elements(),
        &OrderedSet::from(vec![A, B, C, D])
    );

    assert_eq!(rdt.traces().len(), 4);
    assert_eq!(rdt.epitomes().len(), 6);

    rdt.include_experience(&vec![E, B, D]);
    assert!(rdt.complete_match(&vec![A, E].into()).is_none());
    assert!(rdt.complete_match(&vec![D, B, E].into()).unwrap().elements().len() == 3);
    assert_eq!(rdt.partial_matches(&vec![A, D, E].into()).len(), 2);

    assert_eq!(rdt.traces().len(), 5);
    assert_eq!(rdt.epitomes().len(), 9);
    rdt.decrement_strengths();
}

#[test]
fn four_way_matches_abc() {
    assert_eq!(matched(&four_way(), &[A, B, C]), Some(vec![A, B, C]));
}

#[test]
fn four_way_matches_abd() {
    assert_eq!(matched(&four_way(), &[A, B, D]), Some(vec![A, B, D]));
}

#[test]
fn four_way_matches_ad() {
    assert_eq!(matched(&four_way(), &[A, D]), Some(vec![A, D]));
}

#[test]
fn four_way_matches_ab_with_an_epitome() {
    let tree = four_way();
    let found = tree.complete_match(&set(&[A, B])).unwrap();
    assert_eq!(found.elements(), &set(&[A, B]));
    assert!(found.is_epitome());
    assert!(!found.is_trace());
}

#[test]
fn four_way_matches_db_with_the_smallest_superset_on_its_path() {
    assert_eq!(matched(&four_way(), &[D, B]), Some(vec![A, B, D]));
}

#[test]
fn four_way_matches_all_four_symbols_in_any_order() {
    assert_eq!(matched(&four_way(), &[D, B, A, C]), Some(vec![A, B, C, D]));
}

#[test]
fn four_way_has_four_traces_and_six_epitomes() {
    let tree = four_way();
    assert_eq!(tree.traces().len(), 4);
    assert_eq!(tree.epitomes().len(), 6);
    let mut sets: Vec<Vec<u64>> =
        tree.traces().iter().map(|mop| mop.elements().items().clone()).collect();
    sets.sort();
    assert_eq!(sets, vec![vec![A, B, C], vec![A, B, C, D], vec![A, B, D], vec![A, D]]);
    assert!(tree.traces().iter().all(|mop| mop.is_trace()));
    assert!(tree.epitomes().iter().all(|mop| mop.is_epitome()));
}

#[test]
fn disjoint_extension_has_no_match_for_ae() {
    assert_eq!(matched(&disjoint_extension(), &[A, E]), None);
}

#[test]
fn disjoint_extension_matches_dbe_with_three_symbols() {
    let tree = disjoint_extension();
    assert_eq!(tree.complete_match(&set(&[D, B, E])).unwrap().elements().len(), 3);
    assert_eq!(matched(&tree, &[D, B, E]), Some(vec![B, D, E]));
}

#[test]
fn disjoint_extension_has_two_partial_matches_for_ade() {
    let tree = disjoint_extension();
    let query = set(&[A, D, E]);
    let found = tree.partial_matches(&query);
    assert_eq!(found.len(), 2);
    for mop in found.iter() {
        assert!(!mop.elements().is_disjoint(&query));
    }
}

#[test]
fn disjoint_extension_has_five_traces_and_nine_epitomes() {
    let tree = disjoint_extension();
    assert_eq!(tree.traces().len(), 5);
    assert_eq!(tree.epitomes().len(), 9);
    assert_eq!(tree.node_count(), 11);
}

#[test]
fn decrement_lowers_every_strength_above_zero() {
    let mut tree = disjoint_extension();
    let before: Vec<(u64, u64)> = (0..tree.node_count())
        .map(|id| (tree.mop(id).trace_strength(), tree.mop(id).epitome_strength()))
        .collect();
    assert!(before.iter().any(|pair| pair.0 > 0));
    assert!(before.iter().any(|pair| pair.1 > 0));
    tree.decrement_strengths();
    assert_eq!(tree.node_count(), before.len());
    for id in 0..tree.node_count() {
        let (trace, epitome) = before[id];
        let mop = tree.mop(id);
        if trace > 0 {
            assert!(mop.trace_strength() < trace);
        } else {
            assert_eq!(mop.trace_strength(), 0);
        }
        if epitome > 0 {
            assert!(mop.epitome_strength() < epitome);
        } else {
            assert_eq!(mop.epitome_strength(), 0);
        }
    }
}

#[test]
fn decrement_takes_a_twentieth_from_a_fresh_trace() {
    let mut tree = Tree::new();
    tree.include_excerpt(set(&[A]));
    let trace = tree.complete_match(&set(&[A])).unwrap().trace_strength();
    assert_eq!(trace, 50_000_000);
    tree.decrement_strengths();
    assert_eq!(tree.complete_match(&set(&[A])).unwrap().trace_strength(), 47_500_000);
}

#[test]
fn fresh_tree_matches_the_empty_query_with_the_root() {
    let tree = Tree::new();
    let found = tree.complete_match(&OrderedSet::new()).unwrap();
    assert!(found.elements().is_empty());
    assert_eq!(tree.node_count(), 1);
}

#[test]
fn fresh_tree_has_no_partial_match_for_the_empty_query() {
    let tree = Tree::new();
    assert_eq!(tree.partial_matches(&OrderedSet::new()).len(), 0);
    assert_eq!(tree.traces().len(), 0);
    assert_eq!(tree.epitomes().len(), 0);
}

#[test]
fn singleton_is_found_and_is_the_one_trace() {
    let mut tree = Tree::new();
    tree.include_excerpt(set(&[X]));
    assert_eq!(matched(&tree, &[X]), Some(vec![X]));
    assert_eq!(tree.traces().len(), 1);
    assert_eq!(tree.epitomes().len(), 1);
    assert_eq!(tree.node_count(), 2);
}

#[test]
fn empty_excerpt_changes_only_the_strengths_of_the_root() {
    let mut tree = Tree::new();
    tree.include_excerpt(OrderedSet::new());
    assert_eq!(tree.node_count(), 1);
    let root = tree.mop(0);
    assert_eq!(root.trace_strength(), 50_000_000);
    assert_eq!(root.epitome_strength(), 0);
    assert!(root.is_trace());
    assert!(!root.is_epitome());
    assert_eq!(tree.traces().len(), 1);
}

fn edge_count(tree: &Tree) -> usize {
    (0..tree.node_count())
        .map(|id| tree.mop(id).real_edges().len() + tree.mop(id).virtual_edges().len())
        .sum()
}

#[test]
fn second_insert_of_an_excerpt_changes_no_node_and_no_edge() {
    let mut tree = Tree::new();
    tree.include_excerpt(set(&[A, B, C]));
    let traces = tree.traces().len();
    let epitomes = tree.epitomes().len();
    let nodes = tree.node_count();
    let edges = edge_count(&tree);
    let strength = tree.complete_match(&set(&[A, B, C])).unwrap().trace_strength();
    tree.include_excerpt(set(&[A, B, C]));
    assert_eq!(tree.traces().len(), traces);
    assert_eq!(tree.epitomes().len(), epitomes);
    assert_eq!(tree.node_count(), nodes);
    assert_eq!(edge_count(&tree), edges);
    assert_eq!(nodes, 2);
    assert_eq!(edges, 3);
    let again = tree.complete_match(&set(&[A, B, C])).unwrap().trace_strength();
    assert_eq!(strength, 50_000_000);
    assert_eq!(again, 97_500_000);
}

#[test]
fn order_of_inclusion_does_not_change_what_queries_return() {
    let mut first = Tree::new();
    first.include_excerpt(set(&[A, B]));
    first.include_excerpt(set(&[B, C]));
    first.include_excerpt(set(&[A, C]));
    let mut second = Tree::new();
    second.include_excerpt(set(&[A, C]));
    second.include_excerpt(set(&[B, C]));
    second.include_excerpt(set(&[A, B]));
    for mask in 0..8u64 {
        let mut query: Vec<u64> = Vec::new();
        for symbol in [A, B, C] {
            if mask & (1 << (symbol - 1)) != 0 {
                query.push(symbol);
            }
        }
        assert_eq!(matched(&first, &query), matched(&second, &query));
        let mut left: Vec<Vec<u64>> = first
            .partial_matches(&set(&query))
            .iter()
            .map(|mop| mop.elements().items().clone())
            .collect();
        let mut right: Vec<Vec<u64>> = second
            .partial_matches(&set(&query))
            .iter()
            .map(|mop| mop.elements().items().clone())
            .collect();
        left.sort();
        right.sort();
        assert_eq!(left, right);
    }
    assert_eq!(first.traces().len(), second.traces().len());
    assert_eq!(first.epitomes().len(), second.epitomes().len());
    assert_eq!(matched(&first, &[A, B]), Some(vec![A, B]));
    assert_eq!(matched(&first, &[A, B, C]), None);
}

#[test]
fn include_experience_takes_the_set_of_the_symbols() {
    let mut tree = Tree::new();
    tree.include_experience(&[C, A, C, B, A]);
    assert_eq!(matched(&tree, &[A, B, C]), Some(vec![A, B, C]));
    assert_eq!(tree.node_count(), 2);
}

#[test]
fn root_strengths_grow_by_one_step_for_each_excerpt() {
    let mut tree = Tree::new();
    tree.include_excerpt(set(&[A, B]));
    assert_eq!(tree.mop(0).epitome_strength(), 50_000_000);
    assert_eq!(tree.mop(0).trace_strength(), 0);
    tree.include_excerpt(set(&[C]));
    assert_eq!(tree.mop(0).epitome_strength(), 97_500_000);
    assert_eq!(tree.mop(0).trace_strength(), 0);
}

#[test]
fn split_puts_an_epitome_before_a_child_that_is_half_covered() {
    let mut tree = Tree::new();
    tree.include_excerpt(set(&[A, B, C, D]));
    tree.include_excerpt(set(&[A, B, C]));
    assert_eq!(tree.node_count(), 3);
    let root = tree.mop(0);
    assert_eq!(root.real_edges(), vec![(A, 2), (B, 2), (C, 2), (D, 1)]);
    assert_eq!(root.virtual_edges(), vec![]);
    let between = tree.mop(2);
    assert_eq!(between.elements(), &set(&[A, B, C]));
    assert_eq!(between.real_edges(), vec![]);
    assert_eq!(between.virtual_edges(), vec![(D, 1)]);
    assert!(between.is_trace());
    assert_eq!(between.epitome_strength(), 50_000_000);
}

#[test]
fn interpose_puts_an_epitome_before_a_child_that_holds_more() {
    let mut tree = Tree::new();
    tree.include_excerpt(set(&[A, B]));
    tree.include_excerpt(set(&[A, B, C]));
    tree.include_excerpt(set(&[A]));
    let root = tree.mop(0);
    let under_a = root.real_edges()[0].1;
    assert_eq!(tree.mop(under_a).elements(), &set(&[A]));
    assert!(tree.verify_tree());
    assert_eq!(matched(&tree, &[A]), Some(vec![A]));
    assert_eq!(matched(&tree, &[A, B]), Some(vec![A, B]));
    assert_eq!(matched(&tree, &[B]), Some(vec![A, B]));
}

#[test]
fn enumerations_come_in_the_order_of_the_sets() {
    let tree = disjoint_extension();
    let sets = |found: Vec<&rdt::mop::Mop<SimpleStrength>>| -> Vec<Vec<u64>> {
        found.iter().map(|mop| mop.elements().items().clone()).collect()
    };
    assert_eq!(
        sets(tree.traces()),
        vec![vec![A, B, C], vec![A, B, C, D], vec![A, B, D], vec![A, D], vec![B, D, E]]
    );
    assert_eq!(
        sets(tree.epitomes()),
        vec![
            vec![],
            vec![A],
            vec![A, B],
            vec![A, B, C],
            vec![A, B, D],
            vec![A, D],
            vec![B],
            vec![B, D],
            vec![D]
        ]
    );
    let found = sets(tree.partial_matches(&set(&[A, D, E])));
    let mut sorted = found.clone();
    sorted.sort();
    assert_eq!(found, sorted);
}

#[test]
fn strengths_grow_in_the_nodes_within_the_excerpt_and_nowhere_else() {
    let mut tree = four_way();
    let levels = |tree: &Tree| -> Vec<(Vec<u64>, u64, u64)> {
        (0..tree.node_count())
            .map(|id| {
                let mop = tree.mop(id);
                (mop.elements().items().clone(), mop.trace_strength(), mop.epitome_strength())
            })
            .collect()
    };
    let grow = |level: u64| level + (1_000_000_000 - level + 19) / 20;
    let before = levels(&tree);
    let excerpt = set(&[A, B, D]);
    tree.include_excerpt(excerpt.clone());
    let after = levels(&tree);
    assert_eq!(after.len(), before.len());
    for id in 0..before.len() {
        let (elements, trace, epitome) = before[id].clone();
        assert_eq!(after[id].0, elements);
        let set_of_node = set(&elements);
        if set_of_node == excerpt {
            assert_eq!(after[id].1, grow(trace));
            assert_eq!(after[id].2, epitome);
        } else if set_of_node.is_subset(&excerpt) {
            assert_eq!(after[id].1, trace);
            assert_eq!(after[id].2, grow(epitome));
        } else {
            assert_eq!(after[id].1, trace);
            assert_eq!(after[id].2, epitome);
        }
    }
}

#[test]
fn a_node_put_before_another_starts_with_its_undifferentiated_strength() {
    let mut tree = Tree::new();
    tree.include_excerpt(set(&[A, B, C, D]));
    tree.include_excerpt(set(&[A, B, C, D]));
    let grow = |level: u64| level + (1_000_000_000 - level + 19) / 20;
    let whole_trace = tree.complete_match_id(&set(&[A, B, C, D])).unwrap();
    let undif = grow(grow(0));
    assert_eq!(tree.mop(whole_trace).trace_strength(), undif);
    tree.include_excerpt(set(&[A, B, E]));
    let between = tree.complete_match(&set(&[A, B])).unwrap();
    assert_eq!(between.elements(), &set(&[A, B]));
    assert_eq!(between.trace_strength(), 0);
    assert_eq!(between.epitome_strength(), grow(undif));
    let fresh = tree.complete_match(&set(&[A, B, E])).unwrap();
    assert_eq!(fresh.trace_strength(), grow(0));
    assert_eq!(fresh.epitome_strength(), 0);
}

#[test]
fn yardstick_it_works() {
    let mut rdt = RedundantDiscriminationTree::<SimpleStrength>::new();
    let excerpt: OrderedSet = vec![A, B, C, D].into();
    println!("{:?}", rdt.complete_match(&excerpt));
    assert!(rdt.complete_match(&excerpt).is_none());
    rdt.include_excerpt(excerpt.clone());
    assert!(rdt.complete_match(&excerpt).is_some());
    rdt.include_experience(&[A, B, C]);
    rdt.include_experience(&[A, B, D]);
    rdt.include_experience(&[A, D]);
    assert!(rdt.complete_match(&vec![A, B, C].into()).is_some());
    assert!(rdt.complete_match(&vec![A, B, D].into()).is_some());
    assert!(rdt.complete_match(&vec![A, D].into()).is_some());
    assert!(rdt.complete_match(&vec![A, B].into()).is_some());
    assert!(rdt.complete_match(&vec![D, B].into()).is_some());

    assert_eq!(
        rdt.complete_match(&vec![A, B, C].into()).unwrap().elements(),
        &OrderedSet::from(vec![A, B, C])
    );
    assert_eq!(
        rdt.complete_match(&vec![A, B, D].into()).unwrap().elements(),
        &OrderedSet::from(vec![A, B, D])
    );
    assert_eq!(
        rdt.complete_match(&vec![A, D].into()).unwrap().elements(),
        &OrderedSet::from(vec![A, D])
    );
    assert_eq!(
        rdt.complete_match(&vec![A, B].into()).unwrap().elements(),
        &OrderedSet::from(vec![A, B])
    );
    assert_eq!(
        rdt.complete_match(&vec![D, B].into()).unwrap().elements(),
        &OrderedSet::from(vec![A, B, D])
    );
    assert_eq!(
        rdt.complete_match(&vec![D, B, A, C].into()).unwrap().elements(),
        &OrderedSet::from(vec![A, B, C, D])
    );

    assert_eq!(rdt.traces().len(), 4);
    assert_eq!(rdt.epitomes().len(), 6);

    rdt.include_experience(&vec![E, B, D]);
    assert!(rdt.complete_match(&vec![A, E].into()).is_none());
    assert!(
        rdt.complete_match(&vec![D, B, E].into())
            .unwrap()
            .elements()
            .len()
            == 3
    );
    assert_eq!(rdt.partial_matches_rv(&vec![A, D, E].into()).len(), 2);
    assert_eq!(rdt.partial_matches(&vec![A, D, E].into()).len(), 2);

    assert_eq!(rdt.traces().len(), 5);
    assert_eq!(rdt.epitomes().len(), 9);
    rdt.decrement_strengths();
}
