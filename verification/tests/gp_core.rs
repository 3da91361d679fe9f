use gp_core::crossover::{one_point_at, one_point_leaf_biased_at, Crossover};
use gp_core::gen::{GenConfig, GpError, TreeGen};
use gp_core::individual::Individual;
use gp_core::tree::{first_leaf, Node};
use rand::rngs::SmallRng;
use rand::SeedableRng;

#[test]
fn it_works() {}

fn node_eq(a: &Node, b: &Node) -> bool {
    if a.symbol != b.symbol || a.children.len() != b.children.len() {
        return false;
    }
    for (ca, cb) in a.children.iter().zip(b.children.iter()) {
        if !node_eq(ca, cb) {
            return false;
        }
    }
    true
}

fn leaf_depths(n: &Node, d: usize, out: &mut Vec<usize>) {
    if n.children.is_empty() {
        out.push(d);
    } else {
        for c in &n.children {
            leaf_depths(c, d + 1, out);
        }
    }
}

/// The three-node tree A(B, C) with symbols 1(2, 3).
fn small_pair_tree() -> Node {
    Node::branch(1, vec![Node::leaf(2), Node::leaf(3)])
}

/// The five-node tree A(B(D, E), C) with symbols 1(2(4, 5), 3).
fn nested_tree() -> Node {
    Node::branch(
        1,
        vec![Node::branch(2, vec![Node::leaf(4), Node::leaf(5)]), Node::leaf(3)],
    )
}

#[test]
fn count_nodes_counts_depth_first() {
    assert_eq!(Node::leaf(7).count_nodes(), 1);
    assert_eq!(small_pair_tree().count_nodes(), 3);
    assert_eq!(nested_tree().count_nodes(), 5);
    assert_eq!(nested_tree().count_children(), 2);
}

#[test]
fn nodes_count_cached_on_construction() {
    let indv = Individual::new_from_tree(nested_tree());
    assert_eq!(indv.nodes_count(), 5);
    let indv = Individual::new_from_tree(Node::leaf(0));
    assert_eq!(indv.nodes_count(), 1);
}

#[test]
fn recalculate_metadata_after_direct_mutation() {
    let mut indv = Individual::new_from_tree(Node::leaf(0));
    assert_eq!(indv.nodes_count(), 1);
    indv.tree = nested_tree();
    indv.recalculate_metadata();
    assert_eq!(indv.nodes_count(), 5);
}

#[test]
fn first_leaf_descends_first_children() {
    let t = nested_tree();
    let lf = first_leaf(&t);
    assert_eq!(lf.symbol, 4);
    assert!(lf.children.is_empty());
    let single = Node::leaf(9);
    assert_eq!(first_leaf(&single).symbol, 9);
}

#[test]
fn one_point_swap_scenario() {
    // A(B, C) crossed with the single leaf X at i1 = 1 (node B), i2 = 0.
    let mut indv1 = Individual::new_from_tree(small_pair_tree());
    let mut indv2 = Individual::new_from_tree(Node::leaf(9));
    one_point_at(&mut indv1, &mut indv2, 1, 0);
    // Individual 1 is A(X, C).
    assert_eq!(indv1.tree.symbol, 1);
    assert_eq!(indv1.tree.children.len(), 2);
    assert_eq!(indv1.tree.children[0].symbol, 9);
    assert!(indv1.tree.children[0].children.is_empty());
    assert_eq!(indv1.tree.children[1].symbol, 3);
    // Individual 2 is B.
    assert_eq!(indv2.tree.symbol, 2);
    assert!(indv2.tree.children.is_empty());
    assert_eq!(indv1.nodes_count(), 3);
    assert_eq!(indv2.nodes_count(), 1);
}

#[test]
fn one_point_swap_moves_whole_subtrees() {
    // Swap the B(D, E) subtree (i1 = 1) with the leaf X (i2 = 0).
    let mut indv1 = Individual::new_from_tree(nested_tree());
    let mut indv2 = Individual::new_from_tree(Node::leaf(9));
    one_point_at(&mut indv1, &mut indv2, 1, 0);
    assert_eq!(indv1.nodes_count(), 3);
    assert_eq!(indv2.nodes_count(), 3);
    assert!(node_eq(
        &indv1.tree,
        &Node::branch(1, vec![Node::leaf(9), Node::leaf(3)])
    ));
    assert!(node_eq(
        &indv2.tree,
        &Node::branch(2, vec![Node::leaf(4), Node::leaf(5)])
    ));
}

#[test]
fn prune_scenario() {
    // prune_at(1) on A(B(D, E), C) replaces B by D, yielding A(D, C).
    let mut indv = Individual::new_from_tree(nested_tree());
    indv.prune_at(1);
    assert_eq!(indv.tree.symbol, 1);
    assert_eq!(indv.tree.children.len(), 2);
    assert_eq!(indv.tree.children[0].symbol, 4);
    assert!(indv.tree.children[0].children.is_empty());
    assert_eq!(indv.tree.children[1].symbol, 3);
    assert!(indv.tree.children[1].children.is_empty());
    assert_eq!(indv.nodes_count(), 3);
}

#[test]
fn prune_is_idempotent() {
    let mut once = Individual::new_from_tree(nested_tree());
    once.prune_at(1);
    let mut twice = Individual::new_from_tree(nested_tree());
    twice.prune_at(1);
    twice.prune_at(1);
    assert!(node_eq(&once.tree, &twice.tree));
    assert_eq!(once.nodes_count(), twice.nodes_count());
}

#[test]
fn prune_caps_leaf_depth() {
    let mut indv = Individual::new_from_tree(nested_tree());
    indv.prune_at(1);
    let mut depths = Vec::new();
    leaf_depths(&indv.tree, 0, &mut depths);
    assert!(depths.iter().all(|&d| d <= 1));
    // Pruning at the root turns the whole tree into its first leaf.
    let mut root_only = Individual::new_from_tree(nested_tree());
    root_only.prune_at(0);
    assert_eq!(root_only.tree.symbol, 4);
    assert!(root_only.tree.children.is_empty());
    assert_eq!(root_only.nodes_count(), 1);
}

#[test]
fn perfect_mode_rejects_inverted_range() {
    let rng = SmallRng::seed_from_u64(1);
    assert_eq!(TreeGen::perfect(rng, 3, 1).err(), Some(GpError::InvalidDepthRange));
    let rng = SmallRng::seed_from_u64(1);
    assert_eq!(TreeGen::full(rng, 3, 1).err(), Some(GpError::InvalidDepthRange));
    let rng = SmallRng::seed_from_u64(1);
    assert_eq!(TreeGen::full_ranged(rng, 3, 1).err(), Some(GpError::InvalidDepthRange));
    let rng = SmallRng::seed_from_u64(1);
    assert_eq!(TreeGen::half_and_half(rng, 3, 1).err(), Some(GpError::InvalidDepthRange));
}

#[test]
fn perfect_mode_leaves_all_at_one_depth() {
    let cfg = GenConfig { arity: 2, symbol_kinds: 5 };
    for seed in 0..8u64 {
        let rng = SmallRng::seed_from_u64(seed);
        let mut tg = TreeGen::perfect(rng, 1, 3).unwrap();
        let indv = Individual::new(&mut tg, &cfg);
        let mut depths = Vec::new();
        leaf_depths(&indv.tree, 0, &mut depths);
        let d = depths[0];
        assert!(depths.iter().all(|&x| x == d));
        assert!((1..=3).contains(&d));
        assert_eq!(indv.nodes_count(), indv.tree.count_nodes());
    }
}

#[test]
fn perfect_mode_pinned_depth() {
    // With min == max == 2 the chosen depth can only be 2.
    let rng = SmallRng::seed_from_u64(7);
    let mut tg = TreeGen::perfect(rng, 2, 2).unwrap();
    assert!(!tg.have_reached_a_leaf(0));
    assert!(!tg.have_reached_a_leaf(1));
    assert!(tg.have_reached_a_leaf(2));
    let cfg = GenConfig { arity: 3, symbol_kinds: 2 };
    let indv = Individual::new(&mut tg, &cfg);
    let mut depths = Vec::new();
    leaf_depths(&indv.tree, 0, &mut depths);
    assert!(depths.iter().all(|&d| d == 2));
    assert_eq!(indv.nodes_count(), 13);
}

#[test]
fn full_modes_respect_depth_cap() {
    let cfg = GenConfig { arity: 2, symbol_kinds: 5 };
    for seed in 0..8u64 {
        let rng = SmallRng::seed_from_u64(seed);
        let mut tg = TreeGen::full(rng, 1, 3).unwrap();
        let indv = Individual::new(&mut tg, &cfg);
        let mut depths = Vec::new();
        leaf_depths(&indv.tree, 0, &mut depths);
        assert!(depths.iter().all(|&d| d <= 3));
        assert!(depths.iter().all(|&d| d >= 1));
        assert_eq!(indv.nodes_count(), indv.tree.count_nodes());

        let rng = SmallRng::seed_from_u64(seed);
        let mut tg = TreeGen::half_and_half(rng, 1, 3).unwrap();
        let indv = Individual::new(&mut tg, &cfg);
        let mut depths = Vec::new();
        leaf_depths(&indv.tree, 0, &mut depths);
        assert!(depths.iter().all(|&d| d <= 3));
    }
}

#[test]
fn full_mode_degenerate_interval_forces_leaf() {
    let rng = SmallRng::seed_from_u64(3);
    let mut tg = TreeGen::full(rng, 2, 2).unwrap();
    assert!(tg.have_reached_a_leaf(2));
    assert!(!tg.have_reached_a_leaf(1));
}

#[test]
fn tree_gen_passes_randomness_through() {
    let rng = SmallRng::seed_from_u64(11);
    let mut tg = TreeGen::full(rng, 0, 4).unwrap();
    for _ in 0..100 {
        assert!(tg.random_below(7) < 7);
    }
}

#[test]
fn mate_one_point_preserves_total_node_count() {
    let mut rng = SmallRng::seed_from_u64(5);
    let op = Crossover::one_point();
    for seed in 0..10u64 {
        let gen_rng = SmallRng::seed_from_u64(seed);
        let mut tg = TreeGen::half_and_half(gen_rng, 1, 4).unwrap();
        let cfg = GenConfig { arity: 2, symbol_kinds: 9 };
        let mut indv1 = Individual::new(&mut tg, &cfg);
        let mut indv2 = Individual::new(&mut tg, &cfg);
        let before = indv1.nodes_count() + indv2.nodes_count();
        op.mate(&mut indv1, &mut indv2, &mut rng);
        assert_eq!(indv1.nodes_count() + indv2.nodes_count(), before);
        assert_eq!(indv1.nodes_count(), indv1.tree.count_nodes());
        assert_eq!(indv2.nodes_count(), indv2.tree.count_nodes());
    }
}

#[test]
fn hard_prune_leaves_second_as_one_point_would() {
    let cfg = GenConfig { arity: 2, symbol_kinds: 9 };
    for seed in 0..10u64 {
        let make = |s: u64| {
            let gen_rng = SmallRng::seed_from_u64(s);
            let mut tg = TreeGen::half_and_half(gen_rng, 1, 4).unwrap();
            let a = Individual::new(&mut tg, &cfg);
            let b = Individual::new(&mut tg, &cfg);
            (a, b)
        };
        let (mut a1, mut a2) = make(seed);
        let (mut b1, mut b2) = make(seed);
        let mut rng_a = SmallRng::seed_from_u64(1000 + seed);
        let mut rng_b = SmallRng::seed_from_u64(1000 + seed);
        Crossover::one_point().mate(&mut a1, &mut a2, &mut rng_a);
        Crossover::hard_prune(2).mate(&mut b1, &mut b2, &mut rng_b);
        // Individual 2 is untouched by the pruning.
        assert!(node_eq(&a2.tree, &b2.tree));
        // Individual 1 is capped at depth 2.
        let mut depths = Vec::new();
        leaf_depths(&b1.tree, 0, &mut depths);
        assert!(depths.iter().all(|&d| d <= 2));
        assert_eq!(b1.nodes_count(), b1.tree.count_nodes());
    }
}

#[test]
fn leaf_biased_walk_finds_matching_leaf() {
    // Tree 2 is A(B, C); coin says leaf. The root misses and lowers the
    // soft target from 1 to 0, so leaf B (match counter 0) is selected.
    let mut indv1 = Individual::new_from_tree(Node::leaf(9));
    let mut indv2 = Individual::new_from_tree(small_pair_tree());
    one_point_leaf_biased_at(&mut indv1, &mut indv2, true, 0, 1);
    assert_eq!(indv1.tree.symbol, 2);
    assert!(node_eq(
        &indv2.tree,
        &Node::branch(1, vec![Node::leaf(9), Node::leaf(3)])
    ));
    assert_eq!(indv1.nodes_count(), 1);
    assert_eq!(indv2.nodes_count(), 3);
}

#[test]
fn leaf_biased_walk_may_run_out() {
    // Tree 2 is A(B, C); coin says leaf, target 0. The root misses and
    // drives the target below zero, so no node ever matches and the
    // individuals stay as they were.
    let mut indv1 = Individual::new_from_tree(Node::leaf(9));
    let mut indv2 = Individual::new_from_tree(small_pair_tree());
    one_point_leaf_biased_at(&mut indv1, &mut indv2, true, 0, 0);
    assert_eq!(indv1.tree.symbol, 9);
    assert!(node_eq(&indv2.tree, &small_pair_tree()));
    assert_eq!(indv1.nodes_count(), 1);
    assert_eq!(indv2.nodes_count(), 3);
}

#[test]
fn leaf_biased_internal_coin_picks_root() {
    // Coin says internal, target 0: the root A matches immediately.
    let mut indv1 = Individual::new_from_tree(Node::leaf(9));
    let mut indv2 = Individual::new_from_tree(small_pair_tree());
    one_point_leaf_biased_at(&mut indv1, &mut indv2, false, 0, 0);
    assert!(node_eq(&indv1.tree, &small_pair_tree()));
    assert_eq!(indv2.tree.symbol, 9);
    assert_eq!(indv1.nodes_count(), 3);
    assert_eq!(indv2.nodes_count(), 1);
}

#[test]
fn mate_leaf_biased_preserves_total_node_count() {
    let mut rng = SmallRng::seed_from_u64(21);
    let op = Crossover::one_point_leaf_biased(1, 2);
    let cfg = GenConfig { arity: 2, symbol_kinds: 9 };
    for seed in 0..10u64 {
        let gen_rng = SmallRng::seed_from_u64(seed);
        let mut tg = TreeGen::half_and_half(gen_rng, 1, 4).unwrap();
        let mut indv1 = Individual::new(&mut tg, &cfg);
        let mut indv2 = Individual::new(&mut tg, &cfg);
        let before = indv1.nodes_count() + indv2.nodes_count();
        op.mate(&mut indv1, &mut indv2, &mut rng);
        assert_eq!(indv1.nodes_count() + indv2.nodes_count(), before);
        assert_eq!(indv1.nodes_count(), indv1.tree.count_nodes());
        assert_eq!(indv2.nodes_count(), indv2.tree.count_nodes());
    }
}
