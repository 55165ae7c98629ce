use wordtree::{
    centroid_sum, cluster, cluster_step, copy_tree, dot_sums, flatten_b_tree, flatten_recursive,
    format_b_tree, format_b_tree_indices, merge_plan, resolve_merges, singletons, BTree, ClusterError, EmbeddingMatrix,
    PairSim, Similarity, MAX_DIM, MAX_ROWS,
};

fn node(a: BTree, b: BTree) -> BTree {
    BTree::Node(Box::new((a, b)))
}

fn matrix(rows: &[&[i16]]) -> EmbeddingMatrix {
    let dim = rows[0].len();
    let mut values = Vec::new();
    for r in rows {
        values.extend_from_slice(r);
    }
    EmbeddingMatrix::new(values, rows.len(), dim).unwrap()
}

fn render(forest: &[BTree]) -> Vec<String> {
    forest.iter().map(format_b_tree_indices).collect()
}

fn all_leaves(forest: &[BTree]) -> Vec<usize> {
    let mut out = Vec::new();
    for t in forest {
        flatten_recursive(t, &mut out);
    }
    out
}

// Clusters 0 and 1 pick each other (dot 9000), and so do 2 and 3 (dot 8000).
fn two_pairs() -> EmbeddingMatrix {
    matrix(&[&[100, 0, 0, 0], &[90, 44, 0, 0], &[0, 0, 100, 0], &[0, 0, 80, 60]])
}

// 0 picks 1, 1 picks 2, 2 picks 1, 3 picks 0; the plan is (1,2), (0,1), (0,3).
fn one_sided() -> EmbeddingMatrix {
    matrix(&[&[100, 0, 0], &[60, 80, 0], &[0, 100, 0], &[50, 0, 86]])
}

fn mixed(n: usize, dim: usize) -> EmbeddingMatrix {
    let mut values = Vec::new();
    let mut x: i64 = 12345;
    for _ in 0..n * dim {
        x = (x * 1103515245 + 12345) % 2147483648;
        values.push(((x >> 8) % 2001 - 1000) as i16);
    }
    EmbeddingMatrix::new(values, n, dim).unwrap()
}

#[test]
fn min_leaf_is_smallest_index() {
    let t = node(node(BTree::Leaf(7), BTree::Leaf(3)), BTree::Leaf(5));
    assert_eq!(t.min_leaf(), 3);
    assert_eq!(BTree::Leaf(9).min_leaf(), 9);
}

#[test]
fn flatten_lists_leaves_left_to_right() {
    let t = node(node(BTree::Leaf(7), BTree::Leaf(3)), BTree::Leaf(5));
    assert_eq!(flatten_b_tree(&t), vec![7, 3, 5]);
    let mut acc = vec![1];
    flatten_recursive(&t, &mut acc);
    assert_eq!(acc, vec![1, 7, 3, 5]);
}

#[test]
fn format_writes_words_in_nested_pairs() {
    let vocab: Vec<String> = vec!["a".to_string(), "b".to_string(), "c".to_string()];
    let t = node(BTree::Leaf(0), node(BTree::Leaf(1), BTree::Leaf(2)));
    assert_eq!(format_b_tree(&t, &vocab), "(a, (b, c))");
    assert_eq!(format_b_tree(&BTree::Leaf(2), &vocab), "c");
    let t = node(node(BTree::Leaf(2), BTree::Leaf(0)), BTree::Leaf(0));
    assert_eq!(format_b_tree(&t, &vocab), "((c, a), a)");
}

#[test]
fn format_indices_writes_nested_pairs() {
    let t = node(node(BTree::Leaf(0), BTree::Leaf(12)), BTree::Leaf(305));
    assert_eq!(format_b_tree_indices(&t), "((0, 12), 305)");
    assert_eq!(format_b_tree_indices(&BTree::Leaf(0)), "0");
    assert_eq!(format_b_tree_indices(&BTree::Leaf(1000)), "1000");
}

#[test]
fn copy_keeps_structure() {
    let t = node(BTree::Leaf(4), node(BTree::Leaf(1), BTree::Leaf(2)));
    assert_eq!(format_b_tree_indices(&copy_tree(&t)), "(4, (1, 2))");
}

#[test]
fn matrix_rejects_wrong_length() {
    let r = EmbeddingMatrix::new(vec![1, 2, 3], 2, 2);
    assert_eq!(r.err(), Some(ClusterError::MalformedInput));
    let r = EmbeddingMatrix::new(vec![], 3, 0);
    assert_eq!(r.err(), Some(ClusterError::MalformedInput));
}

#[test]
fn matrix_rejects_zero_row() {
    let r = EmbeddingMatrix::new(vec![1, 2, 0, 0, 5, 6], 3, 2);
    assert_eq!(r.err(), Some(ClusterError::DegenerateVector));
}

#[test]
fn matrix_rejects_too_many_columns() {
    let r = EmbeddingMatrix::new(vec![1; MAX_DIM + 1], 1, MAX_DIM + 1);
    assert_eq!(r.err(), Some(ClusterError::TooLarge));
    let r = EmbeddingMatrix::new(vec![], MAX_ROWS + 1, 0);
    assert_eq!(r.err(), Some(ClusterError::MalformedInput));
}

#[test]
fn matrix_reads_back_values() {
    let m = EmbeddingMatrix::new(vec![1, -2, 3, 4, 5, -6], 2, 3).unwrap();
    assert_eq!(m.rows(), 2);
    assert_eq!(m.dim(), 3);
    assert_eq!(m.value(0, 1), -2);
    assert_eq!(m.value(1, 2), -6);
}

#[test]
fn centroid_sum_adds_rows() {
    let m = matrix(&[&[1, 2], &[10, 20], &[100, -200]]);
    let t = node(BTree::Leaf(0), BTree::Leaf(2));
    assert_eq!(centroid_sum(&t, &m), vec![101, -198]);
    assert_eq!(dot_sums(&vec![1, 2, 3], &vec![4, -5, 6]), 12);
}

#[test]
fn similarity_compares_fractions_exactly() {
    let a = Similarity { num: 1, den: 3 };
    let b = Similarity { num: 2, den: 6 };
    let c = Similarity { num: 3, den: 8 };
    assert!(!a.greater_than(&b));
    assert!(!b.greater_than(&a));
    assert!(c.greater_than(&a));
    assert!(!a.greater_than(&c));
}

#[test]
fn pair_sim_puts_smaller_index_first() {
    let s = Similarity { num: 5, den: 1 };
    let p = PairSim::new(7, 2, s);
    assert_eq!((p.left, p.right), (2, 7));
    let q = PairSim::new(2, 7, s);
    assert_eq!(p, q);
}

#[test]
fn plan_orders_by_similarity_and_drops_repeats() {
    let m = two_pairs();
    let plan = merge_plan(&singletons(4), &m);
    assert_eq!(plan.len(), 2);
    assert_eq!((plan[0].left, plan[0].right), (0, 1));
    assert_eq!(plan[0].sim, Similarity { num: 9000, den: 1 });
    assert_eq!((plan[1].left, plan[1].right), (2, 3));
    assert_eq!(plan[1].sim, Similarity { num: 8000, den: 1 });
    for p in &plan {
        assert!(p.left < p.right);
    }
}

#[test]
fn step_merges_two_mutual_pairs() {
    let m = two_pairs();
    let next = cluster_step(&singletons(4), &m).unwrap();
    assert_eq!(render(&next), vec!["(0, 1)", "(2, 3)"]);
}

#[test]
fn step_skips_one_sided_pair_and_defers() {
    let m = one_sided();
    let plan = merge_plan(&singletons(4), &m);
    let pairs: Vec<(usize, usize)> = plan.iter().map(|p| (p.left, p.right)).collect();
    assert_eq!(pairs, vec![(1, 2), (0, 1), (0, 3)]);
    let next = cluster_step(&singletons(4), &m).unwrap();
    assert_eq!(render(&next), vec!["(1, 2)", "(0, 3)"]);
}

#[test]
fn step_carries_unmatched_clusters_after_merges() {
    // 0 and 1 pick each other; 2 picks 1, which is taken.
    let m = matrix(&[&[100, 0], &[90, 10], &[10, 20]]);
    let next = cluster_step(&singletons(3), &m).unwrap();
    assert_eq!(render(&next), vec!["(0, 1)", "2"]);
}

#[test]
fn step_breaks_ties_towards_larger_index() {
    // 0 is equally similar to 1 and 2: it picks 2. Equal similarities
    // order the plan by index pair.
    let m = matrix(&[&[100, 0], &[50, 50], &[50, -50]]);
    // 0 picks 2 (the larger of its two equal partners); 1 and 2 both pick 0.
    let plan = merge_plan(&singletons(3), &m);
    let pairs: Vec<(usize, usize)> = plan.iter().map(|p| (p.left, p.right)).collect();
    assert_eq!(pairs, vec![(0, 1), (0, 2)]);
    let next = cluster_step(&singletons(3), &m).unwrap();
    assert_eq!(render(&next), vec!["(0, 1)", "2"]);
}

#[test]
fn step_uses_unnormalized_means() {
    // The mean of {0, 1} is (50, 50); its dot with row 2 is 5000 over a
    // count product of 2: (100 * 100) / 2.
    let m = matrix(&[&[100, 0], &[0, 100], &[100, 100]]);
    let forest = vec![node(BTree::Leaf(0), BTree::Leaf(1)), BTree::Leaf(2)];
    let plan = merge_plan(&forest, &m);
    assert_eq!(plan.len(), 1);
    assert_eq!((plan[0].left, plan[0].right), (0, 1));
    assert_eq!(plan[0].sim, Similarity { num: 20000, den: 2 });
}

#[test]
fn step_orders_children_by_least_leaf() {
    let m = two_pairs();
    let forest = vec![node(BTree::Leaf(2), BTree::Leaf(3)), node(BTree::Leaf(0), BTree::Leaf(1))];
    let next = cluster_step(&forest, &m).unwrap();
    assert_eq!(render(&next), vec!["((0, 1), (2, 3))"]);
}

#[test]
fn step_on_single_cluster_is_unchanged() {
    let m = two_pairs();
    let forest = vec![node(node(BTree::Leaf(0), BTree::Leaf(1)), node(BTree::Leaf(2), BTree::Leaf(3)))];
    let next = cluster_step(&forest, &m).unwrap();
    assert_eq!(render(&next), render(&forest));
}

#[test]
fn step_on_empty_forest_fails() {
    let m = two_pairs();
    assert_eq!(cluster_step(&Vec::new(), &m).err(), Some(ClusterError::EmptyForest));
    assert_eq!(cluster(Vec::new(), &m, 5).err(), Some(ClusterError::EmptyForest));
}

#[test]
fn step_keeps_every_leaf_once() {
    let n = 40;
    let m = mixed(n, 8);
    let mut forest = singletons(n);
    for _ in 0..6 {
        if forest.len() == 1 {
            break;
        }
        let next = cluster_step(&forest, &m).unwrap();
        let mut leaves = all_leaves(&next);
        leaves.sort();
        assert_eq!(leaves, (0..n).collect::<Vec<usize>>());
        assert!(next.len() < forest.len());
        assert!(2 * next.len() >= forest.len());
        forest = next;
    }
}

#[test]
fn resolve_applies_given_plan() {
    let forest = singletons(5);
    let s = Similarity { num: 1, den: 1 };
    let plan = vec![PairSim::new(3, 4, s), PairSim::new(1, 3, s), PairSim::new(0, 1, s)];
    let next = resolve_merges(&forest, &plan);
    assert_eq!(render(&next), vec!["(3, 4)", "(0, 1)", "2"]);
}

#[test]
fn rounds_reach_one_cluster_within_n_minus_one() {
    for n in 1..12usize {
        let m = mixed(n, 5);
        let out = cluster(singletons(n), &m, n.saturating_sub(1)).unwrap();
        assert_eq!(out.len(), 1);
        let mut leaves = all_leaves(&out);
        leaves.sort();
        assert_eq!(leaves, (0..n).collect::<Vec<usize>>());
    }
}

#[test]
fn rounds_stop_at_budget() {
    let m = mixed(16, 4);
    let out = cluster(singletons(16), &m, 1).unwrap();
    let once = cluster_step(&singletons(16), &m).unwrap();
    assert_eq!(render(&out), render(&once));
    assert!(out.len() < 16);
}

#[test]
fn rounds_are_deterministic() {
    let a = cluster(singletons(30), &mixed(30, 6), 100).unwrap();
    let b = cluster(singletons(30), &mixed(30, 6), 100).unwrap();
    assert_eq!(render(&a), render(&b));
    assert_eq!(a.len(), 1);
}

#[test]
fn singletons_are_leaves_in_order() {
    assert_eq!(render(&singletons(3)), vec!["0", "1", "2"]);
    assert!(singletons(0).is_empty());
}

#[test]
fn records_order_by_similarity_then_indices() {
    let hi = Similarity { num: 3, den: 2 };
    let lo = Similarity { num: 1, den: 1 };
    let same = Similarity { num: 6, den: 4 };
    assert!(PairSim::new(5, 6, hi).comes_before(&PairSim::new(0, 1, lo)));
    assert!(!PairSim::new(0, 1, lo).comes_before(&PairSim::new(5, 6, hi)));
    assert!(PairSim::new(0, 4, same).comes_before(&PairSim::new(1, 2, hi)));
    assert!(PairSim::new(0, 2, hi).comes_before(&PairSim::new(0, 4, same)));
    assert!(!PairSim::new(0, 2, hi).comes_before(&PairSim::new(0, 2, hi)));
}

#[test]
fn step_output_renders_as_words() {
    let vocab: Vec<String> = ["cat", "dog", "red", "blue"].iter().map(|w| w.to_string()).collect();
    let next = cluster_step(&singletons(4), &two_pairs()).unwrap();
    let words: Vec<String> = next.iter().map(|t| format_b_tree(t, &vocab)).collect();
    assert_eq!(words, vec!["(cat, dog)", "(red, blue)"]);
}
