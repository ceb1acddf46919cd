use classifiers::dataset::Dataset;
use classifiers::decision_tree::{decision_tree, DecisionTree, Split};
use classifiers::fscore::{class_f1, f_score};
use classifiers::knn::k_nearest_neighbors;
use classifiers::point::{squared_distance, Point};
use classifiers::ratio::Ratio;

fn xlogx_table(n: usize) -> Vec<u32> {
    (0..=n)
        .map(|m| {
            if m == 0 {
                0
            } else {
                let x = m as f64;
                (x * x.log2() * 65536.0).round() as u32
            }
        })
        .collect()
}

fn names(list: &[&str]) -> Vec<String> {
    list.iter().map(|s| s.to_string()).collect()
}

fn clusters() -> Dataset {
    Dataset::new(
        vec![
            vec![0, 0],
            vec![1, 0],
            vec![0, 1],
            vec![100, 100],
            vec![101, 100],
            vec![100, 101],
        ],
        vec![0, 0, 0, 1, 1, 1],
        names(&["low", "high"]),
    )
}

fn leaf_rows(tree: &DecisionTree, out: &mut Vec<Vec<usize>>) {
    match tree {
        DecisionTree::Leaf { active_rows, .. } => out.push(active_rows.clone()),
        DecisionTree::Internal { yes_branch, no_branch, .. } => {
            leaf_rows(yes_branch, out);
            leaf_rows(no_branch, out);
        }
    }
}

fn depth(tree: &DecisionTree) -> usize {
    match tree {
        DecisionTree::Leaf { .. } => 0,
        DecisionTree::Internal { yes_branch, no_branch, .. } => {
            1 + depth(yes_branch).max(depth(no_branch))
        }
    }
}

#[test]
fn kfold_interleaves_rows() {
    let d = Dataset::new(vec![vec![0]; 7], vec![0; 7], names(&["x"]));
    let (train, test) = d.kfold(3, 1);
    assert_eq!(test, vec![1, 4]);
    assert_eq!(train, vec![0, 2, 3, 5, 6]);
}

#[test]
fn kfold_folds_cover_every_row_once() {
    let d = Dataset::new(vec![vec![0]; 11], vec![0; 11], names(&["x"]));
    let mut seen = vec![0usize; 11];
    for f in 0..4 {
        let (train, test) = d.kfold(4, f);
        assert_eq!(train.len() + test.len(), 11);
        for i in test {
            seen[i] += 1;
        }
    }
    assert!(seen.iter().all(|&c| c == 1));
}

#[test]
fn kfold_fold_beyond_k_holds_out_nothing() {
    let d = Dataset::new(vec![vec![0]; 5], vec![0; 5], names(&["x"]));
    let (train, test) = d.kfold(2, 2);
    assert!(test.is_empty());
    assert_eq!(train, vec![0, 1, 2, 3, 4]);
}

#[test]
fn f_score_known_case() {
    // "a" is class 0, "b" is class 1.
    let actual = vec![0, 0, 1, 1];
    let predicted = vec![0, 1, 1, 1];
    let scores = f_score(&actual, &predicted);
    assert_eq!(scores.len(), 2);
    assert_eq!(scores[0].0, 0);
    assert_eq!((scores[0].1.num, scores[0].1.den), (2, 3));
    assert_eq!(scores[1].0, 1);
    assert_eq!((scores[1].1.num, scores[1].1.den), (4, 5));
    let macro_f1: f64 = scores
        .iter()
        .map(|(_, r)| r.num as f64 / r.den as f64)
        .sum::<f64>()
        / scores.len() as f64;
    assert!((macro_f1 - 0.7333333).abs() < 1e-6);
}

#[test]
fn f_score_perfect_prediction_is_one() {
    let actual = vec![2, 0, 2, 5, 0];
    let scores = f_score(&actual, &actual);
    assert_eq!(scores.len(), 3);
    for (_, r) in scores {
        assert!(r.num > 0);
        assert_eq!(r.num, r.den);
    }
}

#[test]
fn f_score_zero_without_true_positive() {
    let r = class_f1(&vec![0, 0], &vec![1, 1], 0);
    assert_eq!((r.num, r.den), (0, 1));
    let r = class_f1(&vec![0, 0], &vec![1, 1], 7);
    assert_eq!((r.num, r.den), (0, 1));
}

#[test]
fn f_score_classes_in_first_appearance_order() {
    let scores = f_score(&vec![3, 1, 3], &vec![3, 3, 3]);
    let classes: Vec<usize> = scores.iter().map(|(c, _)| *c).collect();
    assert_eq!(classes, vec![3, 1]);
    // class 3: tp 2, fp 1, fn 0
    assert_eq!((scores[0].1.num, scores[0].1.den), (4, 5));
    assert_eq!((scores[1].1.num, scores[1].1.den), (0, 1));
}

#[test]
fn ratio_compares_exactly() {
    assert!(Ratio::new(2, 3).ge(&Ratio::new(4, 6)));
    assert!(!Ratio::new(1, 3).ge(&Ratio::new(1, 2)));
    assert!(Ratio::new(1, 1).ge(&Ratio::new(999_999, 1_000_000)));
}

#[test]
fn majority_class_lowest_code_wins_ties() {
    let d = Dataset::new(
        vec![vec![0]; 4],
        vec![1, 0, 1, 0],
        names(&["a", "b"]),
    );
    let node = DecisionTree::new(&d, vec![0, 1, 2, 3]);
    assert_eq!(node.majority_class(&d), 0);
    let p = node.purity(&d);
    assert_eq!((p.num, p.den), (2, 4));
    let node = DecisionTree::new(&d, vec![0, 1, 2]);
    assert_eq!(node.majority_class(&d), 1);
    match node {
        DecisionTree::Leaf { class, .. } => assert_eq!(class, 1),
        _ => panic!("a new node is a leaf"),
    }
}

#[test]
fn tree_picks_the_separating_dimension() {
    let d = Dataset::new(
        vec![vec![0, 5], vec![1, 3], vec![10, 4], vec![11, 6]],
        vec![0, 0, 1, 1],
        names(&["a", "b"]),
    );
    let t = xlogx_table(4);
    let tree = decision_tree(&d, &vec![0, 1, 2, 3], 1, Ratio::new(1, 1), &t);
    match &tree {
        DecisionTree::Internal { split, yes_branch, no_branch, .. } => {
            assert_eq!(*split, Split { dim: 0, lo: 1, hi: 10 });
            assert_eq!(yes_branch.predict(&vec![0, 0]), 0);
            assert_eq!(no_branch.predict(&vec![20, 0]), 1);
        }
        _ => panic!("expected a split"),
    }
    assert_eq!(tree.predict(&vec![5, 0]), 0);
    assert_eq!(tree.predict(&vec![6, 0]), 1);
    assert_eq!(depth(&tree), 1);
}

#[test]
fn tree_perfect_purity_leaves() {
    let d = Dataset::new(
        vec![vec![1, 7], vec![2, 3], vec![3, 9], vec![4, 1], vec![5, 5], vec![6, 2]],
        vec![0, 1, 0, 1, 1, 0],
        names(&["a", "b"]),
    );
    let t = xlogx_table(6);
    let tree = decision_tree(&d, &vec![0, 1, 2, 3, 4, 5], 1, Ratio::new(1, 1), &t);
    let mut leaves = Vec::new();
    leaf_rows(&tree, &mut leaves);
    let mut total = 0;
    for rows in &leaves {
        total += rows.len();
        let first = d.labels[rows[0]];
        assert!(rows.iter().all(|&r| d.labels[r] == first));
    }
    assert_eq!(total, 6);
    for r in 0..6 {
        assert_eq!(tree.predict(&d.features[r]), d.labels[r]);
    }
}

#[test]
fn tree_conflicting_duplicates_become_one_leaf() {
    let d = Dataset::new(
        vec![vec![3, 3], vec![3, 3], vec![3, 3]],
        vec![1, 0, 1],
        names(&["a", "b"]),
    );
    let t = xlogx_table(3);
    let tree = decision_tree(&d, &vec![0, 1, 2], 1, Ratio::new(1, 1), &t);
    match tree {
        DecisionTree::Leaf { active_rows, class } => {
            assert_eq!(active_rows.len(), 3);
            assert_eq!(class, 1);
        }
        _ => panic!("expected a leaf"),
    }
}

#[test]
fn tree_large_eta_or_low_pi_stops_early() {
    let d = clusters();
    let t = xlogx_table(6);
    let rows: Vec<usize> = (0..6).collect();
    let deep = decision_tree(&d, &rows, 1, Ratio::new(1, 1), &t);
    let by_eta = decision_tree(&d, &rows, 6, Ratio::new(1, 1), &t);
    let by_pi = decision_tree(&d, &rows, 1, Ratio::new(1, 2), &t);
    assert_eq!(depth(&deep), 1);
    assert_eq!(depth(&by_eta), 0);
    assert_eq!(depth(&by_pi), 0);
    assert!(depth(&by_eta) <= depth(&deep));
}

#[test]
fn tree_duplicate_rows_are_counted_once() {
    let d = clusters();
    let t = xlogx_table(8);
    let tree = decision_tree(&d, &vec![0, 0, 3, 3, 4], 1, Ratio::new(1, 1), &t);
    match &tree {
        DecisionTree::Internal { active_rows, .. } => assert_eq!(active_rows, &vec![0, 3, 4]),
        _ => panic!("expected a split"),
    }
}

#[test]
fn tree_prediction_is_repeatable() {
    let d = clusters();
    let t = xlogx_table(6);
    let tree = decision_tree(&d, &(0..6).collect(), 1, Ratio::new(1, 1), &t);
    let q = vec![50, 50];
    let first = tree.predict(&q);
    let second = tree.predict(&q);
    assert_eq!(first, second);
}

#[test]
fn knn_returns_own_class_for_training_point() {
    let d = clusters();
    for r in 0..6 {
        assert_eq!(k_nearest_neighbors(&d, &d.features[r], 1), Some(d.labels[r]));
    }
    assert_eq!(k_nearest_neighbors(&d, &vec![99, 99], 3), Some(1));
}

#[test]
fn knn_none_for_zero_k_or_empty_dataset() {
    let d = clusters();
    assert_eq!(k_nearest_neighbors(&d, &vec![0, 0], 0), None);
    let empty = Dataset::new(vec![], vec![], names(&["a"]));
    assert_eq!(k_nearest_neighbors(&empty, &vec![0, 0], 3), None);
}

#[test]
fn knn_k_beyond_rows_uses_all_rows() {
    let d = Dataset::new(
        vec![vec![0], vec![1], vec![50]],
        vec![1, 0, 0],
        names(&["a", "b"]),
    );
    assert_eq!(k_nearest_neighbors(&d, &vec![0], 10), Some(0));
    assert_eq!(k_nearest_neighbors(&d, &vec![0], 1), Some(1));
}

#[test]
fn knn_ties_go_to_lowest_class_code() {
    let d = Dataset::new(vec![vec![0], vec![2]], vec![1, 0], names(&["a", "b"]));
    assert_eq!(k_nearest_neighbors(&d, &vec![1], 2), Some(0));
    // Equal distances: the earlier row is nearer.
    assert_eq!(k_nearest_neighbors(&d, &vec![1], 1), Some(1));
}

#[test]
fn squared_distance_exact() {
    let a = Point::new(vec![1, -2, 3]);
    let b = Point::new(vec![4, 2, 3]);
    assert_eq!(a.squared_dist(&b), 25);
    assert_eq!(squared_distance(&vec![i32::MIN], &vec![i32::MAX]), 18446744065119617025u128);
    assert_eq!(squared_distance(&vec![1, 2, 3], &vec![1]), 0);
}

#[test]
fn split_goes_yes_below_midpoint() {
    let s = Split { dim: 0, lo: 1, hi: 4 };
    assert!(s.goes_yes(2));
    assert!(!s.goes_yes(3));
    let s = Split { dim: 0, lo: 1, hi: 2 };
    assert!(s.goes_yes(1));
    assert!(!s.goes_yes(2));
}

#[test]
fn dims_of_dataset() {
    assert_eq!(clusters().dims(), 2);
    let empty = Dataset::new(vec![], vec![], vec![]);
    assert_eq!(empty.dims(), 0);
}

#[test]
fn tree_equal_gains_prefer_lowest_dimension() {
    let d = Dataset::new(
        vec![vec![0, 0], vec![1, 1], vec![2, 2], vec![3, 3]],
        vec![0, 0, 1, 1],
        names(&["a", "b"]),
    );
    let t = xlogx_table(4);
    let tree = decision_tree(&d, &vec![3, 2, 1, 0], 1, Ratio::new(1, 1), &t);
    match tree {
        DecisionTree::Internal { split, .. } => assert_eq!(split, Split { dim: 0, lo: 1, hi: 2 }),
        _ => panic!("expected a split"),
    }
}

#[test]
fn tree_equal_gains_prefer_lowest_threshold() {
    let d = Dataset::new(
        vec![vec![10], vec![0], vec![6], vec![1], vec![11], vec![5]],
        vec![2, 0, 1, 0, 2, 1],
        names(&["a", "b", "c"]),
    );
    let t = xlogx_table(6);
    let tree = decision_tree(&d, &(0..6).collect(), 1, Ratio::new(1, 1), &t);
    match &tree {
        DecisionTree::Internal { split, .. } => assert_eq!(*split, Split { dim: 0, lo: 1, hi: 5 }),
        _ => panic!("expected a split"),
    }
    assert_eq!(depth(&tree), 2);
    for r in 0..6 {
        assert_eq!(tree.predict(&d.features[r]), d.labels[r]);
    }
}
