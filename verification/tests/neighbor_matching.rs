use graph_neighbor_matching::matrix::{SimMatrix, SCALE};
use graph_neighbor_matching::{
    neighbor_matching_matrix, neighbor_matching_score, neighbor_matching_score_with_assignment,
    s_next,
};

// eps = 0.1 in fixed-point units.
const EPS_TENTH: u64 = SCALE / 10;

#[test]
fn test_matrix() {
    // A: 0 --> 1
    let in_a = vec![vec![], vec![0]];
    let out_a = vec![vec![1], vec![]];

    // B: 0 <-- 1
    let in_b = vec![vec![1], vec![]];
    let out_b = vec![vec![], vec![0]];

    let (iter, mat) = neighbor_matching_matrix(&in_a, &in_b, &out_a, &out_b, EPS_TENTH, 100);
    assert_eq!(iter, 1);
    assert_eq!(2, mat.nrows());
    assert_eq!(2, mat.ncols());

    // A and B are isomorphic
    assert_eq!(SCALE, mat.at(0, 0));
    assert_eq!(SCALE, mat.at(0, 1));
    assert_eq!(SCALE, mat.at(1, 0));
    assert_eq!(SCALE, mat.at(1, 1));
}

#[test]
fn test_score() {
    // A: 0 --> 1
    let in_a = vec![vec![], vec![0]];
    let out_a = vec![vec![1], vec![]];

    // B: 0 <-- 1
    let in_b = vec![vec![1], vec![]];
    let out_b = vec![vec![], vec![0]];

    let (iter, score) = neighbor_matching_score(&in_a, &in_b, &out_a, &out_b, EPS_TENTH, 100);
    assert_eq!(iter, 1);

    // The score is 1.0 <=> A and B are isomorphic
    assert_eq!(SCALE, score);
}

#[test]
fn test_local_match_empty_lists() {
    // Two nodes without neighbors in a direction are perfectly similar in
    // that direction, whatever the current matrix holds.
    let x = SimMatrix::zeros(2, 2);
    let empty: Vec<usize> = vec![];
    let some = vec![0, 1];
    assert_eq!(SCALE, s_next(&empty, &some, &x));
    assert_eq!(SCALE, s_next(&some, &empty, &x));
    assert_eq!(SCALE, s_next(&empty, &empty, &x));
}

#[test]
fn test_self_identity() {
    // A path 0 -> 1 -> 2 compared with itself scores 1.0, already at a
    // cap of one iteration.
    let ins = vec![vec![], vec![0], vec![1]];
    let outs = vec![vec![1], vec![2], vec![]];

    let (_, s1) = neighbor_matching_score(&ins, &ins, &outs, &outs, EPS_TENTH, 1);
    assert_eq!(SCALE, s1);
    let (_, s100) = neighbor_matching_score(&ins, &ins, &outs, &outs, EPS_TENTH, 100);
    assert_eq!(SCALE, s100);
}

#[test]
fn test_swap_symmetry() {
    // A star with three leaves against a 3-cycle: the score is exactly
    // symmetric under swapping the inputs, also for unequal node counts.
    let in_a = vec![vec![], vec![0], vec![0], vec![0]];
    let out_a = vec![vec![1, 2, 3], vec![], vec![], vec![]];
    let in_b = vec![vec![2], vec![0], vec![1]];
    let out_b = vec![vec![1], vec![2], vec![0]];

    let (it_ab, s_ab) = neighbor_matching_score(&in_a, &in_b, &out_a, &out_b, EPS_TENTH, 100);
    let (it_ba, s_ba) = neighbor_matching_score(&in_b, &in_a, &out_b, &out_a, EPS_TENTH, 100);
    assert_eq!(s_ab, s_ba);
    assert_eq!(it_ab, it_ba);

    // same node counts: a 4-cycle against the star
    let in_c = vec![vec![3], vec![0], vec![1], vec![2]];
    let out_c = vec![vec![1], vec![2], vec![3], vec![0]];
    let (_, s_ac) = neighbor_matching_score(&in_a, &in_c, &out_a, &out_c, EPS_TENTH, 100);
    let (_, s_ca) = neighbor_matching_score(&in_c, &in_a, &out_c, &out_a, EPS_TENTH, 100);
    assert_eq!(s_ac, s_ca);
}

#[test]
fn test_iteration_cap() {
    // The reported iteration count never exceeds the cap, does not
    // decrease when the cap grows, and does not decrease when eps
    // shrinks.
    let in_a = vec![vec![], vec![0], vec![0], vec![0]];
    let out_a = vec![vec![1, 2, 3], vec![], vec![], vec![]];
    let in_b = vec![vec![2], vec![0], vec![1]];
    let out_b = vec![vec![1], vec![2], vec![0]];

    let mut last = 0;
    for cap in 0..6 {
        let (it, _) = neighbor_matching_score(&in_a, &in_b, &out_a, &out_b, EPS_TENTH, cap);
        assert!(it <= cap);
        assert!(it >= last);
        last = it;
    }

    let (it_loose, _) = neighbor_matching_score(&in_a, &in_b, &out_a, &out_b, EPS_TENTH, 100);
    let (it_tight, _) = neighbor_matching_score(&in_a, &in_b, &out_a, &out_b, EPS_TENTH / 100, 100);
    assert!(it_tight >= it_loose);
}

#[test]
fn test_fixed_point_cap_zero_and_large() {
    // A: 0 --> 1, B: 1 --> 0. The initial matrix is already the fixed
    // point, so cap = 0 and cap = 100 give the same score 1.0.
    let in_a = vec![vec![], vec![0]];
    let out_a = vec![vec![1], vec![]];
    let in_b = vec![vec![1], vec![]];
    let out_b = vec![vec![], vec![0]];

    let (it0, s0) = neighbor_matching_score(&in_a, &in_b, &out_a, &out_b, EPS_TENTH, 0);
    let (it100, s100) = neighbor_matching_score(&in_a, &in_b, &out_a, &out_b, EPS_TENTH, 100);
    assert_eq!(it0, 0);
    assert_eq!(it100, 1);
    assert_eq!(s0, SCALE);
    assert_eq!(s100, SCALE);
}

#[test]
fn test_boundedness() {
    // Every cell and every score lies in [0, SCALE].
    let in_a = vec![vec![], vec![0], vec![0, 1]];
    let out_a = vec![vec![1, 2], vec![2], vec![]];
    let in_b = vec![vec![1], vec![]];
    let out_b = vec![vec![], vec![0]];

    let (_, mat) = neighbor_matching_matrix(&in_a, &in_b, &out_a, &out_b, EPS_TENTH, 100);
    for i in 0..mat.nrows() {
        for j in 0..mat.ncols() {
            assert!(mat.at(i, j) <= SCALE);
        }
    }
    let (_, score) = neighbor_matching_score(&in_a, &in_b, &out_a, &out_b, EPS_TENTH, 100);
    assert!(score <= SCALE);
}

#[test]
fn test_assignment_exposed() {
    // The matched pair set is exposed: one pair per column of the
    // oriented matrix, rows and columns each used at most once.
    let in_a = vec![vec![], vec![0], vec![0], vec![0]];
    let out_a = vec![vec![1, 2, 3], vec![], vec![], vec![]];
    let in_b = vec![vec![2], vec![0], vec![1]];
    let out_b = vec![vec![1], vec![2], vec![0]];

    let (_, score, pairs) =
        neighbor_matching_score_with_assignment(&in_a, &in_b, &out_a, &out_b, EPS_TENTH, 100);
    assert_eq!(3, pairs.len());
    for t in 0..pairs.len() {
        let (r, c) = pairs[t];
        assert!(r < 3 && c < 3);
        for u in 0..t {
            assert!(pairs[u].0 != r && pairs[u].1 != c);
        }
    }

    // the pairs reproduce the score from the matrix of the oriented pair
    // (here countA >= countB, so the orientation kept the input order)
    let (_, mat) = neighbor_matching_matrix(&in_a, &in_b, &out_a, &out_b, EPS_TENTH, 100);
    let mut total: u64 = 0;
    for &(r, c) in pairs.iter() {
        total += mat.at(r, c);
    }
    assert_eq!(total / 3, score);
}

#[test]
fn test_optimal_assignment_matters() {
    // A star with three leaves against the same star lacking one leaf
    // edge. The best assignment must avoid pairing the two hub nodes'
    // weaker cells naively; the exact score is pinned.
    let in_a = vec![vec![], vec![0], vec![0], vec![0]];
    let out_a = vec![vec![1, 2, 3], vec![], vec![], vec![]];
    let in_b = vec![vec![], vec![0], vec![0], vec![]];
    let out_b = vec![vec![1, 2], vec![], vec![], vec![]];

    let (it, score) = neighbor_matching_score(&in_a, &in_b, &out_a, &out_b, EPS_TENTH, 100);
    assert_eq!(2, it);
    assert_eq!(979166, score);
}

#[test]
fn test_similarity_regression() {
    // Removing edges from an otherwise isomorphic pair lowers the score,
    // and repeated runs reproduce the same fixed values.
    // A: the 4-cycle 0->1->2->3->0 with the chords 0->2 and 1->3
    let in_a = vec![vec![3], vec![0], vec![1, 0], vec![2, 1]];
    let out_a = vec![vec![1, 2], vec![2, 3], vec![3], vec![0]];

    // the same graph
    let in_b0 = in_a.clone();
    let out_b0 = out_a.clone();
    // minus the chord 1 -> 3
    let in_b1 = vec![vec![3], vec![0], vec![1, 0], vec![2]];
    let out_b1 = vec![vec![1, 2], vec![2], vec![3], vec![0]];
    // minus both chords
    let in_b2 = vec![vec![3], vec![0], vec![1], vec![2]];
    let out_b2 = vec![vec![1], vec![2], vec![3], vec![0]];

    let (_, s0) = neighbor_matching_score(&in_a, &in_b0, &out_a, &out_b0, EPS_TENTH, 100);
    let (_, s1) = neighbor_matching_score(&in_a, &in_b1, &out_a, &out_b1, EPS_TENTH, 100);
    let (_, s2) = neighbor_matching_score(&in_a, &in_b2, &out_a, &out_b2, EPS_TENTH, 100);

    assert_eq!(SCALE, s0);
    assert!(s0 > s1);
    assert!(s1 > s2);

    // fixed values for this (eps, cap) pair
    assert_eq!(539549, s1);
    assert_eq!(237304, s2);

    let (_, s1_again) = neighbor_matching_score(&in_a, &in_b1, &out_a, &out_b1, EPS_TENTH, 100);
    let (_, s2_again) = neighbor_matching_score(&in_a, &in_b2, &out_a, &out_b2, EPS_TENTH, 100);
    assert_eq!(s1, s1_again);
    assert_eq!(s2, s2_again);
}
