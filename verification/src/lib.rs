//! Topological similarity of two directed graphs by iterative neighbor
//! matching: a per-node-pair similarity matrix is refined Jacobi-style
//! from neighborhood structure, then collapsed into one bounded score via
//! an optimal one-to-one node assignment (the Kuhn-Munkres solver of the
//! `munkres` crate).
//!
//! Similarities are fixed-point values in `[0, SCALE]`, with `SCALE`
//! standing for 1.0. The weights handed to the minimizing solver are
//! `SCALE - similarity`, so every assignment consistently maximizes the
//! total matched similarity.

pub mod assign;
pub mod laws;
pub mod matrix;
pub mod model;

use vstd::math::{max, min};
use vstd::prelude::*;

use crate::assign::{in_range, lemma_div_in_range, optimal_match};
use crate::matrix::{SimMatrix, SCALE};
use crate::model::{
    adj_view,
    final_mat,
    id_list,
    iters_of,
    lemma_step_cell_in_range,
    local_sim,
    mat_at,
    prev_mat,
    score_spec,
    step_cell,
    step_mat,
    stop_from,
    GraphPair,
};

verus! {

/// The graph pair described by the four caller-supplied adjacency lists.
pub open spec fn pair_of(
    in_a: Seq<Vec<usize>>,
    in_b: Seq<Vec<usize>>,
    out_a: Seq<Vec<usize>>,
    out_b: Seq<Vec<usize>>,
) -> GraphPair {
    GraphPair {
        in_a: adj_view(in_a),
        in_b: adj_view(in_b),
        out_a: adj_view(out_a),
        out_b: adj_view(out_b),
    }
}

/// The caller's adjacency lists are well formed: both directions list the
/// same node count per graph, every neighbor index is in range, and no
/// degree is so large that a local cost matrix could overflow `usize`.
pub open spec fn inputs_ok(
    in_a: Seq<Vec<usize>>,
    in_b: Seq<Vec<usize>>,
    out_a: Seq<Vec<usize>>,
    out_b: Seq<Vec<usize>>,
) -> bool {
    &&& in_a.len() == out_a.len()
    &&& in_b.len() == out_b.len()
    &&& in_a.len() * in_b.len() <= usize::MAX
    &&& pair_of(in_a, in_b, out_a, out_b).wf()
}

/// The local neighbor similarity of one node pair: match the first
/// `min_deg` entries of the two neighbor lists optimally under the
/// current matrix and divide the matched total by `max_deg`; two nodes
/// without neighbors in this direction count as perfectly similar.
pub fn s_next(n_i: &Vec<usize>, n_j: &Vec<usize>, x: &SimMatrix) -> (r: u64)
    requires
        x.wf(),
        in_range(n_i@, x.rows as int),
        in_range(n_j@, x.cols as int),
        n_i@.len() * n_i@.len() <= usize::MAX,
        n_j@.len() * n_j@.len() <= usize::MAX,
    ensures
        r as int == local_sim(n_i@, n_j@, x@),
        r <= SCALE,
        (n_i@.len() == 0 || n_j@.len() == 0) ==> r == SCALE,
{
    let li = n_i.len();
    let lj = n_j.len();
    if li == 0 || lj == 0 {
        return SCALE;
    }
    let min_deg = if li <= lj {
        li
    } else {
        lj
    };
    let max_deg = if li <= lj {
        lj
    } else {
        li
    };
    proof {
        assert(min_deg * min_deg <= usize::MAX) by (nonlinear_arith)
            requires
                min_deg <= n_i@.len(),
                min_deg <= n_j@.len(),
                min_deg == n_i@.len() || min_deg == n_j@.len(),
                n_i@.len() * n_i@.len() <= usize::MAX,
                n_j@.len() * n_j@.len() <= usize::MAX,
        ;
    }
    let (total, _) = optimal_match(x, n_i, n_j, min_deg);
    let s = (total / (max_deg as u128)) as u64;
    proof {
        lemma_div_in_range(total as int, min_deg as int, max_deg as int);
        assert(min(n_i@.len() as int, n_j@.len() as int) == min_deg);
        assert(max(n_i@.len() as int, n_j@.len() as int) == max_deg);
    }
    s
}

/// One full Jacobi step: every cell of the new matrix is the mean of the
/// incoming-side and outgoing-side local similarities of its node pair,
/// computed from the previous matrix only.
fn next_x(
    x: &SimMatrix,
    in_a: &Vec<Vec<usize>>,
    in_b: &Vec<Vec<usize>>,
    out_a: &Vec<Vec<usize>>,
    out_b: &Vec<Vec<usize>>,
) -> (m: SimMatrix)
    requires
        inputs_ok(in_a@, in_b@, out_a@, out_b@),
        x.wf(),
        x.rows == in_a@.len(),
        x.cols == in_b@.len(),
    ensures
        m.wf(),
        m.rows == x.rows,
        m.cols == x.cols,
        m@ == step_mat(pair_of(in_a@, in_b@, out_a@, out_b@), x@),
{
    let ghost g = pair_of(in_a@, in_b@, out_a@, out_b@);
    let rows = in_a.len();
    let cols = in_b.len();
    let mut data: Vec<u64> = Vec::new();
    let mut i: usize = 0;
    while i < rows
        invariant
            inputs_ok(in_a@, in_b@, out_a@, out_b@),
            g == pair_of(in_a@, in_b@, out_a@, out_b@),
            x.wf(),
            x.rows == rows,
            x.cols == cols,
            rows == in_a@.len(),
            cols == in_b@.len(),
            i <= rows,
            data.len() == i * cols,
            forall|p: int, q: int|
                0 <= p < i && 0 <= q < cols ==> (#[trigger] data[p * cols + q]) as int == step_cell(
                    g,
                    x@,
                    p,
                    q,
                ),
        decreases rows - i,
    {
        let mut j: usize = 0;
        while j < cols
            invariant
                inputs_ok(in_a@, in_b@, out_a@, out_b@),
                g == pair_of(in_a@, in_b@, out_a@, out_b@),
                x.wf(),
                x.rows == rows,
                x.cols == cols,
                rows == in_a@.len(),
                cols == in_b@.len(),
                i < rows,
                j <= cols,
                data.len() == i * cols + j,
                forall|p: int, q: int|
                    0 <= p < i && 0 <= q < cols ==> (#[trigger] data[p * cols + q]) as int
                        == step_cell(g, x@, p, q),
                forall|q: int|
                    0 <= q < j ==> (#[trigger] data[i as int * cols + q]) as int == step_cell(
                        g,
                        x@,
                        i as int,
                        q,
                    ),
            decreases cols - j,
        {
            proof {
                crate::matrix::lemma_flat_index(i as int, j as int, rows as int, cols as int);
                assert(g.in_a[i as int] == in_a@[i as int]@);
                assert(g.in_b[j as int] == in_b@[j as int]@);
                assert(g.out_a[i as int] == out_a@[i as int]@);
                assert(g.out_b[j as int] == out_b@[j as int]@);
            }
            let s_in = s_next(&in_a[i], &in_b[j], x);
            let s_out = s_next(&out_a[i], &out_b[j], x);
            data.push((s_in + s_out) / 2);
            j += 1;
            proof {
                assert forall|p: int, q: int| 0 <= p < i && 0 <= q < cols implies (#[trigger] data[p
                    * cols + q]) as int == step_cell(g, x@, p, q) by {
                    crate::matrix::lemma_flat_index(p, q, i as int, cols as int);
                }
            }
        }
        i += 1;
        proof {
            assert(i as int * cols == (i - 1) * cols + cols) by (nonlinear_arith);
            assert forall|p: int, q: int| 0 <= p < i && 0 <= q < cols implies (#[trigger] data[p
                * cols + q]) as int == step_cell(g, x@, p, q) by {
                crate::matrix::lemma_flat_index(p, q, i as int, cols as int);
                if p == i - 1 {
                    assert(data[(i - 1) * cols + q] as int == step_cell(g, x@, i - 1, q));
                }
            }
        }
    }
    let m = SimMatrix { rows, cols, data };
    proof {
        x.lemma_wf_view();
        assert forall|t: int| 0 <= t < m.data.len() implies (#[trigger] m.data[t]) <= SCALE by {
            let p = t / cols as int;
            let q = t % cols as int;
            assert(t == p * cols + q && 0 <= p < rows && 0 <= q < cols) by (nonlinear_arith)
                requires
                    0 <= t < rows * cols,
                    p == t / cols as int,
                    q == t % cols as int,
                    cols >= 1,
            ;
            lemma_step_cell_in_range(g, x@, p, q);
        }
        assert(m@ =~~= step_mat(g, x@)) by {
            assert forall|p: int, q: int| 0 <= p < rows && 0 <= q < cols implies m@[p][q]
                == step_mat(g, x@)[p][q] by {
                crate::matrix::lemma_flat_index(p, q, rows as int, cols as int);
                lemma_step_cell_in_range(g, x@, p, q);
            }
        }
    }
    m
}

/// Run the iterative refinement and return the number of iterations
/// performed together with the final similarity matrix (row dimension:
/// nodes of graph A, column dimension: nodes of graph B).
///
/// The matrix is seeded with the binary default: `SCALE` where both
/// nodes have at least one neighbor in some direction, else 0. Iteration
/// stops as soon as no cell moved by more than `eps`, or when
/// `stop_after_iter` iterations were performed, whichever comes first;
/// the convergence test before the first iteration compares the seed
/// against the all-zero scratch matrix, so an all-zero seed stops at 0
/// iterations by design.
pub fn neighbor_matching_matrix(
    in_a: &Vec<Vec<usize>>,
    in_b: &Vec<Vec<usize>>,
    out_a: &Vec<Vec<usize>>,
    out_b: &Vec<Vec<usize>>,
    eps: u64,
    stop_after_iter: usize,
) -> (r: (usize, SimMatrix))
    requires
        inputs_ok(in_a@, in_b@, out_a@, out_b@),
    ensures
        r.0 == iters_of(pair_of(in_a@, in_b@, out_a@, out_b@), eps, stop_after_iter as nat),
        r.0 <= stop_after_iter,
        r.1.wf(),
        r.1.rows == in_a@.len(),
        r.1.cols == in_b@.len(),
        r.1@ == mat_at(pair_of(in_a@, in_b@, out_a@, out_b@), r.0 as nat),
{
    let ghost g = pair_of(in_a@, in_b@, out_a@, out_b@);
    let na = in_a.len();
    let nb = in_b.len();
    let mut data: Vec<u64> = Vec::new();
    let mut i: usize = 0;
    while i < na
        invariant
            inputs_ok(in_a@, in_b@, out_a@, out_b@),
            g == pair_of(in_a@, in_b@, out_a@, out_b@),
            na == in_a@.len(),
            nb == in_b@.len(),
            i <= na,
            data.len() == i * nb,
            forall|p: int, q: int|
                0 <= p < i && 0 <= q < nb ==> (#[trigger] data[p * nb + q])
                    == crate::model::init_mat(g)[p][q],
        decreases na - i,
    {
        let mut j: usize = 0;
        let nbrs_i = in_a[i].len() > 0 || out_a[i].len() > 0;
        while j < nb
            invariant
                inputs_ok(in_a@, in_b@, out_a@, out_b@),
                g == pair_of(in_a@, in_b@, out_a@, out_b@),
                na == in_a@.len(),
                nb == in_b@.len(),
                i < na,
                j <= nb,
                nbrs_i == crate::model::has_nbrs(g.in_a, g.out_a, i as int),
                data.len() == i * nb + j,
                forall|p: int, q: int|
                    0 <= p < i && 0 <= q < nb ==> (#[trigger] data[p * nb + q])
                        == crate::model::init_mat(g)[p][q],
                forall|q: int|
                    0 <= q < j ==> (#[trigger] data[i as int * nb + q]) == crate::model::init_mat(
                        g,
                    )[i as int][q],
            decreases nb - j,
        {
            proof {
                crate::matrix::lemma_flat_index(i as int, j as int, na as int, nb as int);
            }
            let nbrs_j = in_b[j].len() > 0 || out_b[j].len() > 0;
            data.push(
                if nbrs_i && nbrs_j {
                    SCALE
                } else {
                    0
                },
            );
            j += 1;
            proof {
                assert forall|p: int, q: int| 0 <= p < i && 0 <= q < nb implies (#[trigger] data[p
                    * nb + q]) == crate::model::init_mat(g)[p][q] by {
                    crate::matrix::lemma_flat_index(p, q, i as int, nb as int);
                }
            }
        }
        i += 1;
        proof {
            assert(i as int * nb == (i - 1) * nb + nb) by (nonlinear_arith);
            assert forall|p: int, q: int| 0 <= p < i && 0 <= q < nb implies (#[trigger] data[p * nb
                + q]) == crate::model::init_mat(g)[p][q] by {
                crate::matrix::lemma_flat_index(p, q, i as int, nb as int);
                if p == i - 1 {
                    assert(data[(i - 1) * nb + q] == crate::model::init_mat(g)[i - 1][q]);
                }
            }
        }
    }
    let mut x = SimMatrix { rows: na, cols: nb, data };
    proof {
        assert(x@ =~~= crate::model::init_mat(g)) by {
            assert forall|p: int, q: int| 0 <= p < na && 0 <= q < nb implies x@[p][q]
                == crate::model::init_mat(g)[p][q] by {
                crate::matrix::lemma_flat_index(p, q, na as int, nb as int);
            }
        }
        assert forall|t: int| 0 <= t < x.data.len() implies (#[trigger] x.data[t]) <= SCALE by {
            let p = t / nb as int;
            let q = t % nb as int;
            assert(t == p * nb + q && 0 <= p < na && 0 <= q < nb) by (nonlinear_arith)
                requires
                    0 <= t < na * nb,
                    p == t / nb as int,
                    q == t % nb as int,
                    nb >= 1,
            ;
        }
    }
    let mut prev = SimMatrix::zeros(na, nb);
    let mut iter: usize = 0;
    loop
        invariant
            inputs_ok(in_a@, in_b@, out_a@, out_b@),
            g == pair_of(in_a@, in_b@, out_a@, out_b@),
            na == in_a@.len(),
            nb == in_b@.len(),
            x.wf(),
            x.rows == na,
            x.cols == nb,
            prev.wf(),
            prev.rows == na,
            prev.cols == nb,
            iter <= stop_after_iter,
            x@ == mat_at(g, iter as nat),
            prev@ == prev_mat(g, iter as nat),
            stop_from(g, eps, stop_after_iter as nat, iter as nat) == iters_of(
                g,
                eps,
                stop_after_iter as nat,
            ),
        ensures
            iter == iters_of(g, eps, stop_after_iter as nat),
            x.wf(),
            x.rows == na,
            x.cols == nb,
            x@ == mat_at(g, iter as nat),
        decreases stop_after_iter - iter,
    {
        if x.approx_eq(&prev, eps) || iter >= stop_after_iter {
            break ;
        }
        let nx = next_x(&x, in_a, in_b, out_a, out_b);
        prev = x;
        x = nx;
        iter += 1;
    }
    (iter, x)
}

/// The score form with the node correspondence: orient the two graphs
/// (rows never fewer than columns), iterate, then optimally assign the
/// first `n` rows to the `n` columns (`n` = the smaller node count) and
/// normalize the matched total by `n`. Returns the iteration count, the
/// score in `[0, SCALE]`, and the matched (row, column) pairs, indices
/// referring to the oriented graphs.
pub fn neighbor_matching_score_with_assignment(
    in_a: &Vec<Vec<usize>>,
    in_b: &Vec<Vec<usize>>,
    out_a: &Vec<Vec<usize>>,
    out_b: &Vec<Vec<usize>>,
    eps: u64,
    stop_after_iter: usize,
) -> (r: (usize, u64, Vec<(usize, usize)>))
    requires
        inputs_ok(in_a@, in_b@, out_a@, out_b@),
    ensures
        ({
            let g = pair_of(in_a@, in_b@, out_a@, out_b@);
            let n = g.oriented().nb();
            &&& r.0 == iters_of(g.oriented(), eps, stop_after_iter as nat)
            &&& r.0 <= stop_after_iter
            &&& r.1 as int == score_spec(g, eps, stop_after_iter as nat)
            &&& r.1 <= SCALE
            &&& crate::assign::is_assignment(r.2@, n)
            &&& n > 0 ==> crate::assign::match_sum(
                final_mat(g.oriented(), eps, stop_after_iter as nat),
                id_list(n),
                id_list(n),
                r.2@,
            ) == crate::assign::opt_match_sum(
                final_mat(g.oriented(), eps, stop_after_iter as nat),
                id_list(n),
                id_list(n),
                n,
            )
        }),
{
    let ghost g0 = pair_of(in_a@, in_b@, out_a@, out_b@);
    let swap = in_a.len() < in_b.len();
    let (ia, ib, oa, ob) = if swap {
        (in_b, in_a, out_b, out_a)
    } else {
        (in_a, in_b, out_a, out_b)
    };
    proof {
        assert(pair_of(in_b@, in_a@, out_b@, out_a@) == g0.swapped());
        assert(g0.swapped().wf());
        assert(pair_of(ia@, ib@, oa@, ob@) == g0.oriented());
    }
    let ghost g = g0.oriented();
    let (it, m) = neighbor_matching_matrix(ia, ib, oa, ob, eps, stop_after_iter);
    let n = m.ncols();
    if n == 0 {
        return (it, SCALE, Vec::new());
    }
    let mut idv: Vec<usize> = Vec::new();
    let mut a: usize = 0;
    while a < n
        invariant
            a <= n,
            idv.len() == a,
            forall|t: int| 0 <= t < a ==> (#[trigger] idv[t]) == t as usize,
        decreases n - a,
    {
        idv.push(a);
        a += 1;
    }
    proof {
        assert(idv@ =~= id_list(n as int));
        assert(n * n <= m.rows * m.cols) by (nonlinear_arith)
            requires
                n == m.cols,
                m.cols <= m.rows,
        ;
        m.lemma_wf_view();
    }
    let (total, ps) = optimal_match(&m, &idv, &idv, n);
    let sc = (total / (n as u128)) as u64;
    proof {
        lemma_div_in_range(total as int, n as int, n as int);
    }
    (it, sc, ps)
}

/// The score form: like `neighbor_matching_score_with_assignment`, but
/// returning only the iteration count and the score.
pub fn neighbor_matching_score(
    in_a: &Vec<Vec<usize>>,
    in_b: &Vec<Vec<usize>>,
    out_a: &Vec<Vec<usize>>,
    out_b: &Vec<Vec<usize>>,
    eps: u64,
    stop_after_iter: usize,
) -> (r: (usize, u64))
    requires
        inputs_ok(in_a@, in_b@, out_a@, out_b@),
    ensures
        ({
            let g = pair_of(in_a@, in_b@, out_a@, out_b@);
            &&& r.0 == iters_of(g.oriented(), eps, stop_after_iter as nat)
            &&& r.0 <= stop_after_iter
            &&& r.1 as int == score_spec(g, eps, stop_after_iter as nat)
            &&& r.1 <= SCALE
        }),
{
    let (it, sc, _) = neighbor_matching_score_with_assignment(
        in_a,
        in_b,
        out_a,
        out_b,
        eps,
        stop_after_iter,
    );
    (it, sc)
}

} // verus!
