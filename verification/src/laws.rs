//! The general properties of the scoring pipeline, stated and proved
//! over the model: symmetry of the score under swapping the two graphs,
//! self-comparison scoring 1.0, and monotonicity of the iteration count
//! in the cap and the tolerance.

use vstd::arithmetic::div_mod::lemma_div_multiples_vanish;
use vstd::math::{max, min};
use vstd::prelude::*;

use crate::assign::{
    in_range,
    is_assignment,
    lemma_opt_diag,
    lemma_opt_exists,
    match_sum,
    opt_match_sum,
    pair_weight,
};
use crate::matrix::{abs_diff, mat_bounded, mat_dims, within_eps, SCALE};
use crate::model::{
    converged_at,
    final_mat,
    has_nbrs,
    id_list,
    init_mat,
    iters_of,
    lemma_mat_at_wf,
    local_sim,
    mat_at,
    prev_mat,
    score_spec,
    step_cell,
    step_mat,
    stop_from,
    GraphPair,
};

verus! {

// ---------------------------------------------------------------------
// Iteration-count monotonicity
// ---------------------------------------------------------------------
/// The stopping point never lies before the start of the count.
proof fn lemma_stop_from_ge(g: GraphPair, eps: u64, cap: nat, t: nat)
    ensures
        stop_from(g, eps, cap, t) >= t,
    decreases cap - t,
{
    if !(t >= cap || converged_at(g, eps, t)) {
        lemma_stop_from_ge(g, eps, cap, (t + 1) as nat);
    }
}

proof fn lemma_stop_from_cap_monotone(g: GraphPair, eps: u64, cap1: nat, cap2: nat, t: nat)
    requires
        cap1 <= cap2,
    ensures
        stop_from(g, eps, cap1, t) <= stop_from(g, eps, cap2, t),
    decreases cap1 - t,
{
    if t >= cap1 || converged_at(g, eps, t) {
        lemma_stop_from_ge(g, eps, cap2, t);
    } else {
        lemma_stop_from_cap_monotone(g, eps, cap1, cap2, (t + 1) as nat);
    }
}

/// Raising the iteration cap (for a fixed tolerance) never lowers the
/// number of iterations performed.
pub proof fn lemma_cap_monotone(g: GraphPair, eps: u64, cap1: nat, cap2: nat)
    requires
        cap1 <= cap2,
    ensures
        iters_of(g, eps, cap1) <= iters_of(g, eps, cap2),
{
    lemma_stop_from_cap_monotone(g, eps, cap1, cap2, 0);
}

proof fn lemma_stop_from_eps_antitone(g: GraphPair, eps1: u64, eps2: u64, cap: nat, t: nat)
    requires
        eps2 <= eps1,
    ensures
        stop_from(g, eps1, cap, t) <= stop_from(g, eps2, cap, t),
    decreases cap - t,
{
    if t >= cap || converged_at(g, eps1, t) {
        lemma_stop_from_ge(g, eps2, cap, t);
    } else {
        assert(!converged_at(g, eps2, t)) by {
            if converged_at(g, eps2, t) {
                assert forall|i: int, j: int|
                    0 <= i < mat_at(g, t).len() && 0 <= j < mat_at(g, t)[i].len() implies abs_diff(
                    #[trigger] mat_at(g, t)[i][j] as int,
                    prev_mat(g, t)[i][j] as int,
                ) <= eps1 by {
                    assert(abs_diff(mat_at(g, t)[i][j] as int, prev_mat(g, t)[i][j] as int)
                        <= eps2);
                }
            }
        }
        lemma_stop_from_eps_antitone(g, eps1, eps2, cap, (t + 1) as nat);
    }
}

/// Tightening the tolerance (for a fixed cap) never lowers the number of
/// iterations performed.
pub proof fn lemma_eps_antitone(g: GraphPair, eps1: u64, eps2: u64, cap: nat)
    requires
        eps2 <= eps1,
    ensures
        iters_of(g, eps1, cap) <= iters_of(g, eps2, cap),
{
    lemma_stop_from_eps_antitone(g, eps1, eps2, cap, 0);
}

// ---------------------------------------------------------------------
// Self-identity
// ---------------------------------------------------------------------
/// The graph pair comparing one graph with itself.
pub open spec fn self_pair(ins: Seq<Seq<usize>>, outs: Seq<Seq<usize>>) -> GraphPair {
    GraphPair { in_a: ins, in_b: ins, out_a: outs, out_b: outs }
}

/// Every node that appears in some neighbor list has at least one edge
/// of its own. This holds of every consistent adjacency description
/// (a node listed as an in-neighbor of `i` has the out-edge to `i`, and
/// conversely).
pub open spec fn neighbors_have_edges(ins: Seq<Seq<usize>>, outs: Seq<Seq<usize>>) -> bool {
    &&& forall|i: int, a: int|
        0 <= i < ins.len() && 0 <= a < ins[i].len() ==> has_nbrs(ins, outs, #[trigger] ins[i][a] as int)
    &&& forall|i: int, a: int|
        0 <= i < outs.len() && 0 <= a < outs[i].len() ==> has_nbrs(ins, outs, #[trigger] outs[i][a] as int)
}

/// Matching a neighbor list against itself under a matrix whose relevant
/// diagonal cells are all `SCALE` yields the perfect local similarity.
proof fn lemma_local_sim_self(ni: Seq<usize>, m: Seq<Seq<u64>>, n: int)
    requires
        mat_dims(m, n, n),
        mat_bounded(m),
        in_range(ni, n),
        ni.len() * ni.len() <= usize::MAX,
        forall|a: int| 0 <= a < ni.len() ==> m[(#[trigger] ni[a]) as int][ni[a] as int] == SCALE,
    ensures
        local_sim(ni, ni, m) == SCALE,
{
    if ni.len() == 0 {
    } else {
        let k = ni.len() as int;
        assert(k <= usize::MAX) by (nonlinear_arith)
            requires
                1 <= k,
                k * k <= usize::MAX,
        ;
        assert(forall|a: int| 0 <= a < k ==> pair_weight(m, ni, ni, a, a) == SCALE);
        lemma_opt_diag(m, n, n, ni, ni, k);
        assert(min(k, k) == k && max(k, k) == k);
        lemma_div_multiples_vanish(SCALE as int, k);
    }
}

/// After at least one iteration of a self-comparison, every diagonal
/// cell of the matrix is `SCALE`: each node paired with itself is
/// perfectly similar. (Off-diagonal cells of a self-comparison need not
/// reach `SCALE`, even where both nodes have edges.)
pub proof fn lemma_self_diag(ins: Seq<Seq<usize>>, outs: Seq<Seq<usize>>, t: nat)
    requires
        self_pair(ins, outs).wf(),
        neighbors_have_edges(ins, outs),
        t >= 1,
    ensures
        forall|i: int|
            0 <= i < ins.len() ==> mat_at(self_pair(ins, outs), t)[i][i] == SCALE,
    decreases t,
{
    let g = self_pair(ins, outs);
    let n = ins.len() as int;
    let m = mat_at(g, (t - 1) as nat);
    lemma_mat_at_wf(g, (t - 1) as nat);
    if t == 1 {
    } else {
        lemma_self_diag(ins, outs, (t - 1) as nat);
    }
    assert forall|i: int| 0 <= i < n implies mat_at(g, t)[i][i] == SCALE by {
        assert forall|a: int| 0 <= a < ins[i].len() implies m[(#[trigger] ins[i][a]) as int][ins[i][a] as int]
            == SCALE by {
            let v = ins[i][a] as int;
            assert(has_nbrs(ins, outs, v));
            if t == 1 {
                assert(m == init_mat(g));
            }
        }
        assert forall|a: int| 0 <= a < outs[i].len() implies m[(#[trigger] outs[i][a]) as int][outs[i][a] as int]
            == SCALE by {
            let v = outs[i][a] as int;
            assert(has_nbrs(ins, outs, v));
            if t == 1 {
                assert(m == init_mat(g));
            }
        }
        lemma_local_sim_self(ins[i], m, n);
        lemma_local_sim_self(outs[i], m, n);
        assert(step_cell(g, m, i, i) == SCALE);
        assert(mat_at(g, t)[i][i] == step_mat(g, m)[i][i]);
    }
}

/// Self-identity: comparing any graph with itself scores exactly 1.0,
/// already at a cap of one iteration, provided the tolerance is below
/// 1.0 and the graph is either empty or has at least one edge.
pub proof fn lemma_self_identity(ins: Seq<Seq<usize>>, outs: Seq<Seq<usize>>, eps: u64, cap: nat)
    requires
        self_pair(ins, outs).wf(),
        neighbors_have_edges(ins, outs),
        eps < SCALE,
        cap >= 1,
        ins.len() == 0 || exists|i: int| 0 <= i < ins.len() && has_nbrs(ins, outs, i),
    ensures
        score_spec(self_pair(ins, outs), eps, cap) == SCALE,
{
    let g = self_pair(ins, outs);
    let n = ins.len() as int;
    assert(g.oriented() == g);
    if n == 0 {
    } else {
        let i0 = choose|i: int| 0 <= i < n && has_nbrs(ins, outs, i);
        assert(!converged_at(g, eps, 0)) by {
            assert(mat_at(g, 0)[i0][i0] == SCALE);
            assert(prev_mat(g, 0)[i0][i0] == 0);
            assert(abs_diff(mat_at(g, 0)[i0][i0] as int, prev_mat(g, 0)[i0][i0] as int) > eps);
        }
        let tt = iters_of(g, eps, cap);
        assert(tt == stop_from(g, eps, cap, 1));
        lemma_stop_from_ge(g, eps, cap, 1);
        lemma_self_diag(ins, outs, tt);
        let fm = final_mat(g, eps, cap);
        lemma_mat_at_wf(g, tt);
        assert forall|a: int| 0 <= a < n implies pair_weight(fm, id_list(n), id_list(n), a, a)
            == SCALE by {
            assert(id_list(n)[a] == a as usize);
        }
        lemma_opt_diag(fm, n, n, id_list(n), id_list(n), n);
        lemma_div_multiples_vanish(SCALE as int, n);
    }
}

// ---------------------------------------------------------------------
// Swap symmetry
// ---------------------------------------------------------------------
/// The transpose of an `r x c` matrix.
pub open spec fn transpose_of(m: Seq<Seq<u64>>, r: int, c: int) -> Seq<Seq<u64>> {
    Seq::new(c as nat, |j: int| Seq::new(r as nat, |i: int| m[i][j]))
}

/// Each assignment pair with its row and column exchanged.
pub open spec fn swap_pairs(ps: Seq<(usize, usize)>) -> Seq<(usize, usize)> {
    ps.map_values(|p: (usize, usize)| (p.1, p.0))
}

proof fn lemma_swap_pairs_assignment(ps: Seq<(usize, usize)>, k: int)
    requires
        is_assignment(ps, k),
    ensures
        is_assignment(swap_pairs(ps), k),
{
}

proof fn lemma_match_sum_transpose(
    m: Seq<Seq<u64>>,
    r: int,
    c: int,
    ni: Seq<usize>,
    nj: Seq<usize>,
    ps: Seq<(usize, usize)>,
)
    requires
        mat_dims(m, r, c),
        in_range(ni, r),
        in_range(nj, c),
        forall|a: int| 0 <= a < ps.len() ==> (#[trigger] ps[a]).0 < ni.len() && ps[a].1 < nj.len(),
    ensures
        match_sum(transpose_of(m, r, c), nj, ni, swap_pairs(ps)) == match_sum(m, ni, nj, ps),
    decreases ps.len(),
{
    if ps.len() > 0 {
        let pre = ps.drop_last();
        assert(forall|a: int|
            0 <= a < pre.len() ==> (#[trigger] pre[a]).0 < ni.len() && pre[a].1 < nj.len());
        lemma_match_sum_transpose(m, r, c, ni, nj, pre);
        assert(swap_pairs(ps).drop_last() =~= swap_pairs(pre));
        assert(swap_pairs(ps).last() == (ps.last().1, ps.last().0));
        let p0 = ps.last().0 as int;
        let p1 = ps.last().1 as int;
        assert(pair_weight(transpose_of(m, r, c), nj, ni, p1, p0) == pair_weight(m, ni, nj, p0, p1));
    }
}

proof fn lemma_opt_transpose(m: Seq<Seq<u64>>, r: int, c: int, ni: Seq<usize>, nj: Seq<usize>, k: int)
    requires
        1 <= k <= usize::MAX,
        k <= ni.len(),
        k <= nj.len(),
        mat_dims(m, r, c),
        mat_bounded(m),
        in_range(ni, r),
        in_range(nj, c),
    ensures
        opt_match_sum(transpose_of(m, r, c), nj, ni, k) == opt_match_sum(m, ni, nj, k),
{
    let mt = transpose_of(m, r, c);
    // the index lists are nonempty, so both dimensions are positive
    assert(0 <= ni[0] < r);
    assert(0 <= nj[0] < c);
    assert(mat_dims(mt, c, r));
    assert(mat_bounded(mt));
    lemma_opt_exists(m, r, c, ni, nj, k);
    lemma_opt_exists(mt, c, r, nj, ni, k);
    let o = opt_match_sum(m, ni, nj, k);
    let ot = opt_match_sum(mt, nj, ni, k);
    assert(transpose_of(mt, c, r) =~~= m);
    // the witness on one side maps to the other side
    let ps = choose|ps: Seq<(usize, usize)>|
        #[trigger] is_assignment(ps, k) && match_sum(m, ni, nj, ps) == o;
    lemma_swap_pairs_assignment(ps, k);
    lemma_match_sum_transpose(m, r, c, ni, nj, ps);
    assert(match_sum(mt, nj, ni, swap_pairs(ps)) == o);
    assert(o <= ot);
    let qs = choose|qs: Seq<(usize, usize)>|
        #[trigger] is_assignment(qs, k) && match_sum(mt, nj, ni, qs) == ot;
    lemma_swap_pairs_assignment(qs, k);
    lemma_match_sum_transpose(mt, c, r, nj, ni, qs);
    assert(match_sum(m, ni, nj, swap_pairs(qs)) == ot);
    assert(ot <= o);
}

proof fn lemma_local_sim_transpose(ni: Seq<usize>, nj: Seq<usize>, m: Seq<Seq<u64>>, r: int, c: int)
    requires
        mat_dims(m, r, c),
        mat_bounded(m),
        in_range(ni, r),
        in_range(nj, c),
        ni.len() * ni.len() <= usize::MAX,
        nj.len() * nj.len() <= usize::MAX,
    ensures
        local_sim(nj, ni, transpose_of(m, r, c)) == local_sim(ni, nj, m),
{
    if ni.len() == 0 || nj.len() == 0 {
    } else {
        let k = min(ni.len() as int, nj.len() as int);
        assert(k <= usize::MAX) by (nonlinear_arith)
            requires
                1 <= k,
                k <= ni.len(),
                ni.len() * ni.len() <= usize::MAX,
        ;
        lemma_opt_transpose(m, r, c, ni, nj, k);
        assert(min(nj.len() as int, ni.len() as int) == k);
        assert(max(nj.len() as int, ni.len() as int) == max(ni.len() as int, nj.len() as int));
    }
}

proof fn lemma_step_transpose(g: GraphPair, m: Seq<Seq<u64>>)
    requires
        g.wf(),
        mat_dims(m, g.na(), g.nb()),
        mat_bounded(m),
    ensures
        step_mat(g.swapped(), transpose_of(m, g.na(), g.nb())) == transpose_of(
            step_mat(g, m),
            g.na(),
            g.nb(),
        ),
{
    let r = g.na();
    let c = g.nb();
    let mt = transpose_of(m, r, c);
    assert(step_mat(g.swapped(), mt) =~~= transpose_of(step_mat(g, m), r, c)) by {
        assert forall|j: int, i: int| 0 <= j < c && 0 <= i < r implies step_mat(g.swapped(), mt)[j][i]
            == transpose_of(step_mat(g, m), r, c)[j][i] by {
            lemma_local_sim_transpose(g.in_a[i], g.in_b[j], m, r, c);
            lemma_local_sim_transpose(g.out_a[i], g.out_b[j], m, r, c);
            assert(step_cell(g.swapped(), mt, j, i) == step_cell(g, m, i, j));
        }
    }
}

proof fn lemma_mat_at_transpose(g: GraphPair, t: nat)
    requires
        g.wf(),
    ensures
        mat_at(g.swapped(), t) == transpose_of(mat_at(g, t), g.na(), g.nb()),
    decreases t,
{
    let r = g.na();
    let c = g.nb();
    if t == 0 {
        assert(init_mat(g.swapped()) =~~= transpose_of(init_mat(g), r, c));
    } else {
        lemma_mat_at_transpose(g, (t - 1) as nat);
        lemma_mat_at_wf(g, (t - 1) as nat);
        lemma_step_transpose(g, mat_at(g, (t - 1) as nat));
    }
}

proof fn lemma_converged_transpose(g: GraphPair, eps: u64, t: nat)
    requires
        g.wf(),
    ensures
        converged_at(g.swapped(), eps, t) == converged_at(g, eps, t),
{
    let r = g.na();
    let c = g.nb();
    lemma_mat_at_transpose(g, t);
    lemma_mat_at_wf(g, t);
    if t == 0 {
        assert(prev_mat(g.swapped(), 0) =~~= transpose_of(prev_mat(g, 0), r, c));
    } else {
        lemma_mat_at_transpose(g, (t - 1) as nat);
        lemma_mat_at_wf(g, (t - 1) as nat);
    }
    let m1 = mat_at(g, t);
    let p1 = prev_mat(g, t);
    if within_eps(m1, p1, eps) {
        assert forall|j: int, i: int|
            0 <= j < c && 0 <= i < transpose_of(m1, r, c)[j].len() implies abs_diff(
            #[trigger] transpose_of(m1, r, c)[j][i] as int,
            transpose_of(p1, r, c)[j][i] as int,
        ) <= eps by {
            assert(abs_diff(m1[i][j] as int, p1[i][j] as int) <= eps);
        }
    }
    if within_eps(transpose_of(m1, r, c), transpose_of(p1, r, c), eps) {
        assert forall|i: int, j: int|
            0 <= i < m1.len() && 0 <= j < m1[i].len() implies abs_diff(
            #[trigger] m1[i][j] as int,
            p1[i][j] as int,
        ) <= eps by {
            assert(abs_diff(
                transpose_of(m1, r, c)[j][i] as int,
                transpose_of(p1, r, c)[j][i] as int,
            ) <= eps);
        }
    }
}

proof fn lemma_stop_transpose(g: GraphPair, eps: u64, cap: nat, t: nat)
    requires
        g.wf(),
    ensures
        stop_from(g.swapped(), eps, cap, t) == stop_from(g, eps, cap, t),
    decreases cap - t,
{
    lemma_converged_transpose(g, eps, t);
    if !(t >= cap || converged_at(g, eps, t)) {
        lemma_stop_transpose(g, eps, cap, (t + 1) as nat);
    }
}

/// Swap symmetry: neither the score nor the reported iteration count
/// (that of the oriented pair) depends on the order in which the two
/// graphs are given. The orientation step makes this an algebraic
/// identity.
pub proof fn lemma_swap_symmetry(g: GraphPair, eps: u64, cap: nat)
    requires
        g.wf(),
    ensures
        score_spec(g.swapped(), eps, cap) == score_spec(g, eps, cap),
        iters_of(g.swapped().oriented(), eps, cap) == iters_of(g.oriented(), eps, cap),
{
    if g.na() > g.nb() {
        assert(g.swapped().oriented() == g);
        assert(g.oriented() == g);
    } else if g.na() < g.nb() {
        assert(g.swapped().oriented() == g.swapped());
        assert(g.oriented() == g.swapped());
    } else {
        let n = g.na();
        assert(g.oriented() == g);
        assert(g.swapped().oriented() == g.swapped());
        assert(g.swapped().wf());
        lemma_stop_transpose(g, eps, cap, 0);
        let tt = iters_of(g, eps, cap);
        assert(iters_of(g.swapped(), eps, cap) == tt);
        lemma_mat_at_transpose(g, tt);
        let fm = final_mat(g, eps, cap);
        lemma_mat_at_wf(g, tt);
        if n > 0 {
            lemma_opt_transpose(fm, n, n, id_list(n), id_list(n), n);
        }
    }
}

} // verus!
