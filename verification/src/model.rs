//! The mathematical model of the computation: adjacency views, the local
//! neighbor similarity, the Jacobi iteration of the similarity matrix,
//! the stopping time, and the final score. The executable functions'
//! contracts are stated over these definitions.

use vstd::math::{max, min};
use vstd::prelude::*;

use crate::assign::{in_range, lemma_div_in_range, lemma_opt_exists, opt_match_sum};
use crate::matrix::{mat_bounded, mat_dims, within_eps, zero_mat, SCALE};

verus! {

/// The adjacency lists of a pair of graphs: per node of graph A its
/// incoming and outgoing neighbor indices, and the same for graph B.
pub ghost struct GraphPair {
    pub in_a: Seq<Seq<usize>>,
    pub in_b: Seq<Seq<usize>>,
    pub out_a: Seq<Seq<usize>>,
    pub out_b: Seq<Seq<usize>>,
}

/// The view of caller-supplied adjacency lists.
pub open spec fn adj_view(v: Seq<Vec<usize>>) -> Seq<Seq<usize>> {
    Seq::new(v.len(), |i: int| v[i]@)
}

/// Every neighbor index in `l` refers to one of `n` nodes.
pub open spec fn adj_ok(l: Seq<Seq<usize>>, n: int) -> bool {
    forall|i: int| 0 <= i < l.len() ==> in_range(#[trigger] l[i], n)
}

/// No neighbor list is so long that the square of its length overflows a
/// `usize` (the solver's cost matrix of a local problem has up to
/// `degree * degree` cells).
pub open spec fn deg_ok(l: Seq<Seq<usize>>) -> bool {
    forall|i: int| 0 <= i < l.len() ==> (#[trigger] l[i]).len() * l[i].len() <= usize::MAX
}

impl GraphPair {
    pub open spec fn na(self) -> int {
        self.in_a.len() as int
    }

    pub open spec fn nb(self) -> int {
        self.in_b.len() as int
    }

    /// Well-formed input: per graph one incoming and one outgoing list
    /// per node, every neighbor index in range, and degrees as `deg_ok`
    /// asks.
    pub open spec fn wf(self) -> bool {
        &&& self.out_a.len() == self.na()
        &&& self.out_b.len() == self.nb()
        &&& self.na() <= usize::MAX
        &&& self.nb() <= usize::MAX
        &&& self.na() * self.nb() <= usize::MAX
        &&& adj_ok(self.in_a, self.na())
        &&& adj_ok(self.out_a, self.na())
        &&& adj_ok(self.in_b, self.nb())
        &&& adj_ok(self.out_b, self.nb())
        &&& deg_ok(self.in_a)
        &&& deg_ok(self.out_a)
        &&& deg_ok(self.in_b)
        &&& deg_ok(self.out_b)
    }

    /// The same pair with the roles of the two graphs exchanged.
    pub open spec fn swapped(self) -> GraphPair {
        GraphPair { in_a: self.in_b, in_b: self.in_a, out_a: self.out_b, out_b: self.out_a }
    }

    /// The orientation step: the iteration always runs with at least as
    /// many rows as columns.
    pub open spec fn oriented(self) -> GraphPair {
        if self.na() >= self.nb() {
            self
        } else {
            self.swapped()
        }
    }
}

/// Node `i` has at least one incoming or outgoing neighbor.
pub open spec fn has_nbrs(ins: Seq<Seq<usize>>, outs: Seq<Seq<usize>>, i: int) -> bool {
    ins[i].len() + outs[i].len() > 0
}

/// The local neighbor similarity of two neighbor lists under the current
/// matrix `m`: 1.0 if either list is empty (vacuous-truth rule); else the
/// best total similarity of a perfect matching between the first
/// `min_deg` entries of each list, divided by `max_deg`.
pub open spec fn local_sim(ni: Seq<usize>, nj: Seq<usize>, m: Seq<Seq<u64>>) -> int {
    if ni.len() == 0 || nj.len() == 0 {
        SCALE as int
    } else {
        opt_match_sum(m, ni, nj, min(ni.len() as int, nj.len() as int)) / max(
            ni.len() as int,
            nj.len() as int,
        )
    }
}

/// The initial matrix: `SCALE` where both nodes have at least one
/// neighbor in some direction, else 0.
pub open spec fn init_mat(g: GraphPair) -> Seq<Seq<u64>> {
    Seq::new(
        g.na() as nat,
        |i: int| Seq::new(
            g.nb() as nat,
            |j: int| if has_nbrs(g.in_a, g.out_a, i) && has_nbrs(g.in_b, g.out_b, j) {
                SCALE
            } else {
                0u64
            },
        ),
    )
}

/// One cell of the Jacobi step: the mean of the incoming-side and
/// outgoing-side local similarities of the node pair `(i, j)`, read off
/// the previous matrix only.
pub open spec fn step_cell(g: GraphPair, m: Seq<Seq<u64>>, i: int, j: int) -> int {
    (local_sim(g.in_a[i], g.in_b[j], m) + local_sim(g.out_a[i], g.out_b[j], m)) / 2
}

/// One full Jacobi step: every cell derived from the previous matrix.
pub open spec fn step_mat(g: GraphPair, m: Seq<Seq<u64>>) -> Seq<Seq<u64>> {
    Seq::new(
        g.na() as nat,
        |i: int| Seq::new(g.nb() as nat, |j: int| step_cell(g, m, i, j) as u64),
    )
}

/// The matrix after `t` iterations.
pub open spec fn mat_at(g: GraphPair, t: nat) -> Seq<Seq<u64>>
    decreases t,
{
    if t == 0 {
        init_mat(g)
    } else {
        step_mat(g, mat_at(g, (t - 1) as nat))
    }
}

/// What the matrix after `t` iterations is compared against by the
/// convergence test: the all-zero scratch matrix before the first
/// iteration, afterwards the previous matrix.
pub open spec fn prev_mat(g: GraphPair, t: nat) -> Seq<Seq<u64>> {
    if t == 0 {
        zero_mat(g.na(), g.nb())
    } else {
        mat_at(g, (t - 1) as nat)
    }
}

/// The convergence test before iteration `t` runs: every cell of the
/// current matrix is within `eps` of the comparison matrix. Before the
/// first iteration this compares the initial matrix against the all-zero
/// scratch matrix; an all-zero initial matrix therefore stops at 0
/// iterations by design.
pub open spec fn converged_at(g: GraphPair, eps: u64, t: nat) -> bool {
    within_eps(mat_at(g, t), prev_mat(g, t), eps)
}

/// The number of iterations performed, starting the count at `t`: the
/// first point at or after `t` where the convergence test holds or the
/// cap is reached.
pub open spec fn stop_from(g: GraphPair, eps: u64, cap: nat, t: nat) -> nat
    decreases cap - t,
{
    if t >= cap || converged_at(g, eps, t) {
        t
    } else {
        stop_from(g, eps, cap, (t + 1) as nat)
    }
}

/// The number of iterations the engine performs.
pub open spec fn iters_of(g: GraphPair, eps: u64, cap: nat) -> nat {
    stop_from(g, eps, cap, 0)
}

/// The matrix the engine returns.
pub open spec fn final_mat(g: GraphPair, eps: u64, cap: nat) -> Seq<Seq<u64>> {
    mat_at(g, iters_of(g, eps, cap))
}

/// The identity index list `0, 1, ..., n-1`.
pub open spec fn id_list(n: int) -> Seq<usize> {
    Seq::new(n as nat, |a: int| a as usize)
}

/// The score read off a converged oriented matrix whose smaller dimension
/// is `n`: the best total similarity of a perfect matching between the
/// first `n` rows and the `n` columns, divided by `n`. An empty matching
/// (`n == 0`) scores `SCALE` by the vacuous-truth convention.
pub open spec fn score_of_mat(m: Seq<Seq<u64>>, n: int) -> int {
    if n == 0 {
        SCALE as int
    } else {
        opt_match_sum(m, id_list(n), id_list(n), n) / n
    }
}

/// The score of a pair of graphs: orient, iterate, assign, normalize.
pub open spec fn score_spec(g: GraphPair, eps: u64, cap: nat) -> int {
    score_of_mat(final_mat(g.oriented(), eps, cap), g.oriented().nb())
}

/// The matrix after any number of iterations keeps the shape of the
/// graph pair and stays within `[0, SCALE]`.
pub proof fn lemma_mat_at_wf(g: GraphPair, t: nat)
    requires
        g.wf(),
    ensures
        mat_dims(mat_at(g, t), g.na(), g.nb()),
        mat_bounded(mat_at(g, t)),
    decreases t,
{
    if t == 0 {
        assert forall|i: int, j: int|
            0 <= i < g.na() && 0 <= j < mat_at(g, 0)[i].len() implies #[trigger] mat_at(g, 0)[i][j]
            <= SCALE by {}
    } else {
        let m = mat_at(g, (t - 1) as nat);
        lemma_mat_at_wf(g, (t - 1) as nat);
        assert forall|i: int, j: int|
            0 <= i < g.na() && 0 <= j < mat_at(g, t)[i].len() implies #[trigger] mat_at(g, t)[i][j]
            <= SCALE by {
            lemma_step_cell_in_range(g, m, i, j);
        }
    }
}

/// The local similarity lies in `[0, SCALE]`.
pub proof fn lemma_local_sim_in_range(ni: Seq<usize>, nj: Seq<usize>, m: Seq<Seq<u64>>, r: int, c: int)
    requires
        mat_dims(m, r, c),
        mat_bounded(m),
        in_range(ni, r),
        in_range(nj, c),
        ni.len() * ni.len() <= usize::MAX,
        nj.len() * nj.len() <= usize::MAX,
    ensures
        0 <= local_sim(ni, nj, m) <= SCALE,
{
    if ni.len() == 0 || nj.len() == 0 {
    } else {
        let k = min(ni.len() as int, nj.len() as int);
        let d = max(ni.len() as int, nj.len() as int);
        assert(k <= usize::MAX) by (nonlinear_arith)
            requires
                1 <= k,
                k <= ni.len(),
                ni.len() * ni.len() <= usize::MAX,
        ;
        lemma_opt_exists(m, r, c, ni, nj, k);
        lemma_div_in_range(opt_match_sum(m, ni, nj, k), k, d);
    }
}

/// One step cell lies in `[0, SCALE]`.
pub proof fn lemma_step_cell_in_range(g: GraphPair, m: Seq<Seq<u64>>, i: int, j: int)
    requires
        g.wf(),
        mat_dims(m, g.na(), g.nb()),
        mat_bounded(m),
        0 <= i < g.na(),
        0 <= j < g.nb(),
    ensures
        0 <= step_cell(g, m, i, j) <= SCALE,
{
    lemma_local_sim_in_range(g.in_a[i], g.in_b[j], m, g.na(), g.nb());
    lemma_local_sim_in_range(g.out_a[i], g.out_b[j], m, g.na(), g.nb());
}

/// The stopping point never lies before the start of the count nor after
/// the cap.
pub proof fn lemma_stop_from_range(g: GraphPair, eps: u64, cap: nat, t: nat)
    requires
        t <= cap,
    ensures
        t <= stop_from(g, eps, cap, t) <= cap,
    decreases cap - t,
{
    if !(t >= cap || converged_at(g, eps, t)) {
        lemma_stop_from_range(g, eps, cap, (t + 1) as nat);
    }
}

/// The engine performs at most `cap` iterations.
pub proof fn lemma_iters_within_cap(g: GraphPair, eps: u64, cap: nat)
    ensures
        iters_of(g, eps, cap) <= cap,
{
    lemma_stop_from_range(g, eps, cap, 0);
}

} // verus!
