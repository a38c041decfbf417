//! The assignment (optimal one-to-one matching) layer.
//!
//! A square `k x k` problem is described by two index lists `ni`, `nj`
//! selecting rows and columns of a similarity matrix; an assignment is a
//! sequence of `k` (row, column) pairs using each row index and each
//! column index exactly once. The solver of the `munkres` crate minimizes
//! total cost; similarities are turned into costs by `SCALE - w`, so a
//! minimum-cost solution maximizes the total matched similarity. The
//! maximal total is unique, which makes `opt_match_sum` a well-defined
//! function of the matrix and the index lists.

use vstd::arithmetic::div_mod::{
    lemma_div_is_ordered,
    lemma_div_multiples_vanish,
    lemma_div_pos_is_pos,
};
use vstd::arithmetic::mul::lemma_mul_inequality;
use vstd::prelude::*;

use crate::matrix::{lemma_flat_index, mat_bounded, mat_dims, SimMatrix, SCALE};

verus! {

/// Every entry of the index list `l` is below `n`.
pub open spec fn in_range(l: Seq<usize>, n: int) -> bool {
    forall|a: int| 0 <= a < l.len() ==> (#[trigger] l[a]) < n
}

/// `ps` is a perfect assignment on a `k x k` problem: `k` pairs, entries
/// below `k`, no row and no column used twice.
pub open spec fn is_assignment(ps: Seq<(usize, usize)>, k: int) -> bool {
    &&& ps.len() == k
    &&& forall|a: int| 0 <= a < k ==> (#[trigger] ps[a]).0 < k && ps[a].1 < k
    &&& forall|a: int, b: int|
        0 <= a < b < k ==> (#[trigger] ps[a]).0 != (#[trigger] ps[b]).0 && ps[a].1 != ps[b].1
}

/// The similarity selected for local pair `(a, b)`: the matrix cell at
/// row `ni[a]`, column `nj[b]`.
pub open spec fn pair_weight(m: Seq<Seq<u64>>, ni: Seq<usize>, nj: Seq<usize>, a: int, b: int) -> int {
    m[ni[a] as int][nj[b] as int] as int
}

/// Total similarity matched by the assignment `ps`.
pub open spec fn match_sum(m: Seq<Seq<u64>>, ni: Seq<usize>, nj: Seq<usize>, ps: Seq<(usize, usize)>) -> int
    decreases ps.len(),
{
    if ps.len() == 0 {
        0
    } else {
        match_sum(m, ni, nj, ps.drop_last()) + pair_weight(
            m,
            ni,
            nj,
            ps.last().0 as int,
            ps.last().1 as int,
        )
    }
}

/// Total cost of the assignment `ps` on a flat row-major `k x k` cost
/// matrix.
pub open spec fn cost_sum(costs: Seq<u64>, k: int, ps: Seq<(usize, usize)>) -> int
    decreases ps.len(),
{
    if ps.len() == 0 {
        0
    } else {
        cost_sum(costs, k, ps.drop_last()) + costs[ps.last().0 * k + ps.last().1]
    }
}

/// `v` is the best (largest) total similarity any assignment achieves.
pub open spec fn is_opt_match(m: Seq<Seq<u64>>, ni: Seq<usize>, nj: Seq<usize>, k: int, v: int) -> bool {
    &&& exists|ps: Seq<(usize, usize)>|
        #[trigger] is_assignment(ps, k) && match_sum(m, ni, nj, ps) == v
    &&& forall|ps: Seq<(usize, usize)>|
        #[trigger] is_assignment(ps, k) ==> match_sum(m, ni, nj, ps) <= v
}

/// The best total similarity over all assignments of the `k x k` problem.
pub open spec fn opt_match_sum(m: Seq<Seq<u64>>, ni: Seq<usize>, nj: Seq<usize>, k: int) -> int {
    choose|v: int| is_opt_match(m, ni, nj, k, v)
}

/// The identity assignment: pair `a` with `a`.
pub open spec fn id_pairs(k: int) -> Seq<(usize, usize)> {
    Seq::new(k as nat, |a: int| (a as usize, a as usize))
}

/// `mx` satisfies `p` and bounds everything that satisfies `p`.
pub open spec fn is_max_of(p: spec_fn(int) -> bool, mx: int) -> bool {
    p(mx) && forall|v: int| #[trigger] p(v) ==> v <= mx
}

/// A property of integers that holds somewhere and only within bounds has
/// a maximal witness.
proof fn lemma_exists_max(p: spec_fn(int) -> bool, lo: int, hi: int)
    requires
        exists|v: int| #[trigger] p(v),
        forall|v: int| #[trigger] p(v) ==> lo <= v <= hi,
    ensures
        exists|mx: int| #[trigger] is_max_of(p, mx),
    decreases hi - lo,
{
    let w = choose|v: int| #[trigger] p(v);
    if p(hi) {
        assert(is_max_of(p, hi));
    } else {
        assert(forall|v: int| #[trigger] p(v) ==> lo <= v <= hi - 1);
        lemma_exists_max(p, lo, hi - 1);
    }
}

/// Any assignment's total similarity lies in `[0, len * SCALE]`.
pub proof fn lemma_match_sum_bounds(
    m: Seq<Seq<u64>>,
    r: int,
    c: int,
    ni: Seq<usize>,
    nj: Seq<usize>,
    ps: Seq<(usize, usize)>,
)
    requires
        mat_dims(m, r, c),
        mat_bounded(m),
        in_range(ni, r),
        in_range(nj, c),
        forall|a: int| 0 <= a < ps.len() ==> (#[trigger] ps[a]).0 < ni.len() && ps[a].1 < nj.len(),
    ensures
        0 <= match_sum(m, ni, nj, ps) <= ps.len() * SCALE,
    decreases ps.len(),
{
    if ps.len() > 0 {
        let pre = ps.drop_last();
        assert(forall|a: int|
            0 <= a < pre.len() ==> (#[trigger] pre[a]).0 < ni.len() && pre[a].1 < nj.len());
        lemma_match_sum_bounds(m, r, c, ni, nj, pre);
        assert(0 <= pair_weight(m, ni, nj, ps.last().0 as int, ps.last().1 as int) <= SCALE);
        assert(ps.len() * SCALE == pre.len() * SCALE + SCALE) by (nonlinear_arith)
            requires
                ps.len() == pre.len() + 1,
        ;
    }
}

/// The identity pairs form a valid assignment.
pub proof fn lemma_id_pairs(k: int)
    requires
        0 <= k <= usize::MAX,
    ensures
        is_assignment(id_pairs(k), k),
{
}

/// With the costs set to `SCALE - similarity`, cost and similarity totals
/// of one assignment are complementary.
pub proof fn lemma_cost_weight_sum(
    costs: Seq<u64>,
    m: Seq<Seq<u64>>,
    ni: Seq<usize>,
    nj: Seq<usize>,
    k: int,
    ps: Seq<(usize, usize)>,
)
    requires
        costs.len() == k * k,
        forall|a: int, b: int|
            0 <= a < k && 0 <= b < k ==> (#[trigger] costs[a * k + b]) as int == SCALE
                - pair_weight(m, ni, nj, a, b),
        forall|a: int| 0 <= a < ps.len() ==> (#[trigger] ps[a]).0 < k && ps[a].1 < k,
    ensures
        cost_sum(costs, k, ps) == ps.len() * SCALE - match_sum(m, ni, nj, ps),
    decreases ps.len(),
{
    if ps.len() > 0 {
        let pre = ps.drop_last();
        assert(forall|a: int| 0 <= a < pre.len() ==> (#[trigger] pre[a]).0 < k && pre[a].1 < k);
        lemma_cost_weight_sum(costs, m, ni, nj, k, pre);
        let p0 = ps.last().0 as int;
        let p1 = ps.last().1 as int;
        lemma_flat_index(p0, p1, k, k);
        assert(costs[p0 * k + p1] as int == SCALE - pair_weight(m, ni, nj, p0, p1));
        assert(ps.len() * SCALE == pre.len() * SCALE + SCALE) by (nonlinear_arith)
            requires
                ps.len() == pre.len() + 1,
        ;
    }
}

/// The best total exists, `opt_match_sum` equals it, and it lies in
/// `[0, k * SCALE]`.
pub proof fn lemma_opt_exists(
    m: Seq<Seq<u64>>,
    r: int,
    c: int,
    ni: Seq<usize>,
    nj: Seq<usize>,
    k: int,
)
    requires
        1 <= k <= usize::MAX,
        k <= ni.len(),
        k <= nj.len(),
        mat_dims(m, r, c),
        mat_bounded(m),
        in_range(ni, r),
        in_range(nj, c),
    ensures
        is_opt_match(m, ni, nj, k, opt_match_sum(m, ni, nj, k)),
        0 <= opt_match_sum(m, ni, nj, k) <= k * SCALE,
{
    let p = |v: int|
        exists|ps: Seq<(usize, usize)>|
            #[trigger] is_assignment(ps, k) && match_sum(m, ni, nj, ps) == v;
    lemma_id_pairs(k);
    let s0 = match_sum(m, ni, nj, id_pairs(k));
    assert(p(s0));
    assert forall|v: int| #[trigger] p(v) implies 0 <= v <= k * SCALE by {
        let ps = choose|ps: Seq<(usize, usize)>|
            #[trigger] is_assignment(ps, k) && match_sum(m, ni, nj, ps) == v;
        lemma_match_sum_bounds(m, r, c, ni, nj, ps);
    }
    lemma_exists_max(p, 0, k * SCALE);
    let mx = choose|mx: int| #[trigger] is_max_of(p, mx);
    assert(is_opt_match(m, ni, nj, k, mx)) by {
        assert forall|ps: Seq<(usize, usize)>| #[trigger] is_assignment(ps, k) implies match_sum(
            m,
            ni,
            nj,
            ps,
        ) <= mx by {
            assert(p(match_sum(m, ni, nj, ps)));
        }
    }
    lemma_opt_unique(m, ni, nj, k, mx);
    assert(0 <= mx <= k * SCALE) by {
        assert(p(mx));
    }
}

/// The best total is unique: any value that is optimal equals
/// `opt_match_sum`.
pub proof fn lemma_opt_unique(m: Seq<Seq<u64>>, ni: Seq<usize>, nj: Seq<usize>, k: int, v: int)
    requires
        is_opt_match(m, ni, nj, k, v),
    ensures
        opt_match_sum(m, ni, nj, k) == v,
{
    let o = opt_match_sum(m, ni, nj, k);
    assert(is_opt_match(m, ni, nj, k, o)) by {
        assert(exists|w: int| is_opt_match(m, ni, nj, k, w));
    }
    let ps_v = choose|ps: Seq<(usize, usize)>|
        #[trigger] is_assignment(ps, k) && match_sum(m, ni, nj, ps) == v;
    let ps_o = choose|ps: Seq<(usize, usize)>|
        #[trigger] is_assignment(ps, k) && match_sum(m, ni, nj, ps) == o;
    assert(v <= o && o <= v);
}

/// If the diagonal of the selected submatrix is all `SCALE`, the best
/// total is `k * SCALE` (and the identity assignment reaches it).
pub proof fn lemma_opt_diag(
    m: Seq<Seq<u64>>,
    r: int,
    c: int,
    ni: Seq<usize>,
    nj: Seq<usize>,
    k: int,
)
    requires
        1 <= k <= usize::MAX,
        k <= ni.len(),
        k <= nj.len(),
        mat_dims(m, r, c),
        mat_bounded(m),
        in_range(ni, r),
        in_range(nj, c),
        forall|a: int| 0 <= a < k ==> pair_weight(m, ni, nj, a, a) == SCALE,
    ensures
        opt_match_sum(m, ni, nj, k) == k * SCALE,
{
    lemma_id_pairs(k);
    lemma_id_sum(m, ni, nj, k, k);
    assert(is_opt_match(m, ni, nj, k, k * SCALE)) by {
        assert(is_assignment(id_pairs(k), k) && match_sum(m, ni, nj, id_pairs(k)) == k * SCALE);
        assert forall|ps: Seq<(usize, usize)>| #[trigger] is_assignment(ps, k) implies match_sum(
            m,
            ni,
            nj,
            ps,
        ) <= k * SCALE by {
            lemma_match_sum_bounds(m, r, c, ni, nj, ps);
        }
    }
    lemma_opt_unique(m, ni, nj, k, k * SCALE);
}

/// The identity assignment on the first `t` pairs sums the diagonal.
proof fn lemma_id_sum(m: Seq<Seq<u64>>, ni: Seq<usize>, nj: Seq<usize>, k: int, t: int)
    requires
        0 <= t <= k <= usize::MAX,
        forall|a: int| 0 <= a < k ==> pair_weight(m, ni, nj, a, a) == SCALE,
    ensures
        match_sum(m, ni, nj, id_pairs(t)) == t * SCALE,
    decreases t,
{
    if t > 0 {
        assert(id_pairs(t).drop_last() =~= id_pairs(t - 1));
        lemma_id_sum(m, ni, nj, k, t - 1);
        assert(t * SCALE == (t - 1) * SCALE + SCALE) by (nonlinear_arith);
    }
}

/// Dividing a total of at most `k * SCALE` by a denominator of at least
/// `k` lands in `[0, SCALE]`.
pub proof fn lemma_div_in_range(v: int, k: int, d: int)
    requires
        0 <= v <= k * SCALE,
        1 <= k <= d,
    ensures
        0 <= v / d <= SCALE,
{
    lemma_mul_inequality(k, d, SCALE as int);
    lemma_div_is_ordered(v, d * SCALE, d);
    lemma_div_multiples_vanish(SCALE as int, d);
    lemma_div_pos_is_pos(v, d);
}

/// Relies on `munkres::solve_assignment` (Kuhn-Munkres / Hungarian
/// algorithm): on a square `k x k` cost matrix it returns one matched
/// position per row and per column, minimizing the total cost of the
/// matched cells. On integer weights the call always succeeds:
/// `is_solvable` is identically true (every `i64` weight is valid), and
/// neither failure branch of the algorithm can fire — step 5 always
/// finds a primed zero in a covered row, and step 6 always finds an
/// uncovered valid cell because fewer than `k` lines are ever covered.
/// The `Err` branch below is therefore unreachable.
#[verifier::external_body]
fn solve_min_cost(costs: &Vec<u64>, k: usize) -> (r: Vec<(usize, usize)>)
    requires
        1 <= k,
        costs.len() == k * k,
        forall|t: int| 0 <= t < costs.len() ==> (#[trigger] costs[t]) <= SCALE,
    ensures
        is_assignment(r@, k as int),
        forall|q: Seq<(usize, usize)>|
            #[trigger] is_assignment(q, k as int) ==> cost_sum(costs@, k as int, r@) <= cost_sum(
                costs@,
                k as int,
                q,
            ),
{
    let data: Vec<i64> = costs.iter().map(|&w| w as i64).collect();
    let mut weights = munkres::WeightMatrix::from_row_vec(k, data);
    let positions = munkres::solve_assignment(&mut weights)
        .expect("the assignment solver cannot fail on a square integer matrix");
    positions.into_iter().map(|p| (p.row, p.column)).collect()
}

/// Solve the `k x k` problem selected by `ni` and `nj` on the matrix `x`
/// and return the best total matched similarity together with the
/// assignment that reaches it.
pub fn optimal_match(x: &SimMatrix, ni: &Vec<usize>, nj: &Vec<usize>, k: usize) -> (r: (
    u128,
    Vec<(usize, usize)>,
))
    requires
        x.wf(),
        1 <= k,
        k <= ni.len(),
        k <= nj.len(),
        k * k <= usize::MAX,
        in_range(ni@, x.rows as int),
        in_range(nj@, x.cols as int),
    ensures
        r.0 as int == opt_match_sum(x@, ni@, nj@, k as int),
        is_assignment(r.1@, k as int),
        match_sum(x@, ni@, nj@, r.1@) == r.0 as int,
        r.0 as int <= k * SCALE,
{
    proof {
        x.lemma_wf_view();
    }
    let ghost gr = x.rows as int;
    let ghost gc = x.cols as int;
    let mut costs: Vec<u64> = Vec::new();
    let mut a: usize = 0;
    while a < k
        invariant
            x.wf(),
            1 <= k,
            k <= ni.len(),
            k <= nj.len(),
            k * k <= usize::MAX,
            in_range(ni@, x.rows as int),
            in_range(nj@, x.cols as int),
            a <= k,
            costs.len() == a * k,
            forall|t: int| 0 <= t < costs.len() ==> (#[trigger] costs[t]) <= SCALE,
            forall|p: int, q: int|
                0 <= p < a && 0 <= q < k ==> (#[trigger] costs[p * k + q]) as int == SCALE
                    - pair_weight(x@, ni@, nj@, p, q),
        decreases k - a,
    {
        let mut b: usize = 0;
        while b < k
            invariant
                x.wf(),
                1 <= k,
                k <= ni.len(),
                k <= nj.len(),
                k * k <= usize::MAX,
                in_range(ni@, x.rows as int),
                in_range(nj@, x.cols as int),
                a < k,
                b <= k,
                costs.len() == a * k + b,
                forall|t: int| 0 <= t < costs.len() ==> (#[trigger] costs[t]) <= SCALE,
                forall|p: int, q: int|
                    0 <= p < a && 0 <= q < k ==> (#[trigger] costs[p * k + q]) as int == SCALE
                        - pair_weight(x@, ni@, nj@, p, q),
                forall|q: int|
                    0 <= q < b ==> (#[trigger] costs[a as int * k + q]) as int == SCALE
                        - pair_weight(x@, ni@, nj@, a as int, q),
            decreases k - b,
        {
            proof {
                x.lemma_wf_view();
                lemma_flat_index(a as int, b as int, k as int, k as int);
            }
            let w = x.at(ni[a], nj[b]);
            costs.push(SCALE - w);
            b += 1;
            proof {
                assert forall|p: int, q: int| 0 <= p < a && 0 <= q < k implies (#[trigger] costs[p
                    * k + q]) as int == SCALE - pair_weight(x@, ni@, nj@, p, q) by {
                    lemma_flat_index(p, q, a as int, k as int);
                }
            }
        }
        a += 1;
        proof {
            assert(a as int * k == (a - 1) * k + k) by (nonlinear_arith);
            assert forall|p: int, q: int| 0 <= p < a && 0 <= q < k implies (#[trigger] costs[p * k
                + q]) as int == SCALE - pair_weight(x@, ni@, nj@, p, q) by {
                lemma_flat_index(p, q, a as int, k as int);
                if p == a - 1 {
                    assert(costs[(a - 1) * k + q] as int == SCALE - pair_weight(
                        x@,
                        ni@,
                        nj@,
                        a - 1,
                        q,
                    ));
                }
            }
        }
    }
    proof {
        assert(costs.len() == k * k);
    }
    let ps = solve_min_cost(&costs, k);
    let ghost gps = ps@;
    let mut total: u128 = 0;
    let mut t: usize = 0;
    while t < k
        invariant
            x.wf(),
            1 <= k,
            k <= ni.len(),
            k <= nj.len(),
            in_range(ni@, x.rows as int),
            in_range(nj@, x.cols as int),
            ps@ == gps,
            ps.len() == k,
            is_assignment(gps, k as int),
            t <= k,
            total as int == match_sum(x@, ni@, nj@, gps.take(t as int)),
            total as int <= t * SCALE,
        decreases k - t,
    {
        proof {
            x.lemma_wf_view();
        }
        let pr = ps[t];
        let w = x.at(ni[pr.0], nj[pr.1]);
        proof {
            assert((t + 1) * SCALE == t * SCALE + SCALE) by (nonlinear_arith);
            assert(t * SCALE <= k * SCALE) by (nonlinear_arith)
                requires
                    0 <= t <= k,
            ;
            assert(k as int <= u64::MAX as int);
            lemma_mul_inequality(k as int, u64::MAX as int, SCALE as int);
            assert(gps.take(t as int + 1).drop_last() =~= gps.take(t as int));
            assert(gps.take(t as int + 1).last() == gps[t as int]);
        }
        total = total + (w as u128);
        t += 1;
    }
    proof {
        assert(gps.take(k as int) =~= gps);
        x.lemma_wf_view();
        lemma_opt_exists(x@, gr, gc, ni@, nj@, k as int);
        assert forall|q: Seq<(usize, usize)>|
            #[trigger] is_assignment(q, k as int) implies match_sum(x@, ni@, nj@, q) <= match_sum(
            x@,
            ni@,
            nj@,
            gps,
        ) by {
            lemma_cost_weight_sum(costs@, x@, ni@, nj@, k as int, q);
            lemma_cost_weight_sum(costs@, x@, ni@, nj@, k as int, gps);
        }
        assert(is_opt_match(x@, ni@, nj@, k as int, match_sum(x@, ni@, nj@, gps)));
        lemma_opt_unique(x@, ni@, nj@, k as int, match_sum(x@, ni@, nj@, gps));
        lemma_match_sum_bounds(x@, gr, gc, ni@, nj@, gps);
    }
    (total, ps)
}

} // verus!
