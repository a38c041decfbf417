use vstd::prelude::*;

verus! {

/// Fixed-point scale: a similarity of 1.0 is represented by `SCALE`,
/// a similarity of 0.0 by `0`. All matrix cells and scores lie in
/// `[0, SCALE]`.
pub const SCALE: u64 = 1_000_000;

/// Dense `rows x cols` similarity matrix, stored row-major, every cell a
/// fixed-point value in `[0, SCALE]`. Cell `(i, j)` estimates how similar
/// node `i` of the first graph is to node `j` of the second graph.
pub struct SimMatrix {
    pub rows: usize,
    pub cols: usize,
    pub data: Vec<u64>,
}

/// `m` has `r` rows, each of length `c`.
pub open spec fn mat_dims(m: Seq<Seq<u64>>, r: int, c: int) -> bool {
    m.len() == r && forall|i: int| 0 <= i < r ==> (#[trigger] m[i]).len() == c
}

/// Every cell of `m` lies in `[0, SCALE]`.
pub open spec fn mat_bounded(m: Seq<Seq<u64>>) -> bool {
    forall|i: int, j: int|
        0 <= i < m.len() && 0 <= j < m[i].len() ==> #[trigger] m[i][j] <= SCALE
}

/// The all-zero `r x c` matrix.
pub open spec fn zero_mat(r: int, c: int) -> Seq<Seq<u64>> {
    Seq::new(r as nat, |i: int| Seq::new(c as nat, |j: int| 0u64))
}

pub open spec fn abs_diff(a: int, b: int) -> int {
    if a >= b {
        a - b
    } else {
        b - a
    }
}

/// Every cell of `m1` differs from the same cell of `m2` by at most `eps`
/// (the convergence test between successive matrices).
pub open spec fn within_eps(m1: Seq<Seq<u64>>, m2: Seq<Seq<u64>>, eps: u64) -> bool {
    forall|i: int, j: int|
        0 <= i < m1.len() && 0 <= j < m1[i].len() ==> abs_diff(
            #[trigger] m1[i][j] as int,
            m2[i][j] as int,
        ) <= eps
}

pub proof fn lemma_flat_index(i: int, j: int, r: int, c: int)
    requires
        0 <= i < r,
        0 <= j < c,
    ensures
        0 <= i * c + j < r * c,
    decreases r,
{
    assert(0 <= i * c + j < r * c) by (nonlinear_arith)
        requires
            0 <= i < r,
            0 <= j < c,
    ;
}

impl View for SimMatrix {
    type V = Seq<Seq<u64>>;

    open spec fn view(&self) -> Seq<Seq<u64>> {
        Seq::new(
            self.rows as nat,
            |i: int| Seq::new(self.cols as nat, |j: int| self.data[i * self.cols + j]),
        )
    }
}

impl SimMatrix {
    /// Shape and range invariant: row-major data of the right length,
    /// all cells in `[0, SCALE]`.
    pub open spec fn wf(&self) -> bool {
        &&& self.data.len() == self.rows * self.cols
        &&& forall|t: int| 0 <= t < self.data.len() ==> #[trigger] self.data[t] <= SCALE
    }

    pub proof fn lemma_wf_view(&self)
        requires
            self.wf(),
        ensures
            mat_dims(self@, self.rows as int, self.cols as int),
            mat_bounded(self@),
    {
        assert forall|i: int, j: int|
            0 <= i < self@.len() && 0 <= j < self@[i].len() implies #[trigger] self@[i][j]
            <= SCALE by {
            lemma_flat_index(i, j, self.rows as int, self.cols as int);
        }
    }

    pub fn nrows(&self) -> (r: usize)
        ensures
            r == self.rows,
    {
        self.rows
    }

    pub fn ncols(&self) -> (r: usize)
        ensures
            r == self.cols,
    {
        self.cols
    }

    /// Read cell `(i, j)`.
    pub fn at(&self, i: usize, j: usize) -> (r: u64)
        requires
            self.wf(),
            i < self.rows,
            j < self.cols,
        ensures
            r == self@[i as int][j as int],
            r <= SCALE,
    {
        proof {
            lemma_flat_index(i as int, j as int, self.rows as int, self.cols as int);
        }
        self.data[i * self.cols + j]
    }

    /// The all-zero matrix of the given shape.
    pub fn zeros(r: usize, c: usize) -> (m: SimMatrix)
        requires
            r * c <= usize::MAX,
        ensures
            m.wf(),
            m.rows == r,
            m.cols == c,
            m@ == zero_mat(r as int, c as int),
    {
        let total = r * c;
        let mut data: Vec<u64> = Vec::new();
        let mut t: usize = 0;
        while t < total
            invariant
                data.len() == t,
                t <= total,
                forall|s: int| 0 <= s < t ==> #[trigger] data[s] == 0u64,
            decreases total - t,
        {
            data.push(0);
            t += 1;
        }
        let m = SimMatrix { rows: r, cols: c, data };
        proof {
            assert(m@ =~~= zero_mat(r as int, c as int)) by {
                assert forall|i: int, j: int| 0 <= i < r && 0 <= j < c implies m@[i][j]
                    == zero_mat(r as int, c as int)[i][j] by {
                    lemma_flat_index(i, j, r as int, c as int);
                }
            }
        }
        m
    }

    /// Componentwise approximate equality: no cell differs by more than
    /// `eps`.
    pub fn approx_eq(&self, other: &SimMatrix, eps: u64) -> (r: bool)
        requires
            self.wf(),
            other.wf(),
            other.rows == self.rows,
            other.cols == self.cols,
        ensures
            r == within_eps(self@, other@, eps),
    {
        let mut i: usize = 0;
        while i < self.rows
            invariant
                self.wf(),
                other.wf(),
                other.rows == self.rows,
                other.cols == self.cols,
                i <= self.rows,
                forall|p: int, q: int|
                    0 <= p < i && 0 <= q < self.cols ==> abs_diff(
                        #[trigger] self@[p][q] as int,
                        other@[p][q] as int,
                    ) <= eps,
            decreases self.rows - i,
        {
            let mut j: usize = 0;
            while j < self.cols
                invariant
                    self.wf(),
                    other.wf(),
                    other.rows == self.rows,
                    other.cols == self.cols,
                    i < self.rows,
                    j <= self.cols,
                    forall|q: int|
                        0 <= q < j ==> abs_diff(
                            #[trigger] self@[i as int][q] as int,
                            other@[i as int][q] as int,
                        ) <= eps,
                decreases self.cols - j,
            {
                let a = self.at(i, j);
                let b = other.at(i, j);
                let d = if a >= b {
                    a - b
                } else {
                    b - a
                };
                if d > eps {
                    return false;
                }
                j += 1;
            }
            i += 1;
        }
        true
    }
}

} // verus!
