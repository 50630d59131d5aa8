//! The queueing model: generator-matrix construction and the solve.
//!
//! States `0 ..= channel_count + queue_size` count the customers in the
//! system.  The generator matrix holds, at `(i, i-1)`, the arrival rate
//! out of state `i-1` plus the abandonment term, and at `(i, i+1)`, the
//! service rate out of state `i+1`.  A known oddity of this model is
//! kept deliberately: the abandonment term sits on the birth-direction
//! cells, although a reneging customer conventionally shortens the
//! queue, and its weights run `queue_size`, `queue_size - 1`, ... down
//! those cells, floored at zero.  Each diagonal entry is the negated sum
//! of the rest of its column, so every column sums to zero.
//!
//! The solve augments the matrix with a normalization row and column,
//! solves the system exactly, and certifies the result: the returned
//! distribution provably solves the augmented balance equations, sums to
//! exactly one, and is entrywise non-negative.

use vstd::prelude::*;

use crate::linalg::{
    check_solution, clone_vecf, gauss_solve, lemma_q_dot_norm_row, lemma_q_dot_pos,
    lemma_q_sum_pos, mat_wf, mview, q_dot, q_sum, rvec, solves, vec_wf, SolveFailure,
};
use crate::rational::{
    add_frac, clamp_frac, frac_int, frac_new, lemma_q_add_neg, lemma_q_add_zero_left,
    lemma_q_add_zero_right, lemma_q_balance, lemma_q_eq_trans, mul_frac, neg_frac, q_add, q_clamp,
    q_eq, q_int, q_mul, q_neg, q_one, q_pos, q_zero, Frac, Ratio,
};

verus! {

/// Everything that can go wrong in this library.
#[derive(Clone, Copy, PartialEq, Eq, Structural, Debug)]
pub enum QtmError {
    /// The model parameters are rejected at construction time.
    InvalidConfiguration,
    /// The augmented matrix is singular: a nonzero kernel vector was
    /// found and certified.
    SingularMatrix,
    /// A metric was requested before any successful solve.
    UninitializedState,
    /// An exact intermediate value left the `i128` range, or an exact
    /// result could not be certified within it.
    NumericOverflow,
}

pub open spec fn imin(a: int, b: int) -> int {
    if a < b {
        a
    } else {
        b
    }
}

pub open spec fn imax(a: int, b: int) -> int {
    if a > b {
        a
    } else {
        b
    }
}

/// The arrival-rate part of cell `(i, i-1)`, `1 <= i`.  In
/// finite-population mode the population counter starts at `n0` and
/// loses one unit per arrival cell, freezing at the infinite-population
/// sentinel `-1`; a frozen counter yields the constant rate, and a zero
/// starting population a zero one.
pub open spec fn arrival_rate(la: Ratio, n0: int, i: int) -> Ratio {
    if n0 == -1 {
        la
    } else if n0 - (i - 1) <= -1 {
        la
    } else if n0 == 0 {
        q_zero()
    } else {
        q_mul(q_clamp(Ratio { n: n0 - (i - 1), d: n0 }, q_zero(), q_int(n0)), la)
    }
}

/// Birth cell `(i, i-1)`, `1 <= i`: the arrival rate plus the
/// abandonment term.  Charging abandonment to this birth-direction cell
/// is the model's deliberate oddity.
pub open spec fn sub_cell(la: Ratio, nu: Ratio, qs: int, n0: int, i: int) -> Ratio {
    q_add(arrival_rate(la, n0, i), q_mul(q_int(nu_weight(qs, i - 1)), nu))
}

/// Busy servers in the service cell `(i, i+1)`: grows with the state,
/// saturating at the channel count.
pub open spec fn mu_weight(c: int, i: int) -> int {
    imin(i + 1, c)
}

/// Waiting customers charged to the abandonment term of birth cell
/// `(i+1, i)`: the full queue capacity first, then one fewer per cell,
/// floored at 0.
pub open spec fn nu_weight(qs: int, i: int) -> int {
    if i == 0 {
        qs
    } else {
        imax(qs - i, 0)
    }
}

/// Service cell `(i, i+1)`, `0 <= i < c + qs`.
pub open spec fn sup_cell(c: int, mu: Ratio, i: int) -> Ratio {
    q_mul(q_int(mu_weight(c, i)), mu)
}

/// Diagonal cell `(i, i)`: the negated sum of the other entries of
/// column `i`, which are its at most two neighbours.
pub open spec fn diag_cell(c: int, qs: int, la: Ratio, mu: Ratio, nu: Ratio, n0: int, i: int) -> Ratio {
    let up = if i >= 1 {
        sup_cell(c, mu, i - 1)
    } else {
        q_zero()
    };
    let down = if i < c + qs {
        sub_cell(la, nu, qs, n0, i + 1)
    } else {
        q_zero()
    };
    q_neg(q_add(up, down))
}

/// Generator-matrix cell `(i, j)` for `0 <= i, j <= c + qs`.
pub open spec fn gen_cell(
    c: int,
    qs: int,
    la: Ratio,
    mu: Ratio,
    nu: Ratio,
    n0: int,
    i: int,
    j: int,
) -> Ratio {
    if i == j + 1 {
        sub_cell(la, nu, qs, n0, i)
    } else if j == i + 1 {
        sup_cell(c, mu, i)
    } else if i == j {
        diag_cell(c, qs, la, mu, nu, n0, i)
    } else {
        q_zero()
    }
}

/// Cell `(i, j)` of the augmented `(c+qs+2)`-square matrix: the
/// generator in the top-left corner, `1/(c+qs+1)` down the new last
/// column, ones along the new last row, and zero in the corner.
pub open spec fn aug_cell(
    c: int,
    qs: int,
    la: Ratio,
    mu: Ratio,
    nu: Ratio,
    n0: int,
    i: int,
    j: int,
) -> Ratio {
    let m = c + qs + 2;
    if i < m - 1 && j < m - 1 {
        gen_cell(c, qs, la, mu, nu, n0, i, j)
    } else if i < m - 1 && j == m - 1 {
        Ratio { n: 1, d: c + qs + 1 }
    } else if i == m - 1 && j < m - 1 {
        q_one()
    } else {
        q_zero()
    }
}

pub open spec fn aug_matrix(c: int, qs: int, la: Ratio, mu: Ratio, nu: Ratio, n0: int) -> Seq<
    Seq<Ratio>,
> {
    let m = c + qs + 2;
    Seq::new(m as nat, |i: int| Seq::new(m as nat, |j: int| aug_cell(c, qs, la, mu, nu, n0, i, j)))
}

/// Right-hand side of the augmented system: zero everywhere except the
/// final normalization equation.
pub open spec fn rhs_spec(m: int) -> Seq<Ratio> {
    Seq::new(
        m as nat,
        |i: int|
            if i == m - 1 {
                q_one()
            } else {
                q_zero()
            },
    )
}

/// An all-zero right-hand side, the home of a kernel vector.
pub open spec fn zero_rhs(m: int) -> Seq<Ratio> {
    Seq::new(m as nat, |i: int| q_zero())
}

/// The `j`-th column of the identity as a right-hand side.
pub open spec fn unit_rhs(m: int, j: int) -> Seq<Ratio> {
    Seq::new(
        m as nat,
        |i: int|
            if i == j {
                q_one()
            } else {
                q_zero()
            },
    )
}

/// An invertibility certificate: `inv` collects one solution per column
/// of the identity, so `amat` has a right inverse and the solution of
/// any system over it is unique.
pub open spec fn right_inverse_cert(amat: Seq<Seq<Ratio>>, inv: Seq<Seq<Ratio>>, m: int) -> bool {
    &&& inv.len() == m
    &&& forall|j: int| 0 <= j < m ==> solves(amat, #[trigger] inv[j], unit_rhs(m, j))
}

/// The population counter after one matrix construction: one unit per
/// arrival cell, frozen at the sentinel `-1`.
pub open spec fn n_after(n0: int, tc: int) -> int {
    if n0 == -1 {
        -1
    } else if n0 - tc >= -1 {
        n0 - tc
    } else {
        -1
    }
}

/// Two-sided integer clamp with the same precedence as `clamp_xsize`:
/// the upper bound is applied first, so an inverted range yields the
/// lower bound.
pub open spec fn iclamp(v: int, lo: int, hi: int) -> int {
    imax(imin(v, hi), lo)
}

/// The running busy-server counter of the matrix construction:
/// incremented once per service cell and clamped into `[0, c]`.
pub open spec fn mu_counter(c: int, k: int) -> int
    decreases k,
{
    if k <= 0 {
        0
    } else {
        iclamp(mu_counter(c, k - 1) + 1, 0, c)
    }
}

/// The service weight of cell `(i, i+1)` equals the counter value after
/// `i + 1` clamped increments.
pub proof fn lemma_mu_counter_closed(c: int, i: int)
    requires
        c >= 0,
        i >= 0,
    ensures
        mu_counter(c, i + 1) == mu_weight(c, i),
    decreases i,
{
    if i > 0 {
        lemma_mu_counter_closed(c, i - 1);
    } else {
        assert(mu_counter(c, 0) == 0);
    }
}

/// The running abandonment counter: starts at the queue capacity and is
/// clamped into `[0, qs - 1]` after each service cell.
pub open spec fn nu_counter(qs: int, i: int) -> int
    decreases i,
{
    if i <= 0 {
        qs
    } else {
        iclamp(nu_counter(qs, i - 1) - 1, 0, qs - 1)
    }
}

/// The abandonment weight of the birth cell in row `i + 1` equals the
/// counter value before its `i`-th decrement.
pub proof fn lemma_nu_counter_closed(qs: int, i: int)
    requires
        qs >= 0,
        i >= 0,
    ensures
        nu_counter(qs, i) == nu_weight(qs, i),
    decreases i,
{
    if i > 0 {
        lemma_nu_counter_closed(qs, i - 1);
    }
}

/// The population counter as seen by the `i`-th arrival cell (counting
/// from one): one unit gone per earlier cell, frozen at the sentinel.
pub open spec fn pop_counter(n0: int, i: int) -> int
    decreases i,
{
    if i <= 1 {
        n0
    } else if pop_counter(n0, i - 1) == -1 {
        -1
    } else {
        pop_counter(n0, i - 1) - 1
    }
}

/// Closed form of the population counter.
pub proof fn lemma_pop_counter_closed(n0: int, i: int)
    requires
        n0 >= -1,
        i >= 1,
    ensures
        pop_counter(n0, i) == if n0 == -1 {
            -1
        } else {
            imax(n0 - (i - 1), -1)
        },
    decreases i,
{
    if i > 1 {
        lemma_pop_counter_closed(n0, i - 1);
    }
}

/// After all `tc` arrival cells the counter holds exactly what a solve
/// leaves in the model's `n` field.
pub proof fn lemma_pop_counter_after(n0: int, tc: int)
    requires
        n0 >= -1,
        tc >= 0,
    ensures
        pop_counter(n0, tc + 1) == n_after(n0, tc),
{
    lemma_pop_counter_closed(n0, tc + 1);
}

/// Column `j` of the generator matrix, rows `0 ..= c + qs`.
pub open spec fn gen_column(
    c: int,
    qs: int,
    la: Ratio,
    mu: Ratio,
    nu: Ratio,
    n0: int,
    j: int,
) -> Seq<Ratio> {
    Seq::new((c + qs + 1) as nat, |i: int| gen_cell(c, qs, la, mu, nu, n0, i, j))
}

/// The generator-matrix balance invariant: every column sums to zero,
/// the diagonal entry cancelling the outgoing rates of its state.
pub proof fn lemma_gen_column_sum(
    c: int,
    qs: int,
    la: Ratio,
    mu: Ratio,
    nu: Ratio,
    n0: int,
    j: int,
)
    requires
        c >= 0,
        qs >= 0,
        0 <= j <= c + qs,
    ensures
        q_eq(q_sum(gen_column(c, qs, la, mu, nu, n0, j)), q_zero()),
{
    let tc = c + qs;
    let col = gen_column(c, qs, la, mu, nu, n0, j);
    assert(q_sum(Seq::<Ratio>::empty()) == q_zero());
    if tc == 0 {
        // a single state: the diagonal negates an empty outgoing sum
        let diag = q_neg(q_add(q_zero(), q_zero()));
        assert(col.drop_last() =~= Seq::<Ratio>::empty());
        assert(col.last() == col[0]);
        assert(col[0] == diag);
        assert(q_sum(col) == q_add(q_zero(), diag));
        lemma_q_add_zero_left(diag);
        lemma_q_add_zero_left(q_zero());
        lemma_q_add_neg(q_zero());
        lemma_q_add_zero_left(q_neg(q_zero()));
        lemma_q_eq_trans(q_sum(col), q_add(q_zero(), q_neg(q_zero())), q_zero());
    } else if j == 0 {
        // the column holds the diagonal and the arrival rate below it
        let down = sub_cell(la, nu, qs, n0, 1);
        let diag = q_neg(q_add(q_zero(), down));
        assert forall|i: int| 0 <= i < col.len() && !(0 <= i < 2) implies col[i] == q_zero() by {
            assert(col[i] == gen_cell(c, qs, la, mu, nu, n0, i, j));
        }
        crate::linalg::lemma_q_sum_zero_outside(col, 0, 2);
        let s2 = col.subrange(0, 2);
        assert(s2.drop_last() =~= col.subrange(0, 1));
        assert(col.subrange(0, 1).drop_last() =~= Seq::<Ratio>::empty());
        assert(s2.last() == col[1]);
        assert(col.subrange(0, 1).last() == col[0]);
        assert(col[0] == diag);
        assert(col[1] == down);
        assert(q_sum(col.subrange(0, 1)) == q_add(q_zero(), diag));
        lemma_q_add_zero_left(diag);
        assert(q_sum(s2) == q_add(diag, down));
        lemma_q_balance(q_zero(), down);
        assert(q_eq(q_sum(col), q_zero()));
    } else if j == tc {
        // the column holds the service rate above the diagonal
        let up = sup_cell(c, mu, j - 1);
        let diag = q_neg(q_add(up, q_zero()));
        assert forall|i: int| 0 <= i < col.len() && !(j - 1 <= i < j + 1) implies col[i]
            == q_zero() by {
            assert(col[i] == gen_cell(c, qs, la, mu, nu, n0, i, j));
        }
        crate::linalg::lemma_q_sum_zero_outside(col, j - 1, j + 1);
        let s2 = col.subrange(j - 1, j + 1);
        assert(s2.drop_last() =~= col.subrange(j - 1, j));
        assert(col.subrange(j - 1, j).drop_last() =~= Seq::<Ratio>::empty());
        assert(s2.last() == col[j]);
        assert(col.subrange(j - 1, j).last() == col[j - 1]);
        assert(col[j - 1] == up);
        assert(col[j] == diag);
        assert(q_sum(col.subrange(j - 1, j)) == q_add(q_zero(), up));
        lemma_q_add_zero_left(up);
        assert(q_sum(s2) == q_add(up, diag));
        lemma_q_add_zero_right(up);
        lemma_q_add_neg(up);
        assert(q_eq(q_sum(col), q_zero()));
    } else {
        // both neighbours and the diagonal between them
        let up = sup_cell(c, mu, j - 1);
        let down = sub_cell(la, nu, qs, n0, j + 1);
        let diag = q_neg(q_add(up, down));
        assert forall|i: int| 0 <= i < col.len() && !(j - 1 <= i < j + 2) implies col[i]
            == q_zero() by {
            assert(col[i] == gen_cell(c, qs, la, mu, nu, n0, i, j));
        }
        crate::linalg::lemma_q_sum_zero_outside(col, j - 1, j + 2);
        let s3 = col.subrange(j - 1, j + 2);
        assert(s3.drop_last() =~= col.subrange(j - 1, j + 1));
        assert(col.subrange(j - 1, j + 1).drop_last() =~= col.subrange(j - 1, j));
        assert(col.subrange(j - 1, j).drop_last() =~= Seq::<Ratio>::empty());
        assert(s3.last() == col[j + 1]);
        assert(col.subrange(j - 1, j + 1).last() == col[j]);
        assert(col.subrange(j - 1, j).last() == col[j - 1]);
        assert(col[j - 1] == up);
        assert(col[j] == diag);
        assert(col[j + 1] == down);
        assert(q_sum(col.subrange(j - 1, j)) == q_add(q_zero(), up));
        lemma_q_add_zero_left(up);
        assert(q_sum(col.subrange(j - 1, j + 1)) == q_add(up, diag));
        assert(q_sum(s3) == q_add(q_add(up, diag), down));
        lemma_q_balance(up, down);
        assert(q_eq(q_sum(col), q_zero()));
    }
}

fn arrival_rate_exec(la: Frac, n0: isize, i: usize) -> (r: Result<Frac, QtmError>)
    requires
        la.wf(),
        n0 >= -1,
        i >= 1,
    ensures
        r matches Ok(f) ==> f.wf() && f@ == arrival_rate(la@, n0 as int, i as int),
        r matches Err(e) ==> e == QtmError::NumericOverflow,
{
    if n0 == -1 {
        return Ok(la);
    }
    let rr: i128 = (n0 as i128) - (i as i128) + 1;
    if rr <= -1 {
        return Ok(la);
    }
    if n0 == 0 {
        return Ok(frac_int(0));
    }
    let q = Frac { num: rr, den: n0 as i128 };
    let lo = frac_int(0);
    let hi = frac_int(n0 as i128);
    let cl = match clamp_frac(q, lo, hi) {
        Some(f) => f,
        None => return Err(QtmError::NumericOverflow),
    };
    match mul_frac(cl, la) {
        Some(f) => Ok(f),
        None => Err(QtmError::NumericOverflow),
    }
}

fn sub_cell_exec(la: Frac, nu: Frac, qs: usize, n0: isize, i: usize) -> (r: Result<
    Frac,
    QtmError,
>)
    requires
        la.wf(),
        nu.wf(),
        n0 >= -1,
        i >= 1,
    ensures
        r matches Ok(f) ==> f.wf() && f@ == sub_cell(la@, nu@, qs as int, n0 as int, i as int),
        r matches Err(e) ==> e == QtmError::NumericOverflow,
{
    let arr = match arrival_rate_exec(la, n0, i) {
        Ok(f) => f,
        Err(e) => return Err(e),
    };
    let t = i - 1;
    let w: usize = if t == 0 {
        qs
    } else if qs > t {
        qs - t
    } else {
        0
    };
    let ab = match mul_frac(frac_int(w as i128), nu) {
        Some(f) => f,
        None => return Err(QtmError::NumericOverflow),
    };
    match add_frac(arr, ab) {
        Some(f) => Ok(f),
        None => Err(QtmError::NumericOverflow),
    }
}

fn sup_cell_exec(c: usize, qs: usize, mu: Frac, i: usize) -> (r: Result<Frac, QtmError>)
    requires
        mu.wf(),
        i < c + qs,
        c + qs + 2 <= usize::MAX,
    ensures
        r matches Ok(f) ==> f.wf() && f@ == sup_cell(c as int, mu@, i as int),
        r matches Err(e) ==> e == QtmError::NumericOverflow,
{
    let wm: usize = if i + 1 < c {
        i + 1
    } else {
        c
    };
    match mul_frac(frac_int(wm as i128), mu) {
        Some(f) => Ok(f),
        None => Err(QtmError::NumericOverflow),
    }
}

fn diag_cell_exec(
    c: usize,
    qs: usize,
    la: Frac,
    mu: Frac,
    nu: Frac,
    n0: isize,
    i: usize,
) -> (r: Result<Frac, QtmError>)
    requires
        la.wf(),
        mu.wf(),
        nu.wf(),
        n0 >= -1,
        i <= c + qs,
        c + qs + 2 <= usize::MAX,
    ensures
        r matches Ok(f) ==> f.wf() && f@ == diag_cell(
            c as int,
            qs as int,
            la@,
            mu@,
            nu@,
            n0 as int,
            i as int,
        ),
        r matches Err(e) ==> e == QtmError::NumericOverflow,
{
    let up = if i >= 1 {
        match sup_cell_exec(c, qs, mu, i - 1) {
            Ok(f) => f,
            Err(e) => return Err(e),
        }
    } else {
        frac_int(0)
    };
    let down = if i < c + qs {
        match sub_cell_exec(la, nu, qs, n0, i + 1) {
            Ok(f) => f,
            Err(e) => return Err(e),
        }
    } else {
        frac_int(0)
    };
    let s = match add_frac(up, down) {
        Some(f) => f,
        None => return Err(QtmError::NumericOverflow),
    };
    match neg_frac(s) {
        Some(f) => Ok(f),
        None => Err(QtmError::NumericOverflow),
    }
}

fn aug_cell_exec(
    c: usize,
    qs: usize,
    la: Frac,
    mu: Frac,
    nu: Frac,
    n0: isize,
    i: usize,
    j: usize,
) -> (r: Result<Frac, QtmError>)
    requires
        la.wf(),
        mu.wf(),
        nu.wf(),
        n0 >= -1,
        c + qs + 2 <= usize::MAX,
        i < c + qs + 2,
        j < c + qs + 2,
    ensures
        r matches Ok(f) ==> f.wf() && f@ == aug_cell(
            c as int,
            qs as int,
            la@,
            mu@,
            nu@,
            n0 as int,
            i as int,
            j as int,
        ),
        r matches Err(e) ==> e == QtmError::NumericOverflow,
{
    let m = c + qs + 2;
    if i < m - 1 && j < m - 1 {
        if i == j + 1 {
            sub_cell_exec(la, nu, qs, n0, i)
        } else if j == i + 1 {
            sup_cell_exec(c, qs, mu, i)
        } else if i == j {
            diag_cell_exec(c, qs, la, mu, nu, n0, i)
        } else {
            Ok(frac_int(0))
        }
    } else if i < m - 1 && j == m - 1 {
        Ok(frac_new(1, (c + qs + 1) as i128))
    } else if i == m - 1 && j < m - 1 {
        Ok(frac_int(1))
    } else {
        Ok(frac_int(0))
    }
}

/// Build the augmented matrix for the given configuration snapshot.
fn build_aug(c: usize, qs: usize, la: Frac, mu: Frac, nu: Frac, n0: isize) -> (r: Result<
    Vec<Vec<Frac>>,
    QtmError,
>)
    requires
        la.wf(),
        mu.wf(),
        nu.wf(),
        n0 >= -1,
        c + qs + 2 <= usize::MAX,
    ensures
        r matches Ok(m) ==> {
            let msize = c + qs + 2;
            &&& mat_wf(m@, msize as int, msize as int)
            &&& mview(m@) == aug_matrix(c as int, qs as int, la@, mu@, nu@, n0 as int)
        },
        r matches Err(e) ==> e == QtmError::NumericOverflow,
{
    let msize = c + qs + 2;
    let mut rows: Vec<Vec<Frac>> = Vec::new();
    let mut i: usize = 0;
    while i < msize
        invariant
            la.wf(),
            mu.wf(),
            nu.wf(),
            n0 >= -1,
            c + qs + 2 == msize,
            i <= msize,
            rows@.len() == i,
            forall|r0: int|
                0 <= r0 < i ==> (#[trigger] rows@[r0])@.len() == msize && vec_wf(rows@[r0]@),
            forall|r0: int, j0: int|
                0 <= r0 < i && 0 <= j0 < msize ==> (#[trigger] rows@[r0]@[j0])@ == aug_cell(
                    c as int,
                    qs as int,
                    la@,
                    mu@,
                    nu@,
                    n0 as int,
                    r0,
                    j0,
                ),
        decreases msize - i,
    {
        let mut row: Vec<Frac> = Vec::new();
        let mut j: usize = 0;
        while j < msize
            invariant
                la.wf(),
                mu.wf(),
                nu.wf(),
                n0 >= -1,
                c + qs + 2 == msize,
                i < msize,
                j <= msize,
                row@.len() == j,
                vec_wf(row@),
                forall|j0: int|
                    0 <= j0 < j ==> (#[trigger] row@[j0])@ == aug_cell(
                        c as int,
                        qs as int,
                        la@,
                        mu@,
                        nu@,
                        n0 as int,
                        i as int,
                        j0,
                    ),
            decreases msize - j,
        {
            let cell = match aug_cell_exec(c, qs, la, mu, nu, n0, i, j) {
                Ok(f) => f,
                Err(e) => return Err(e),
            };
            row.push(cell);
            j = j + 1;
        }
        rows.push(row);
        i = i + 1;
    }
    proof {
        let amat = aug_matrix(c as int, qs as int, la@, mu@, nu@, n0 as int);
        assert forall|r0: int| 0 <= r0 < msize implies mview(rows@)[r0] == amat[r0] by {
            assert(mview(rows@)[r0] == rvec(rows@[r0]@));
            assert(rvec(rows@[r0]@) =~= amat[r0]);
        }
        assert(mview(rows@) =~= amat);
    }
    Ok(rows)
}

/// Certify that `y` is a nonzero vector that `a` maps to zero: the
/// run-time proof that `a` is singular.
fn kernel_certified(a: &Vec<Vec<Frac>>, y: &Vec<Frac>) -> (r: bool)
    requires
        mat_wf(a@, a@.len() as int, a@.len() as int),
        vec_wf(y@),
        y@.len() == a@.len(),
    ensures
        r ==> (exists|t: int| 0 <= t < rvec(y@).len() && (#[trigger] rvec(y@)[t]).n != 0)
            && solves(mview(a@), rvec(y@), zero_rhs(a@.len() as int)),
{
    let msize = a.len();
    let mut zv: Vec<Frac> = Vec::new();
    let mut z1: usize = 0;
    while z1 < msize
        invariant
            z1 <= msize,
            zv@.len() == z1,
            forall|t: int| 0 <= t < z1 ==> (#[trigger] zv@[t]) == (Frac { num: 0, den: 1 }),
        decreases msize - z1,
    {
        zv.push(frac_int(0));
        z1 = z1 + 1;
    }
    let zok = match check_solution(a, y, &zv) {
        Some(t) => t,
        None => return false,
    };
    if !zok {
        return false;
    }
    let mut nz = false;
    let ghost mut nzi: int = 0;
    let mut z2: usize = 0;
    while z2 < y.len()
        invariant
            z2 <= y@.len(),
            vec_wf(y@),
            nz ==> 0 <= nzi < y@.len() && rvec(y@)[nzi].n != 0,
        decreases y@.len() - z2,
    {
        if y[z2].num != 0 {
            nz = true;
            proof {
                nzi = z2 as int;
            }
        }
        z2 = z2 + 1;
    }
    if !nz {
        return false;
    }
    proof {
        assert(rvec(zv@) =~= zero_rhs(msize as int));
        assert(0 <= nzi < rvec(y@).len() && (rvec(y@)[nzi]).n != 0);
    }
    true
}

/// Is a parameter set acceptable at model-construction time?
pub open spec fn valid_config(
    channel_count: usize,
    queue_size: usize,
    la: Frac,
    mu: Frac,
    nu: Frac,
    n: isize,
) -> bool {
    &&& channel_count >= 1
    &&& la.wf() && la@.n >= 0
    &&& mu.wf() && mu@.n >= 0
    &&& nu.wf() && nu@.n >= 0
    &&& n >= -1
    &&& channel_count + queue_size + 2 <= usize::MAX
}

/// The queueing model: configuration plus the most recent solution.
#[derive(Debug)]
pub struct Qtm {
    pub channel_count: usize,
    pub queue_size: usize,
    pub la: Frac,
    pub mu: Frac,
    pub nu: Frac,
    pub n: isize,
    pub final_states: Vec<Frac>,
}

impl Qtm {
    pub open spec fn config_wf(&self) -> bool {
        valid_config(self.channel_count, self.queue_size, self.la, self.mu, self.nu, self.n)
    }

    /// Number of occupancy states.
    pub open spec fn states_count(&self) -> int {
        self.channel_count + self.queue_size + 1
    }

    pub open spec fn solved(&self) -> bool {
        self.final_states@.len() > 0
    }

    pub open spec fn wf(&self) -> bool {
        &&& self.config_wf()
        &&& self.solved() ==> self.final_states@.len() == self.states_count() && vec_wf(
            self.final_states@,
        )
    }

    /// Construct a model; a configuration outside the documented ranges
    /// is rejected here rather than surfacing as nonsense downstream.
    pub fn new(
        channel_count: usize,
        queue_size: usize,
        la: Frac,
        mu: Frac,
        nu: Frac,
        n: isize,
    ) -> (r: Result<Qtm, QtmError>)
        ensures
            valid_config(channel_count, queue_size, la, mu, nu, n) <==> r is Ok,
            r matches Ok(q) ==> q.channel_count == channel_count && q.queue_size == queue_size
                && q.la == la && q.mu == mu && q.nu == nu && q.n == n && !q.solved() && q.wf(),
            r matches Err(e) ==> e == QtmError::InvalidConfiguration,
    {
        if channel_count >= 1 && la.den >= 1 && la.num >= 0 && mu.den >= 1 && mu.num >= 0
            && nu.den >= 1 && nu.num >= 0 && n >= -1 && channel_count <= usize::MAX - 2
            && queue_size <= usize::MAX - 2 - channel_count {
            Ok(
                Qtm {
                    channel_count,
                    queue_size,
                    la,
                    mu,
                    nu,
                    n,
                    final_states: Vec::new(),
                },
            )
        } else {
            Err(QtmError::InvalidConfiguration)
        }
    }

    /// The most recent solution (empty before the first solve).
    pub fn final_states(&self) -> (r: Vec<Frac>)
        ensures
            r@ == self.final_states@,
    {
        clone_vecf(&self.final_states)
    }

    /// Solve for the stationary distribution.  Consumes `c + qs` units
    /// of the population counter (a second solve of a finite-population
    /// model therefore works on the decremented counter unless the
    /// caller resets `n`).  On success the returned vector provably
    /// solves the augmented balance equations, sums to exactly one and
    /// is entrywise non-negative, and a right inverse of the augmented
    /// matrix is certified column by column, so the matrix is invertible
    /// and the distribution is the system's unique solution.  A
    /// `SingularMatrix` error is honest: it comes only with a certified
    /// nonzero kernel vector of the augmented matrix.
    pub fn calc_final_states(&mut self) -> (r: Result<Vec<Frac>, QtmError>)
        requires
            old(self).wf(),
        ensures
            final(self).channel_count == old(self).channel_count,
            final(self).queue_size == old(self).queue_size,
            final(self).la == old(self).la,
            final(self).mu == old(self).mu,
            final(self).nu == old(self).nu,
            final(self).n as int == n_after(
                old(self).n as int,
                old(self).channel_count + old(self).queue_size,
            ),
            final(self).wf(),
            match r {
                Ok(v) => {
                    let states = old(self).channel_count + old(self).queue_size + 1;
                    let amat = aug_matrix(
                        old(self).channel_count as int,
                        old(self).queue_size as int,
                        old(self).la@,
                        old(self).mu@,
                        old(self).nu@,
                        old(self).n as int,
                    );
                    &&& final(self).final_states@ == v@
                    &&& v@.len() == states
                    &&& vec_wf(v@)
                    &&& forall|k: int| 0 <= k < v@.len() ==> (#[trigger] v@[k])@.n >= 0
                    &&& q_eq(q_sum(rvec(v@)), q_one())
                    &&& exists|slack: Ratio|
                        q_pos(slack) && solves(
                            amat,
                            rvec(v@).push(slack),
                            rhs_spec((states + 1) as int),
                        )
                    &&& exists|inv: Seq<Seq<Ratio>>|
                        #[trigger] right_inverse_cert(amat, inv, (states + 1) as int)
                },
                Err(e) => {
                    &&& final(self).final_states@.len() == 0
                    &&& (e == QtmError::SingularMatrix || e == QtmError::NumericOverflow)
                    &&& e == QtmError::SingularMatrix ==> {
                        let msize = old(self).channel_count + old(self).queue_size + 2;
                        exists|y: Seq<Ratio>|
                            {
                                &&& y.len() == msize
                                &&& exists|t: int| 0 <= t < y.len() && (#[trigger] y[t]).n != 0
                                &&& solves(
                                    aug_matrix(
                                        old(self).channel_count as int,
                                        old(self).queue_size as int,
                                        old(self).la@,
                                        old(self).mu@,
                                        old(self).nu@,
                                        old(self).n as int,
                                    ),
                                    y,
                                    zero_rhs(msize as int),
                                )
                            }
                    }
                },
            },
    {
        let c = self.channel_count;
        let qs = self.queue_size;
        let la = self.la;
        let mu = self.mu;
        let nu = self.nu;
        let n0 = self.n;
        let tc = c + qs;

        // invalidate the previous result and consume the population
        self.final_states = Vec::new();
        if n0 == -1 {
            self.n = -1;
        } else {
            let d = (n0 as i128) - (tc as i128);
            if d >= -1 {
                self.n = d as isize;
            } else {
                self.n = -1;
            }
        }

        let states = tc + 1;
        let msize = tc + 2;
        let a = match build_aug(c, qs, la, mu, nu, n0) {
            Ok(m) => m,
            Err(e) => return Err(e),
        };
        let mut b: Vec<Frac> = Vec::new();
        let mut k: usize = 0;
        while k < states
            invariant
                k <= states,
                b@.len() == k,
                forall|t: int| 0 <= t < k ==> (#[trigger] b@[t]) == (Frac { num: 0, den: 1 }),
            decreases states - k,
        {
            b.push(frac_int(0));
            k = k + 1;
        }
        b.push(frac_int(1));
        proof {
            assert(rvec(b@) =~= rhs_spec(msize as int));
        }

        let x = match gauss_solve(&a, &b) {
            Ok(x) => x,
            Err(SolveFailure::Overflow) => return Err(QtmError::NumericOverflow),
            Err(SolveFailure::Singular(None)) => return Err(QtmError::NumericOverflow),
            Err(SolveFailure::Singular(Some(y))) => {
                // report singularity only with a certified witness
                if kernel_certified(&a, &y) {
                    proof {
                        assert(rvec(y@).len() == msize);
                    }
                    return Err(QtmError::SingularMatrix);
                }
                return Err(QtmError::NumericOverflow);
            },
        };
        let certified = match check_solution(&a, &x, &b) {
            Some(t) => t,
            None => return Err(QtmError::NumericOverflow),
        };
        if !certified {
            return Err(QtmError::NumericOverflow);
        }

        // drop the slack coordinate
        let mut fs: Vec<Frac> = Vec::new();
        let mut k2: usize = 0;
        while k2 < states
            invariant
                k2 <= states,
                states < x@.len(),
                vec_wf(x@),
                fs@ == x@.take(k2 as int),
            decreases states - k2,
        {
            fs.push(x[k2]);
            proof {
                assert(x@.take(k2 as int + 1) =~= x@.take(k2 as int).push(x@[k2 as int]));
            }
            k2 = k2 + 1;
        }

        // certify non-negativity
        let mut k3: usize = 0;
        while k3 < fs.len()
            invariant
                k3 <= fs@.len(),
                vec_wf(fs@),
                forall|t: int| 0 <= t < k3 ==> (#[trigger] fs@[t])@.n >= 0,
                self.channel_count == old(self).channel_count,
                self.queue_size == old(self).queue_size,
                self.la == old(self).la,
                self.mu == old(self).mu,
                self.nu == old(self).nu,
                self.n as int == n_after(
                    old(self).n as int,
                    old(self).channel_count + old(self).queue_size,
                ),
                self.final_states@.len() == 0,
                old(self).wf(),
            decreases fs@.len() - k3,
        {
            if fs[k3].num < 0 {
                return Err(QtmError::NumericOverflow);
            }
            k3 = k3 + 1;
        }

        // certify invertibility: one certified solution per identity
        // column, so the distribution is the system's unique solution
        let ghost amat0 = aug_matrix(c as int, qs as int, la@, mu@, nu@, n0 as int);
        let ghost mut cols: Seq<Seq<Ratio>> = Seq::empty();
        let mut j2: usize = 0;
        while j2 < msize
            invariant
                j2 <= msize,
                cols.len() == j2,
                forall|jj: int|
                    0 <= jj < j2 ==> solves(
                        amat0,
                        #[trigger] cols[jj],
                        unit_rhs(msize as int, jj),
                    ),
                amat0 == aug_matrix(c as int, qs as int, la@, mu@, nu@, n0 as int),
                mat_wf(a@, msize as int, msize as int),
                mview(a@) == amat0,
                la.wf(),
                mu.wf(),
                nu.wf(),
                n0 >= -1,
                c == old(self).channel_count,
                qs == old(self).queue_size,
                la == old(self).la,
                mu == old(self).mu,
                nu == old(self).nu,
                n0 == old(self).n,
                msize == c + qs + 2,
                c + qs + 2 <= usize::MAX,
                self.channel_count == old(self).channel_count,
                self.queue_size == old(self).queue_size,
                self.la == old(self).la,
                self.mu == old(self).mu,
                self.nu == old(self).nu,
                self.n as int == n_after(
                    old(self).n as int,
                    old(self).channel_count + old(self).queue_size,
                ),
                self.final_states@.len() == 0,
                old(self).wf(),
            decreases msize - j2,
        {
            let mut ej: Vec<Frac> = Vec::new();
            let mut z3: usize = 0;
            while z3 < msize
                invariant
                    z3 <= msize,
                    ej@.len() == z3,
                    j2 < msize,
                    forall|t: int|
                        0 <= t < z3 ==> (#[trigger] ej@[t]) == (if t == j2 as int {
                            Frac { num: 1, den: 1 }
                        } else {
                            Frac { num: 0, den: 1 }
                        }),
                decreases msize - z3,
            {
                if z3 == j2 {
                    ej.push(frac_int(1));
                } else {
                    ej.push(frac_int(0));
                }
                z3 = z3 + 1;
            }
            proof {
                assert(rvec(ej@) =~= unit_rhs(msize as int, j2 as int));
            }
            let xj = match gauss_solve(&a, &ej) {
                Ok(xj) => xj,
                Err(SolveFailure::Overflow) => return Err(QtmError::NumericOverflow),
                Err(SolveFailure::Singular(None)) => return Err(QtmError::NumericOverflow),
                Err(SolveFailure::Singular(Some(yk))) => {
                    if kernel_certified(&a, &yk) {
                        proof {
                            assert(rvec(yk@).len() == msize);
                        }
                        return Err(QtmError::SingularMatrix);
                    }
                    return Err(QtmError::NumericOverflow);
                },
            };
            let cok = match check_solution(&a, &xj, &ej) {
                Some(t) => t,
                None => return Err(QtmError::NumericOverflow),
            };
            if !cok {
                return Err(QtmError::NumericOverflow);
            }
            proof {
                cols = cols.push(rvec(xj@));
            }
            j2 = j2 + 1;
        }
        proof {
            assert(right_inverse_cert(amat0, cols, msize as int));
        }

        proof {
            let amat = aug_matrix(c as int, qs as int, la@, mu@, nu@, n0 as int);
            let slack = x@[states as int]@;
            let y = rvec(fs@);
            assert(rvec(x@) =~= y.push(slack));
            assert(q_pos(slack) && solves(amat, y.push(slack), rhs_spec(msize as int)));
            // the certified residual of the normalization row is the mass
            let row = Seq::new(
                y.len() + 1,
                |j: int|
                    if j < y.len() {
                        q_one()
                    } else {
                        q_zero()
                    },
            );
            assert(amat[msize - 1] =~= row);
            assert(q_eq(q_dot(row, rvec(x@)), rvec(b@)[msize - 1]));
            assert(rvec(b@)[msize - 1] == q_one());
            assert forall|t: int| 0 <= t < y.len() implies q_pos(#[trigger] y[t]) by {
                assert(y[t] == fs@[t]@);
            }
            assert forall|t: int| 0 <= t < row.len() implies q_pos(#[trigger] row[t]) by {}
            lemma_q_dot_norm_row(y, slack);
            lemma_q_sum_pos(y);
            lemma_q_dot_pos(row, y.push(slack));
            lemma_q_eq_trans(q_sum(y), q_dot(row, rvec(x@)), q_one());
        }
        self.final_states = clone_vecf(&fs);
        Ok(fs)
    }
}

} // verus!
