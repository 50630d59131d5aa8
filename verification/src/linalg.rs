//! Exact dense linear algebra over rationals.
//!
//! The solver is a plain Gaussian elimination; nothing is assumed about
//! it.  Its results are *certified* instead: `check_solution` recomputes
//! every residual exactly, and its verdict is definitive in both
//! directions — a passed check proves the vector solves the system, a
//! failed one proves it does not.

use vstd::prelude::*;

use crate::rational::{
    add_frac, eq_frac, fits_i128, lemma_acc_step, lemma_pos_mul, lemma_q_eq_trans, mul_frac, q_add, q_eq,
    q_mul, q_one, q_pos, q_zero, reduce_frac, sub_frac, Frac, Ratio,
};
use vstd::pervasive::VecAdditionalExecFns;

verus! {

/// Why an exact solve produced no vector.
#[derive(Debug)]
pub enum SolveFailure {
    /// No nonzero pivot was available.  The payload, when construction
    /// succeeded, is a candidate kernel vector for the caller to certify.
    Singular(Option<Vec<Frac>>),
    /// An exact intermediate value left the `i128` range.
    Overflow,
}

pub open spec fn rvec(s: Seq<Frac>) -> Seq<Ratio> {
    s.map_values(|f: Frac| f@)
}

pub open spec fn vec_wf(s: Seq<Frac>) -> bool {
    forall|i: int| 0 <= i < s.len() ==> (#[trigger] s[i]).wf()
}

pub open spec fn seq_pos(s: Seq<Ratio>) -> bool {
    forall|i: int| 0 <= i < s.len() ==> q_pos(#[trigger] s[i])
}

pub open spec fn mat_wf(m: Seq<Vec<Frac>>, rows: int, cols: int) -> bool {
    &&& m.len() == rows
    &&& forall|i: int|
        0 <= i < rows ==> (#[trigger] m[i])@.len() == cols && vec_wf(m[i]@)
}

pub open spec fn mview(m: Seq<Vec<Frac>>) -> Seq<Seq<Ratio>> {
    m.map_values(|row: Vec<Frac>| rvec(row@))
}

/// Sum of a sequence of ratios, accumulated from the left.
pub open spec fn q_sum(s: Seq<Ratio>) -> Ratio
    decreases s.len(),
{
    if s.len() == 0 {
        q_zero()
    } else {
        q_add(q_sum(s.drop_last()), s.last())
    }
}

/// Dot product of two equally long sequences of ratios.
pub open spec fn q_dot(a: Seq<Ratio>, x: Seq<Ratio>) -> Ratio
    decreases a.len(),
{
    if a.len() == 0 {
        q_zero()
    } else {
        q_add(q_dot(a.drop_last(), x.drop_last()), q_mul(a.last(), x.last()))
    }
}

/// `x` solves the square system `a * x == b`.
pub open spec fn solves(a: Seq<Seq<Ratio>>, x: Seq<Ratio>, b: Seq<Ratio>) -> bool {
    forall|i: int| 0 <= i < a.len() ==> q_eq(q_dot(#[trigger] a[i], x), b[i])
}

pub proof fn lemma_q_sum_pos(s: Seq<Ratio>)
    requires
        seq_pos(s),
    ensures
        q_pos(q_sum(s)),
    decreases s.len(),
{
    if s.len() > 0 {
        lemma_q_sum_pos(s.drop_last());
        lemma_pos_mul(q_sum(s.drop_last()).d, s.last().d);
    }
}

/// Entries equal to the literal zero ratio drop out of a sum exactly:
/// the sum of a sequence that is zero outside `[a, b)` is the sum of
/// that window.
pub proof fn lemma_q_sum_all_zero(s: Seq<Ratio>)
    requires
        forall|i: int| 0 <= i < s.len() ==> s[i] == q_zero(),
    ensures
        q_sum(s) == q_zero(),
    decreases s.len(),
{
    if s.len() > 0 {
        lemma_q_sum_all_zero(s.drop_last());
    }
}

pub proof fn lemma_q_sum_zero_outside(s: Seq<Ratio>, a: int, b: int)
    requires
        0 <= a <= b <= s.len(),
        forall|i: int| 0 <= i < s.len() && !(a <= i < b) ==> s[i] == q_zero(),
    ensures
        q_sum(s) == q_sum(s.subrange(a, b)),
    decreases s.len(),
{
    if a == b {
        assert(s.subrange(a, b) =~= Seq::<Ratio>::empty());
        lemma_q_sum_all_zero(s);
    } else if b == s.len() {
        lemma_q_sum_zero_outside(s.drop_last(), a, b - 1);
        assert(s.drop_last().subrange(a, b - 1) =~= s.subrange(a, b).drop_last());
        assert(s.subrange(a, b).last() == s.last());
    } else {
        // the last entry is zero and adding zero is the exact identity
        let t = s.drop_last();
        assert(s.last() == q_zero());
        assert(q_add(q_sum(t), q_zero()) == q_sum(t));
        lemma_q_sum_zero_outside(t, a, b);
        assert(t.subrange(a, b) =~= s.subrange(a, b));
    }
}


/// Dotting with an all-ones row is the plain sum: multiplying by one is
/// the exact identity.
proof fn lemma_q_dot_ones(s: Seq<Ratio>)
    ensures
        q_dot(Seq::new(s.len(), |j: int| q_one()), s) == q_sum(s),
    decreases s.len(),
{
    let ones = Seq::new(s.len(), |j: int| q_one());
    if s.len() > 0 {
        lemma_q_dot_ones(s.drop_last());
        assert(ones.drop_last() =~= Seq::new(s.drop_last().len(), |j: int| q_one()));
        assert(ones.last() == q_one());
        assert(q_mul(q_one(), s.last()) == s.last());
    }
}

/// Dotting a vector extended by a slack coordinate with the
/// normalization row (ones, then a zero over the slack) gives the sum
/// of the vector proper.
pub proof fn lemma_q_dot_norm_row(y: Seq<Ratio>, slack: Ratio)
    requires
        seq_pos(y),
        q_pos(slack),
    ensures
        q_eq(
            q_dot(
                Seq::new(
                    y.len() + 1,
                    |j: int|
                        if j < y.len() {
                            q_one()
                        } else {
                            q_zero()
                        },
                ),
                y.push(slack),
            ),
            q_sum(y),
        ),
{
    let row = Seq::new(
        y.len() + 1,
        |j: int|
            if j < y.len() {
                q_one()
            } else {
                q_zero()
            },
    );
    let x = y.push(slack);
    assert(x.drop_last() =~= y);
    assert(row.drop_last() =~= Seq::new(y.len(), |j: int| q_one()));
    assert(row.last() == q_zero());
    assert(x.last() == slack);
    lemma_q_dot_ones(y);
    lemma_q_sum_pos(y);
    let sm = q_sum(y);
    let z = q_mul(q_zero(), slack);
    assert(q_dot(row, x) == q_add(sm, z));
    let sn = sm.n;
    let sd = sm.d;
    let kd = slack.d;
    let zn = z.n;
    assert(zn == 0 * slack.n);
    assert(0 * slack.n == 0) by (nonlinear_arith);
    assert(z.d == kd);
    assert(q_add(sm, z).n == sn * kd + zn * sd);
    assert(q_add(sm, z).d == sd * kd);
    assert((sn * kd + zn * sd) * sd == sn * (sd * kd)) by (nonlinear_arith)
        requires
            zn == 0,
    ;
    assert(q_eq(q_add(sm, z), sm));
}

pub proof fn lemma_q_dot_pos(a: Seq<Ratio>, x: Seq<Ratio>)
    requires
        seq_pos(a),
        seq_pos(x),
        a.len() == x.len(),
    ensures
        q_pos(q_dot(a, x)),
    decreases a.len(),
{
    if a.len() > 0 {
        lemma_q_dot_pos(a.drop_last(), x.drop_last());
        lemma_pos_mul(a.last().d, x.last().d);
        lemma_pos_mul(q_dot(a.drop_last(), x.drop_last()).d, (a.last().d * x.last().d));
    }
}

pub fn clone_vecf(v: &Vec<Frac>) -> (r: Vec<Frac>)
    ensures
        r@ == v@,
{
    let mut r: Vec<Frac> = Vec::new();
    let mut k: usize = 0;
    while k < v.len()
        invariant
            k <= v.len(),
            r@ == v@.take(k as int),
        decreases v.len() - k,
    {
        r.push(v[k]);
        proof {
            assert(v@.take(k as int + 1) =~= v@.take(k as int).push(v@[k as int]));
        }
        k = k + 1;
    }
    proof {
        assert(v@.take(v@.len() as int) =~= v@);
    }
    r
}

/// Exact dot product; `None` on overflow.
pub fn dot_frac(a: &Vec<Frac>, x: &Vec<Frac>) -> (r: Option<Frac>)
    requires
        vec_wf(a@),
        vec_wf(x@),
        a@.len() == x@.len(),
    ensures
        r matches Some(f) ==> f.wf() && q_eq(f@, q_dot(rvec(a@), rvec(x@))),
{
    let mut acc = crate::rational::frac_int(0);
    let mut k: usize = 0;
    proof {
        assert(rvec(a@).take(0) =~= Seq::<Ratio>::empty());
        assert(rvec(x@).take(0) =~= Seq::<Ratio>::empty());
    }
    while k < a.len()
        invariant
            vec_wf(a@),
            vec_wf(x@),
            a@.len() == x@.len(),
            k <= a.len(),
            acc.wf(),
            q_eq(acc@, q_dot(rvec(a@).take(k as int), rvec(x@).take(k as int))),
            q_pos(q_dot(rvec(a@).take(k as int), rvec(x@).take(k as int))),
        decreases a.len() - k,
    {
        let t = match mul_frac(a[k], x[k]) {
            Some(f) => f,
            None => return None,
        };
        let s = match add_frac(acc, t) {
            Some(f) => f,
            None => return None,
        };
        let s2 = reduce_frac(s);
        proof {
            let pa = rvec(a@).take(k as int);
            let px = rvec(x@).take(k as int);
            let na = rvec(a@).take(k as int + 1);
            let nx = rvec(x@).take(k as int + 1);
            assert(na.drop_last() =~= pa);
            assert(nx.drop_last() =~= px);
            assert(na.last() == a@[k as int]@);
            assert(nx.last() == x@[k as int]@);
            lemma_acc_step(acc@, q_dot(pa, px), t@, s@);
            lemma_q_eq_trans(s2@, s@, q_dot(na, nx));
        }
        acc = s2;
        k = k + 1;
    }
    proof {
        assert(rvec(a@).take(a@.len() as int) =~= rvec(a@));
        assert(rvec(x@).take(x@.len() as int) =~= rvec(x@));
    }
    Some(acc)
}

/// Recompute every residual of `a * x == b` exactly.  The verdict is
/// definitive either way: `Some(true)` certifies that `x` solves the
/// system, `Some(false)` that it does not.
pub fn check_solution(a: &Vec<Vec<Frac>>, x: &Vec<Frac>, b: &Vec<Frac>) -> (r: Option<bool>)
    requires
        mat_wf(a@, a@.len() as int, x@.len() as int),
        vec_wf(x@),
        vec_wf(b@),
        b@.len() == a@.len(),
    ensures
        r matches Some(t) ==> t == solves(mview(a@), rvec(x@), rvec(b@)),
{
    let mut i: usize = 0;
    while i < a.len()
        invariant
            mat_wf(a@, a@.len() as int, x@.len() as int),
            vec_wf(x@),
            vec_wf(b@),
            b@.len() == a@.len(),
            i <= a.len(),
            forall|r0: int|
                0 <= r0 < i ==> q_eq(q_dot(#[trigger] mview(a@)[r0], rvec(x@)), rvec(b@)[r0]),
        decreases a.len() - i,
    {
        let d = match dot_frac(&a[i], x) {
            Some(f) => f,
            None => return None,
        };
        let same = match eq_frac(&d, &b[i]) {
            Some(t) => t,
            None => return None,
        };
        proof {
            let row = mview(a@)[i as int];
            assert(row =~= rvec(a@[i as int]@));
            lemma_q_dot_pos(row, rvec(x@));
            if same {
                lemma_q_eq_trans(q_dot(row, rvec(x@)), d@, b@[i as int]@);
            } else {
                // a failing residual refutes the whole system
                if q_eq(q_dot(row, rvec(x@)), rvec(b@)[i as int]) {
                    lemma_q_eq_trans(d@, q_dot(row, rvec(x@)), rvec(b@)[i as int]);
                }
            }
        }
        if !same {
            return Some(false);
        }
        i = i + 1;
    }
    Some(true)
}

/// Exact division; the divisor must be nonzero.  `None` exactly when a
/// cross product or its sign correction leaves `i128`.
pub fn div_frac(a: Frac, b: Frac) -> (r: Option<Frac>)
    requires
        a.wf(),
        b.wf(),
        b.num != 0,
    ensures
        r matches Some(f) ==> f.wf(),
        r is Some <==> fits_i128(a.num * b.den) && fits_i128(a.den * b.num) && (a.den * b.num < 0
            ==> a.num * b.den != i128::MIN && a.den * b.num != i128::MIN),
{
    let n = match a.num.checked_mul(b.den) {
        Some(v) => v,
        None => return None,
    };
    let d = match a.den.checked_mul(b.num) {
        Some(v) => v,
        None => return None,
    };
    proof {
        assert(a.den * b.num != 0) by (nonlinear_arith)
            requires
                a.den >= 1,
                b.num != 0,
        ;
    }
    if d < 0 {
        if n == i128::MIN || d == i128::MIN {
            return None;
        }
        Some(Frac { num: -n, den: -d })
    } else {
        Some(Frac { num: n, den: d })
    }
}

/// Solve the square system `a * x == b` by Gaussian elimination with
/// exact rational arithmetic.  The vector it returns is well formed;
/// everything else about it is established by `check_solution`.
pub fn gauss_solve(a0: &Vec<Vec<Frac>>, b0: &Vec<Frac>) -> (r: Result<Vec<Frac>, SolveFailure>)
    requires
        mat_wf(a0@, a0@.len() as int, a0@.len() as int),
        vec_wf(b0@),
        b0@.len() == a0@.len(),
    ensures
        r matches Ok(x) ==> x@.len() == a0@.len() && vec_wf(x@),
        match r {
            Err(SolveFailure::Singular(Some(y))) => y@.len() == a0@.len() && vec_wf(y@),
            _ => true,
        },
{
    let n = a0.len();
    let mut a: Vec<Vec<Frac>> = Vec::new();
    let mut i: usize = 0;
    while i < n
        invariant
            mat_wf(a0@, n as int, n as int),
            i <= n,
            mat_wf(a@, i as int, n as int),
        decreases n - i,
    {
        a.push(clone_vecf(&a0[i]));
        i = i + 1;
    }
    let mut b = clone_vecf(b0);

    // forward elimination
    let mut k: usize = 0;
    while k < n
        invariant
            k <= n,
            n == a0@.len(),
            mat_wf(a@, n as int, n as int),
            vec_wf(b@),
            b@.len() == n,
        decreases n - k,
    {
        // find a row with a nonzero entry in column k
        let mut p = k;
        while p < n && a[p][k].num == 0
            invariant
                k <= p <= n,
                mat_wf(a@, n as int, n as int),
                k < n,
            decreases n - p,
        {
            p = p + 1;
        }
        if p == n {
            // no pivot: build a kernel candidate from the eliminated
            // upper-left triangle, for the caller to certify
            let mut y: Vec<Frac> = Vec::new();
            let mut f1: usize = 0;
            while f1 < n
                invariant
                    f1 <= n,
                    y@.len() == f1,
                    vec_wf(y@),
                decreases n - f1,
            {
                y.push(crate::rational::frac_int(0));
                f1 = f1 + 1;
            }
            y.set(k, crate::rational::frac_int(1));
            let mut i3 = k;
            while i3 > 0
                invariant
                    i3 <= k,
                    k < n,
                    y@.len() == n,
                    vec_wf(y@),
                    mat_wf(a@, n as int, n as int),
                decreases i3,
            {
                i3 = i3 - 1;
                let mut sacc = crate::rational::frac_int(0);
                let mut j3 = i3 + 1;
                while j3 <= k
                    invariant
                        i3 < j3 <= k + 1,
                        k < n,
                        y@.len() == n,
                        vec_wf(y@),
                        sacc.wf(),
                        mat_wf(a@, n as int, n as int),
                    decreases k + 1 - j3,
                {
                    let t = match mul_frac(a[i3][j3], y[j3]) {
                        Some(f) => f,
                        None => return Err(SolveFailure::Singular(None)),
                    };
                    let s2 = match add_frac(sacc, t) {
                        Some(f) => f,
                        None => return Err(SolveFailure::Singular(None)),
                    };
                    sacc = reduce_frac(s2);
                    j3 = j3 + 1;
                }
                let dii = a[i3][i3];
                if dii.num == 0 {
                    return Err(SolveFailure::Singular(None));
                }
                let ns = match sub_frac(crate::rational::frac_int(0), sacc) {
                    Some(f) => f,
                    None => return Err(SolveFailure::Singular(None)),
                };
                let yi = match div_frac(ns, dii) {
                    Some(f) => f,
                    None => return Err(SolveFailure::Singular(None)),
                };
                y.set(i3, reduce_frac(yi));
            }
            return Err(SolveFailure::Singular(Some(y)));
        }
        if p != k {
            let rp = clone_vecf(&a[p]);
            let rk = clone_vecf(&a[k]);
            a.set(p, rk);
            a.set(k, rp);
            let bp = b[p];
            let bk = b[k];
            b.set(p, bk);
            b.set(k, bp);
        }
        let pivot = a[k][k];
        let mut r0 = k + 1;
        while r0 < n
            invariant
                k < r0 <= n,
                k < n,
                mat_wf(a@, n as int, n as int),
                vec_wf(b@),
                b@.len() == n,
                pivot.wf(),
                pivot.num != 0,
            decreases n - r0,
        {
            let factor = match div_frac(a[r0][k], pivot) {
                Some(f) => f,
                None => return Err(SolveFailure::Overflow),
            };
            let mut nr: Vec<Frac> = Vec::new();
            let mut j: usize = 0;
            while j < n
                invariant
                    j <= n,
                    k < n,
                    r0 < n,
                    mat_wf(a@, n as int, n as int),
                    factor.wf(),
                    nr@.len() == j,
                    vec_wf(nr@),
                decreases n - j,
            {
                let t = match mul_frac(factor, a[k][j]) {
                    Some(f) => f,
                    None => return Err(SolveFailure::Overflow),
                };
                let s = match sub_frac(a[r0][j], t) {
                    Some(f) => f,
                    None => return Err(SolveFailure::Overflow),
                };
                nr.push(reduce_frac(s));
                j = j + 1;
            }
            let tb = match mul_frac(factor, b[k]) {
                Some(f) => f,
                None => return Err(SolveFailure::Overflow),
            };
            let sb = match sub_frac(b[r0], tb) {
                Some(f) => f,
                None => return Err(SolveFailure::Overflow),
            };
            a.set(r0, nr);
            b.set(r0, reduce_frac(sb));
            r0 = r0 + 1;
        }
        k = k + 1;
    }

    // back substitution
    let mut x: Vec<Frac> = Vec::new();
    let mut f0: usize = 0;
    while f0 < n
        invariant
            f0 <= n,
            x@.len() == f0,
            vec_wf(x@),
        decreases n - f0,
    {
        x.push(crate::rational::frac_int(0));
        f0 = f0 + 1;
    }
    let mut i2 = n;
    while i2 > 0
        invariant
            i2 <= n,
            mat_wf(a@, n as int, n as int),
            vec_wf(b@),
            b@.len() == n,
            x@.len() == n,
            vec_wf(x@),
        decreases i2,
    {
        i2 = i2 - 1;
        let mut s = b[i2];
        let mut j = i2 + 1;
        while j < n
            invariant
                i2 < j || j == i2 + 1,
                j <= n,
                i2 < n,
                mat_wf(a@, n as int, n as int),
                x@.len() == n,
                vec_wf(x@),
                s.wf(),
            decreases n - j,
        {
            let t = match mul_frac(a[i2][j], x[j]) {
                Some(f) => f,
                None => return Err(SolveFailure::Overflow),
            };
            let s4 = match sub_frac(s, t) {
                Some(f) => f,
                None => return Err(SolveFailure::Overflow),
            };
            s = reduce_frac(s4);
            j = j + 1;
        }
        let dii = a[i2][i2];
        if dii.num == 0 {
            return Err(SolveFailure::Singular(None));
        }
        let xi = match div_frac(s, dii) {
            Some(f) => f,
            None => return Err(SolveFailure::Overflow),
        };
        x.set(i2, reduce_frac(xi));
    }
    Ok(x)
}

} // verus!
