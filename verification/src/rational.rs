//! Exact rational arithmetic.
//!
//! `Frac` is the executable rational number: a numerator over a positive
//! denominator, both `i128`.  Its mathematical value is the spec-level
//! `Ratio`, a pair of unbounded integers.  Two ratios are equal
//! (`q_eq`) when they cross-multiply equally; all spec operations keep
//! denominators positive, which `q_eq`, `q_lt` and `q_le` rely on.

use vstd::prelude::*;

verus! {

/// Mathematical value of a rational: numerator `n` over denominator `d`,
/// with `d >= 1` maintained wherever a `Ratio` is produced.
pub struct Ratio {
    pub n: int,
    pub d: int,
}

pub open spec fn q_pos(r: Ratio) -> bool {
    r.d >= 1
}

/// Does a mathematical integer fit the machine word of a `Frac` field?
pub open spec fn fits_i128(x: int) -> bool {
    i128::MIN <= x <= i128::MAX
}

/// Both cross products of a comparison fit the machine.
pub open spec fn cmp_fits(a: Frac, b: Frac) -> bool {
    fits_i128(a.num * b.den) && fits_i128(b.num * a.den)
}

pub open spec fn q_zero() -> Ratio {
    Ratio { n: 0, d: 1 }
}

pub open spec fn q_one() -> Ratio {
    Ratio { n: 1, d: 1 }
}

pub open spec fn q_int(i: int) -> Ratio {
    Ratio { n: i, d: 1 }
}

/// Value equality of two ratios (cross multiplication; sound for `d >= 1`).
pub open spec fn q_eq(a: Ratio, b: Ratio) -> bool {
    a.n * b.d == b.n * a.d
}

/// Strict order on ratios (sound for `d >= 1`).
pub open spec fn q_lt(a: Ratio, b: Ratio) -> bool {
    a.n * b.d < b.n * a.d
}

pub open spec fn q_le(a: Ratio, b: Ratio) -> bool {
    a.n * b.d <= b.n * a.d
}

pub open spec fn q_add(a: Ratio, b: Ratio) -> Ratio {
    Ratio { n: a.n * b.d + b.n * a.d, d: a.d * b.d }
}

pub open spec fn q_neg(a: Ratio) -> Ratio {
    Ratio { n: -a.n, d: a.d }
}

pub open spec fn q_sub(a: Ratio, b: Ratio) -> Ratio {
    q_add(a, q_neg(b))
}

pub open spec fn q_mul(a: Ratio, b: Ratio) -> Ratio {
    Ratio { n: a.n * b.n, d: a.d * b.d }
}

/// Two-step clamp: first bound by `hi`, then by `lo`.  The precedence
/// matters: when `lo` exceeds `hi`, the result is `lo`.
pub open spec fn q_clamp(x: Ratio, lo: Ratio, hi: Ratio) -> Ratio {
    let m = if q_lt(x, hi) { x } else { hi };
    if q_lt(lo, m) { m } else { lo }
}

/// Executable rational number; well-formed when the denominator is positive.
#[derive(Clone, Copy, Debug)]
pub struct Frac {
    pub num: i128,
    pub den: i128,
}

impl View for Frac {
    type V = Ratio;

    open spec fn view(&self) -> Ratio {
        Ratio { n: self.num as int, d: self.den as int }
    }
}

impl Frac {
    pub open spec fn wf(self) -> bool {
        self.den >= 1
    }
}

pub proof fn lemma_pos_mul(a: int, b: int)
    requires
        a >= 1,
        b >= 1,
    ensures
        a * b >= 1,
{
    assert(a * b >= 1) by (nonlinear_arith)
        requires
            a >= 1,
            b >= 1,
    ;
}

/// `q_eq` is transitive between ratios with positive denominators.
pub proof fn lemma_q_eq_trans(a: Ratio, b: Ratio, c: Ratio)
    requires
        q_pos(a),
        q_pos(b),
        q_pos(c),
        q_eq(a, b),
        q_eq(b, c),
    ensures
        q_eq(a, c),
{
    assert(a.n * c.d * b.d == c.n * a.d * b.d) by (nonlinear_arith)
        requires
            a.n * b.d == b.n * a.d,
            b.n * c.d == c.n * b.d,
    ;
    assert(a.n * c.d == c.n * a.d) by (nonlinear_arith)
        requires
            a.n * c.d * b.d == c.n * a.d * b.d,
            b.d >= 1,
    ;
}

/// Adding equal ratios to equal ratios gives equal ratios.
pub proof fn lemma_q_add_congr(a: Ratio, a2: Ratio, b: Ratio, b2: Ratio)
    requires
        q_pos(a),
        q_pos(a2),
        q_pos(b),
        q_pos(b2),
        q_eq(a, a2),
        q_eq(b, b2),
    ensures
        q_eq(q_add(a, b), q_add(a2, b2)),
        q_pos(q_add(a, b)),
        q_pos(q_add(a2, b2)),
{
    let an = a.n;
    let ad = a.d;
    let cn = a2.n;
    let cd = a2.d;
    let bn = b.n;
    let bd = b.d;
    let en = b2.n;
    let ed = b2.d;
    vstd::arithmetic::mul::lemma_mul_is_distributive_add_other_way(cd * ed, an * bd, bn * ad);
    assert((an * bd) * (cd * ed) == (an * cd) * (bd * ed)) by (nonlinear_arith);
    assert((bn * ad) * (cd * ed) == (bn * ed) * (ad * cd)) by (nonlinear_arith);
    assert((an * cd) * (bd * ed) == (cn * ad) * (bd * ed));
    assert((bn * ed) * (ad * cd) == (en * bd) * (ad * cd));
    vstd::arithmetic::mul::lemma_mul_is_distributive_add_other_way(ad * bd, cn * ed, en * cd);
    assert((cn * ad) * (bd * ed) == (cn * ed) * (ad * bd)) by (nonlinear_arith);
    assert((en * bd) * (ad * cd) == (en * cd) * (ad * bd)) by (nonlinear_arith);
    lemma_pos_mul(a.d, b.d);
    lemma_pos_mul(a2.d, b2.d);
}

/// One accumulation step: replacing the accumulator by an equal ratio
/// does not change the value of the running sum.
pub proof fn lemma_acc_step(acc: Ratio, p: Ratio, t: Ratio, r2: Ratio)
    requires
        q_pos(acc),
        q_pos(p),
        q_pos(t),
        q_pos(r2),
        q_eq(acc, p),
        q_eq(r2, q_add(acc, t)),
    ensures
        q_eq(r2, q_add(p, t)),
        q_pos(q_add(p, t)),
{
    lemma_q_add_congr(acc, p, t, t);
    lemma_q_eq_trans(r2, q_add(acc, t), q_add(p, t));
}

/// Order on ratios is transitive; the step is strict as soon as one of
/// the two links is.
pub proof fn lemma_q_le_trans(a: Ratio, b: Ratio, c: Ratio)
    requires
        q_pos(a),
        q_pos(b),
        q_pos(c),
        q_le(a, b),
        q_le(b, c),
    ensures
        q_le(a, c),
        q_lt(a, b) || q_lt(b, c) ==> q_lt(a, c),
{
    let an = a.n;
    let ad = a.d;
    let bn = b.n;
    let bd = b.d;
    let cn = c.n;
    let cd = c.d;
    assert(an * cd * bd <= cn * ad * bd) by (nonlinear_arith)
        requires
            an * bd <= bn * ad,
            bn * cd <= cn * bd,
            ad >= 1,
            bd >= 1,
            cd >= 1,
    ;
    assert(an * cd <= cn * ad) by (nonlinear_arith)
        requires
            an * cd * bd <= cn * ad * bd,
            bd >= 1,
    ;
    if an * bd < bn * ad || bn * cd < cn * bd {
        assert(an * cd * bd < cn * ad * bd) by (nonlinear_arith)
            requires
                an * bd <= bn * ad,
                bn * cd <= cn * bd,
                an * bd < bn * ad || bn * cd < cn * bd,
                ad >= 1,
                bd >= 1,
                cd >= 1,
        ;
        assert(an * cd < cn * ad) by (nonlinear_arith)
            requires
                an * cd * bd < cn * ad * bd,
                bd >= 1,
        ;
    }
}

/// The clamp law: a value below an ordered range clamps to the lower
/// bound, one above it to the upper bound, one inside stays itself, and
/// an inverted range always yields the lower bound.
pub proof fn lemma_q_clamp_contract(x: Ratio, lo: Ratio, hi: Ratio)
    requires
        q_pos(x),
        q_pos(lo),
        q_pos(hi),
    ensures
        q_le(lo, hi) && q_lt(x, lo) ==> q_clamp(x, lo, hi) == lo,
        q_le(lo, hi) && q_lt(hi, x) ==> q_eq(q_clamp(x, lo, hi), hi),
        q_le(lo, x) && q_le(x, hi) ==> q_eq(q_clamp(x, lo, hi), x),
        q_lt(hi, lo) ==> q_clamp(x, lo, hi) == lo,
{
    if q_le(lo, hi) && q_lt(x, lo) {
        lemma_q_le_trans(x, lo, hi);
    }
    if q_le(lo, x) && q_le(x, hi) {
        if q_lt(x, hi) {
            if !q_lt(lo, x) {
                assert(q_eq(lo, x));
            }
        } else {
            assert(q_eq(x, hi));
            if q_lt(lo, hi) {
                assert(q_eq(q_clamp(x, lo, hi), x));
            } else {
                lemma_q_le_trans(lo, x, hi);
                assert(q_eq(lo, hi));
                lemma_q_eq_trans(lo, hi, x);
            }
        }
    }
    if q_lt(hi, lo) {
        if q_lt(x, hi) {
            lemma_q_le_trans(x, hi, lo);
        }
    }
}

/// Adding the zero ratio on the left is the exact identity.
pub proof fn lemma_q_add_zero_left(x: Ratio)
    ensures
        q_add(q_zero(), x) == x,
{
}

/// Adding the zero ratio on the right is the exact identity.
pub proof fn lemma_q_add_zero_right(x: Ratio)
    ensures
        q_add(x, q_zero()) == x,
{
}

/// A ratio and its negation cancel.
pub proof fn lemma_q_add_neg(u: Ratio)
    ensures
        q_eq(q_add(u, q_neg(u)), q_zero()),
{
    let un = u.n;
    let ud = u.d;
    assert(un * ud + (-un) * ud == 0) by (nonlinear_arith);
}

/// The balance identity behind a generator column: two outgoing rates
/// and the negated sum of both add up to zero.
pub proof fn lemma_q_balance(u: Ratio, d: Ratio)
    ensures
        q_eq(q_add(q_add(u, q_neg(q_add(u, d))), d), q_zero()),
{
    let un = u.n;
    let ud = u.d;
    let dn = d.n;
    let dd = d.d;
    assert((un * (ud * dd) + (-(un * dd + dn * ud)) * ud) * dd + dn * (ud * (ud * dd)) == 0)
        by (nonlinear_arith);
}


/// Addition respects the order of ratios.
pub proof fn lemma_q_add_le(a: Ratio, a2: Ratio, b: Ratio, b2: Ratio)
    requires
        q_pos(a),
        q_pos(a2),
        q_pos(b),
        q_pos(b2),
        q_le(a, a2),
        q_le(b, b2),
    ensures
        q_le(q_add(a, b), q_add(a2, b2)),
{
    let an = a.n;
    let ad = a.d;
    let cn = a2.n;
    let cd = a2.d;
    let bn = b.n;
    let bd = b.d;
    let en = b2.n;
    let ed = b2.d;
    vstd::arithmetic::mul::lemma_mul_is_distributive_add_other_way(cd * ed, an * bd, bn * ad);
    vstd::arithmetic::mul::lemma_mul_is_distributive_add_other_way(ad * bd, cn * ed, en * cd);
    assert((an * bd) * (cd * ed) == (an * cd) * (bd * ed)) by (nonlinear_arith);
    assert((bn * ad) * (cd * ed) == (bn * ed) * (ad * cd)) by (nonlinear_arith);
    assert((an * cd) * (bd * ed) <= (cn * ad) * (bd * ed)) by (nonlinear_arith)
        requires
            an * cd <= cn * ad,
            bd >= 1,
            ed >= 1,
    ;
    assert((bn * ed) * (ad * cd) <= (en * bd) * (ad * cd)) by (nonlinear_arith)
        requires
            bn * ed <= en * bd,
            ad >= 1,
            cd >= 1,
    ;
    assert((cn * ad) * (bd * ed) == (cn * ed) * (ad * bd)) by (nonlinear_arith);
    assert((en * bd) * (ad * cd) == (en * cd) * (ad * bd)) by (nonlinear_arith);
}

/// Scaling a non-negative ratio by the smaller of two integer weights
/// stays below scaling it by the larger.
pub proof fn lemma_q_scale_le(w1: int, w2: int, p: Ratio)
    requires
        q_pos(p),
        p.n >= 0,
        w1 <= w2,
    ensures
        q_le(q_mul(q_int(w1), p), q_mul(q_int(w2), p)),
{
    let pn = p.n;
    let pd = p.d;
    assert((w1 * pn) * (1 * pd) <= (w2 * pn) * (1 * pd)) by (nonlinear_arith)
        requires
            w1 <= w2,
            pn >= 0,
            pd >= 1,
    ;
}

pub fn frac_new(num: i128, den: i128) -> (r: Frac)
    requires
        den >= 1,
    ensures
        r.wf(),
        r@ == (Ratio { n: num as int, d: den as int }),
{
    Frac { num, den }
}

pub fn frac_int(i: i128) -> (r: Frac)
    ensures
        r.wf(),
        r@ == q_int(i as int),
{
    Frac { num: i, den: 1 }
}

/// Exact addition; `None` exactly when an intermediate leaves `i128`.
pub fn add_frac(a: Frac, b: Frac) -> (r: Option<Frac>)
    requires
        a.wf(),
        b.wf(),
    ensures
        r matches Some(f) ==> f.wf() && f@ == q_add(a@, b@),
        r is Some <==> fits_i128(a.num * b.den) && fits_i128(b.num * a.den) && fits_i128(
            a.num * b.den + b.num * a.den,
        ) && fits_i128(a.den * b.den),
{
    let x = match a.num.checked_mul(b.den) {
        Some(v) => v,
        None => return None,
    };
    let y = match b.num.checked_mul(a.den) {
        Some(v) => v,
        None => return None,
    };
    let n = match x.checked_add(y) {
        Some(v) => v,
        None => return None,
    };
    let d = match a.den.checked_mul(b.den) {
        Some(v) => v,
        None => return None,
    };
    proof {
        lemma_pos_mul(a.den as int, b.den as int);
    }
    Some(Frac { num: n, den: d })
}

/// Exact multiplication; `None` exactly on `i128` overflow.
pub fn mul_frac(a: Frac, b: Frac) -> (r: Option<Frac>)
    requires
        a.wf(),
        b.wf(),
    ensures
        r matches Some(f) ==> f.wf() && f@ == q_mul(a@, b@),
        r is Some <==> fits_i128(a.num * b.num) && fits_i128(a.den * b.den),
{
    let n = match a.num.checked_mul(b.num) {
        Some(v) => v,
        None => return None,
    };
    let d = match a.den.checked_mul(b.den) {
        Some(v) => v,
        None => return None,
    };
    proof {
        lemma_pos_mul(a.den as int, b.den as int);
    }
    Some(Frac { num: n, den: d })
}

pub fn neg_frac(a: Frac) -> (r: Option<Frac>)
    requires
        a.wf(),
    ensures
        r matches Some(f) ==> f.wf() && f@ == q_neg(a@),
        r is Some <==> a.num != i128::MIN,
{
    if a.num == i128::MIN {
        None
    } else {
        Some(Frac { num: -a.num, den: a.den })
    }
}

pub fn sub_frac(a: Frac, b: Frac) -> (r: Option<Frac>)
    requires
        a.wf(),
        b.wf(),
    ensures
        r matches Some(f) ==> f.wf() && f@ == q_sub(a@, b@),
        r is Some <==> b.num != i128::MIN && fits_i128(a.num * b.den) && fits_i128(
            (-b.num) * a.den,
        ) && fits_i128(a.num * b.den + (-b.num) * a.den) && fits_i128(a.den * b.den),
{
    let nb = match neg_frac(b) {
        Some(v) => v,
        None => return None,
    };
    add_frac(a, nb)
}

/// Exact comparison for equality; `None` exactly on `i128` overflow.
pub fn eq_frac(a: &Frac, b: &Frac) -> (r: Option<bool>)
    requires
        a.wf(),
        b.wf(),
    ensures
        r matches Some(t) ==> t == q_eq(a@, b@),
        r is Some <==> cmp_fits(*a, *b),
{
    let x = match a.num.checked_mul(b.den) {
        Some(v) => v,
        None => return None,
    };
    let y = match b.num.checked_mul(a.den) {
        Some(v) => v,
        None => return None,
    };
    Some(x == y)
}

/// Exact strict comparison; `None` exactly on `i128` overflow.
pub fn lt_frac(a: &Frac, b: &Frac) -> (r: Option<bool>)
    requires
        a.wf(),
        b.wf(),
    ensures
        r matches Some(t) ==> t == q_lt(a@, b@),
        r is Some <==> cmp_fits(*a, *b),
{
    let x = match a.num.checked_mul(b.den) {
        Some(v) => v,
        None => return None,
    };
    let y = match b.num.checked_mul(a.den) {
        Some(v) => v,
        None => return None,
    };
    Some(x < y)
}

/// Clamp with the two-step structure of `q_clamp`: the upper bound is
/// applied first, so a `lo` above `hi` wins.
pub fn clamp_frac(x: Frac, lo: Frac, hi: Frac) -> (r: Option<Frac>)
    requires
        x.wf(),
        lo.wf(),
        hi.wf(),
    ensures
        r matches Some(f) ==> f.wf() && f@ == q_clamp(x@, lo@, hi@),
        r is Some <==> cmp_fits(x, hi) && cmp_fits(
            lo,
            if q_lt(x@, hi@) {
                x
            } else {
                hi
            },
        ),
{
    let m = match lt_frac(&x, &hi) {
        Some(true) => x,
        Some(false) => hi,
        None => return None,
    };
    match lt_frac(&lo, &m) {
        Some(true) => Some(m),
        Some(false) => Some(lo),
        None => None,
    }
}

fn gcd_u128(a: u128, b: u128) -> (g: u128)
    requires
        b >= 1,
    ensures
        g >= 1,
{
    let mut x = a;
    let mut y = b;
    while y != 0
        invariant
            x >= 1 || y >= 1,
        decreases y,
    {
        let t = x % y;
        x = y;
        y = t;
    }
    x
}

/// Bring a fraction to lower terms when that is possible within `i128`,
/// without changing its value; falls back to the argument itself.
pub fn reduce_frac(f: Frac) -> (r: Frac)
    requires
        f.wf(),
    ensures
        r.wf(),
        q_eq(r@, f@),
{
    if f.num == i128::MIN {
        return f;
    }
    let neg = f.num < 0;
    let a: u128 = if neg {
        (-f.num) as u128
    } else {
        f.num as u128
    };
    let d: u128 = f.den as u128;
    let g = gcd_u128(a, d);
    let n2 = a / g;
    let d2 = d / g;
    if d2 >= 1 && n2 <= (i128::MAX as u128) && d2 <= (i128::MAX as u128) {
        let nc = match n2.checked_mul(g) {
            Some(v) => v,
            None => return f,
        };
        let dc = match d2.checked_mul(g) {
            Some(v) => v,
            None => return f,
        };
        if nc == a && dc == d {
            let nn: i128 = if neg {
                -(n2 as i128)
            } else {
                n2 as i128
            };
            let r = Frac { num: nn, den: d2 as i128 };
            proof {
                assert((n2 as int) * (f.den as int) == (a as int) * (d2 as int)) by (nonlinear_arith)
                    requires
                        (n2 as int) * (g as int) == a as int,
                        (d2 as int) * (g as int) == f.den as int,
                ;
                assert(r@.n * f@.d == f@.n * r@.d) by (nonlinear_arith)
                    requires
                        (n2 as int) * (f.den as int) == (a as int) * (d2 as int),
                        r@.n == if neg { -(n2 as int) } else { n2 as int },
                        r@.d == d2 as int,
                        f@.n == if neg { -(a as int) } else { a as int },
                        f@.d == f.den as int,
                ;
            }
            return r;
        }
    }
    f
}

} // verus!
