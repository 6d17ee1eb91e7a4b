//! Exact rational values for the evaluator.
//!
//! The evaluator works on quotients of machine integers instead of
//! floating-point numbers: a value is `num / den` with `den > 0`, kept
//! unreduced. Every operation states exactly which fraction it produces;
//! an operation whose numerator or denominator would leave the symmetric
//! range `-i64::MAX ..= i64::MAX` yields no result, as does division or
//! remainder by zero and a negative power of zero.

use vstd::arithmetic::div_mod::{lemma_fundamental_div_mod, lemma_mod_division_less_than_divisor};
use vstd::arithmetic::power::{
    lemma0_pow, lemma1_pow, lemma_pow0, lemma_pow1, lemma_pow_adds, lemma_pow_increases,
    lemma_pow_positive, pow,
};
use vstd::math::abs;
use vstd::prelude::*;

use crate::token::Operator;

verus! {

/// An exact rational number: `num / den` with a positive denominator. The
/// numerator stays in the symmetric range `-i64::MAX ..= i64::MAX`, so its
/// magnitude always fits the type as well.
#[derive(Debug, Clone, Copy, PartialEq, Eq)]
pub struct Rational {
    pub num: i64,
    pub den: i64,
}

impl View for Rational {
    type V = (int, int);

    open spec fn view(&self) -> (int, int) {
        (self.num as int, self.den as int)
    }
}

impl Rational {
    /// Well-formed: positive denominator, numerator not `i64::MIN`.
    pub open spec fn wf(self) -> bool {
        0 < self.den && i64::MIN < self.num
    }

    /// The rational for a whole number.
    pub fn from_u32(n: u32) -> (r: Rational)
        ensures
            r@ == (n as int, 1int),
            r.wf(),
    {
        Rational { num: n as i64, den: 1 }
    }
}

/// A numerator or denominator the representation can hold.
pub open spec fn rat_fits(x: int) -> bool {
    -(i64::MAX as int) <= x <= i64::MAX as int
}

/// Turn a raw fraction with nonzero denominator into a representable value:
/// move the sign to the numerator, then check the range.
pub open spec fn sp_norm(n: int, d: int) -> Option<(int, int)> {
    let n2 = if d < 0 {
        -n
    } else {
        n
    };
    let d2 = if d < 0 {
        -d
    } else {
        d
    };
    if rat_fits(n2) && rat_fits(d2) {
        Some((n2, d2))
    } else {
        None
    }
}

/// `a + b` as a fraction over the common denominator.
pub open spec fn sp_add(a: (int, int), b: (int, int)) -> Option<(int, int)> {
    sp_norm(a.0 * b.1 + b.0 * a.1, a.1 * b.1)
}

/// `a - b` as a fraction over the common denominator.
pub open spec fn sp_sub(a: (int, int), b: (int, int)) -> Option<(int, int)> {
    sp_norm(a.0 * b.1 - b.0 * a.1, a.1 * b.1)
}

/// `a * b`.
pub open spec fn sp_mul(a: (int, int), b: (int, int)) -> Option<(int, int)> {
    sp_norm(a.0 * b.0, a.1 * b.1)
}

/// `a / b`; none when `b` is zero.
pub open spec fn sp_div(a: (int, int), b: (int, int)) -> Option<(int, int)> {
    if b.0 == 0 {
        None
    } else {
        sp_norm(a.0 * b.1, a.1 * b.0)
    }
}

/// `(r * l) / 100`: `l` percent of `r`.
pub open spec fn sp_perc(l: (int, int), r: (int, int)) -> Option<(int, int)> {
    sp_norm(r.0 * l.0, r.1 * l.1 * 100)
}

/// `v` truncated toward zero.
pub open spec fn sp_trunc(v: (int, int)) -> int {
    if v.0 >= 0 {
        v.0 / v.1
    } else {
        -((-v.0) / v.1)
    }
}

/// `l - trunc(l / r) * r`, the truncated remainder (its sign follows `l`);
/// none when `r` is zero.
pub open spec fn sp_rem(l: (int, int), r: (int, int)) -> Option<(int, int)> {
    if r.0 == 0 {
        None
    } else {
        let p = l.0 * r.1;
        let q = l.1 * r.0;
        let t = abs(p) as int / abs(q) as int;
        let m = t * abs(q);
        let numr = if p >= 0 {
            p - m
        } else {
            p + m
        };
        sp_norm(numr, l.1 * r.1)
    }
}

/// The exponent the power operator uses: the left operand truncated toward
/// zero, clamped to the range of `i32` as a float-to-integer cast would be.
pub open spec fn sp_exponent(l: (int, int)) -> int {
    let t = sp_trunc(l);
    if t > i32::MAX as int {
        i32::MAX as int
    } else if t < i32::MIN as int {
        i32::MIN as int
    } else {
        t
    }
}

/// The power operation: the base is the right operand `r`, the exponent the
/// truncated left operand `l`. A negative exponent inverts the base, so a
/// negative power of zero yields none.
pub open spec fn sp_pow(l: (int, int), r: (int, int)) -> Option<(int, int)> {
    let e = sp_exponent(l);
    if e >= 0 {
        sp_norm(pow(r.0, e as nat), pow(r.1, e as nat))
    } else if r.0 == 0 {
        None
    } else {
        sp_norm(pow(r.1, (-e) as nat), pow(r.0, (-e) as nat))
    }
}

/// What applying `op` to left operand `l` and right operand `r` yields.
pub open spec fn sp_apply(op: Operator, l: (int, int), r: (int, int)) -> Option<(int, int)> {
    match op {
        Operator::Add => sp_add(l, r),
        Operator::Sub => sp_sub(l, r),
        Operator::Mul => sp_mul(l, r),
        Operator::Div => sp_div(l, r),
        Operator::Pow => sp_pow(l, r),
        Operator::Rem => sp_rem(l, r),
        Operator::Perc => sp_perc(l, r),
    }
}

/// The product of two values within `±m` stays within `±(m * m)`.
proof fn lemma_mul_bound(x: int, y: int, m: int)
    requires
        -m <= x <= m,
        -m <= y <= m,
        0 <= m,
    ensures
        -(m * m) <= x * y <= m * m,
{
    assert(-(m * m) <= x * y <= m * m) by (nonlinear_arith)
        requires
            -m <= x <= m,
            -m <= y <= m,
            0 <= m,
    ;
}

/// The product of two positive values is at least each factor.
proof fn lemma_mul_pos(x: int, y: int)
    requires
        1 <= x,
        1 <= y,
    ensures
        x <= x * y,
        y <= x * y,
{
    assert(x <= x * y && y <= x * y) by (nonlinear_arith)
        requires
            1 <= x,
            1 <= y,
    ;
}

/// Bring a raw fraction into the representation, as `sp_norm` states.
fn norm128(n: i128, d: i128) -> (res: Option<Rational>)
    requires
        d != 0,
        n != i128::MIN,
        d != i128::MIN,
    ensures
        match res {
            Some(v) => v.wf() && sp_norm(n as int, d as int) == Some(v@),
            None => sp_norm(n as int, d as int) is None,
        },
{
    let n2: i128 = if d < 0 {
        -n
    } else {
        n
    };
    let d2: i128 = if d < 0 {
        -d
    } else {
        d
    };
    if -(i64::MAX as i128) <= n2 && n2 <= i64::MAX as i128 && d2 <= i64::MAX as i128 {
        Some(Rational { num: n2 as i64, den: d2 as i64 })
    } else {
        None
    }
}

/// The magnitude of an `i128` above the minimum.
fn abs128(x: i128) -> (m: u128)
    requires
        x != i128::MIN,
    ensures
        m == abs(x as int),
{
    if x < 0 {
        (-x) as u128
    } else {
        x as u128
    }
}

/// A power of `b` carries the power of the magnitude of `b`, negated exactly
/// when `b` is negative and the exponent is odd.
proof fn lemma_pow_sign(b: int, e: nat)
    ensures
        pow(b, e) == if b < 0 && e % 2 == 1 {
            -(pow(abs(b) as int, e))
        } else {
            pow(abs(b) as int, e)
        },
    decreases e,
{
    let a = abs(b) as int;
    if e == 0 {
        lemma_pow0(b);
        lemma_pow0(a);
    } else {
        let e1 = (e - 1) as nat;
        lemma_pow_sign(b, e1);
        let p1 = pow(a, e1);
        lemma_pow_adds(b, e1, 1);
        lemma_pow_adds(a, e1, 1);
        lemma_pow1(b);
        lemma_pow1(a);
        if b >= 0 {
            assert(pow(b, e) == pow(a, e));
        } else {
            if e % 2 == 1 {
                assert(pow(b, e1) == p1);
                assert(p1 * b == -(p1 * a)) by (nonlinear_arith)
                    requires
                        b == -a,
                ;
            } else {
                assert(pow(b, e1) == -p1);
                assert((-p1) * b == p1 * a) by (nonlinear_arith)
                    requires
                        b == -a,
                ;
            }
        }
    }
}

/// The power of a small magnitude, or a note that it leaves the range.
///
/// Repeated multiplication; each step checks the running product against
/// `i64::MAX`, and a step that leaves the range settles the whole power,
/// since powers of a base of at least one never shrink.
fn pow_fit(b: u64, e: u64) -> (res: Option<u64>)
    requires
        b <= i64::MAX as u64,
    ensures
        match res {
            Some(v) => v == pow(b as int, e as nat) && v <= i64::MAX as u64,
            None => pow(b as int, e as nat) > i64::MAX as int,
        },
{
    if e == 0 {
        proof {
            lemma_pow0(b as int);
        }
        return Some(1);
    }
    if b == 0 {
        proof {
            lemma0_pow(e as nat);
        }
        return Some(0);
    }
    if b == 1 {
        proof {
            lemma1_pow(e as nat);
        }
        return Some(1);
    }
    let mut acc: u64 = 1;
    let mut j: u64 = 0;
    proof {
        lemma_pow0(b as int);
    }
    while j < e
        invariant
            j <= e,
            2 <= b <= i64::MAX as u64,
            acc == pow(b as int, j as nat),
            acc <= i64::MAX as u64,
        decreases e - j,
    {
        proof {
            lemma_pow_adds(b as int, j as nat, 1);
            lemma_pow1(b as int);
            lemma_mul_bound(acc as int, b as int, i64::MAX as int);
        }
        let next: u128 = acc as u128 * b as u128;
        if next > i64::MAX as u128 {
            proof {
                lemma_pow_increases(b as nat, (j + 1) as nat, e as nat);
            }
            return None;
        }
        acc = next as u64;
        j = j + 1;
    }
    Some(acc)
}

/// The power operation on rationals, as `sp_pow` states: raise the right
/// operand `r` to the truncated and clamped left operand `l`.
fn pow_rational(l: &Rational, r: &Rational) -> (res: Option<Rational>)
    requires
        l.wf(),
        r.wf(),
    ensures
        match res {
            Some(v) => v.wf() && sp_pow(l@, r@) == Some(v@),
            None => sp_pow(l@, r@) is None,
        },
{
    let lm: u64 = if l.num < 0 {
        (-(l.num)) as u64
    } else {
        l.num as u64
    };
    let tm: u64 = lm / (l.den as u64);
    let neg = l.num < 0 && tm > 0;
    let em: u64 = if !neg {
        if tm > 2147483647 {
            2147483647
        } else {
            tm
        }
    } else {
        if tm > 2147483648 {
            2147483648
        } else {
            tm
        }
    };
    proof {
        assert(sp_exponent(l@) == if neg {
            -(em as int)
        } else {
            em as int
        });
    }
    let bn: u64 = if r.num < 0 {
        (-(r.num)) as u64
    } else {
        r.num as u64
    };
    let bd: u64 = r.den as u64;
    proof {
        lemma_pow_sign(r@.0, em as nat);
        lemma_pow_sign(r@.1, em as nat);
        lemma_pow_positive(bd as int, em as nat);
    }
    if !neg {
        let on = pow_fit(bn, em);
        let od = pow_fit(bd, em);
        match (on, od) {
            (Some(vn), Some(vd)) => {
                let num: i64 = if r.num < 0 && em % 2 == 1 {
                    -(vn as i64)
                } else {
                    vn as i64
                };
                Some(Rational { num, den: vd as i64 })
            },
            _ => None,
        }
    } else {
        if r.num == 0 {
            None
        } else {
            proof {
                lemma_pow_positive(bn as int, em as nat);
            }
            let on = pow_fit(bd, em);
            let od = pow_fit(bn, em);
            match (on, od) {
                (Some(vn), Some(vd)) => {
                    let num: i64 = if r.num < 0 && em % 2 == 1 {
                        -(vn as i64)
                    } else {
                        vn as i64
                    };
                    Some(Rational { num, den: vd as i64 })
                },
                _ => None,
            }
        }
    }
}

/// Apply `op` to left operand `l` and right operand `r`, exactly as
/// `sp_apply` states: the exact fraction when it is representable, nothing
/// when the operation has no value or the result does not fit.
pub fn apply(op: &Operator, l: &Rational, r: &Rational) -> (res: Option<Rational>)
    requires
        l.wf(),
        r.wf(),
    ensures
        match res {
            Some(v) => v.wf() && sp_apply(*op, l@, r@) == Some(v@),
            None => sp_apply(*op, l@, r@) is None,
        },
{
    let a: i128 = l.num as i128;
    let b: i128 = l.den as i128;
    let c: i128 = r.num as i128;
    let d: i128 = r.den as i128;
    proof {
        let m: int = i64::MAX as int;
        lemma_mul_bound(a as int, d as int, m);
        lemma_mul_bound(c as int, b as int, m);
        lemma_mul_bound(a as int, c as int, m);
        lemma_mul_bound(b as int, d as int, m);
        lemma_mul_bound(a as int, b as int, m);
        lemma_mul_bound(c as int, d as int, m);
        lemma_mul_bound(b as int, c as int, m);
        lemma_mul_pos(b as int, d as int);
    }
    match op {
        Operator::Add => norm128(a * d + c * b, b * d),
        Operator::Sub => norm128(a * d - c * b, b * d),
        Operator::Mul => norm128(a * c, b * d),
        Operator::Div => {
            if r.num == 0 {
                None
            } else {
                proof {
                    assert(b as int * c as int != 0) by (nonlinear_arith)
                        requires
                            1 <= b as int,
                            c as int != 0,
                    ;
                }
                norm128(a * d, b * c)
            }
        },
        Operator::Pow => pow_rational(l, r),
        Operator::Rem => {
            if r.num == 0 {
                None
            } else {
                proof {
                    assert(b as int * c as int != 0) by (nonlinear_arith)
                        requires
                            1 <= b as int,
                            c as int != 0,
                    ;
                }
                let p: i128 = a * d;
                let q: i128 = b * c;
                let pm: u128 = abs128(p);
                let qm: u128 = abs128(q);
                let tm: u128 = pm / qm;
                proof {
                    lemma_fundamental_div_mod(pm as int, qm as int);
                    lemma_mod_division_less_than_divisor(pm as int, qm as int);
                    assert((qm as int) * (tm as int) == (tm as int) * (qm as int))
                        by (nonlinear_arith);
                    assert((tm as int) * (qm as int) <= pm as int);
                }
                let mg: u128 = tm * qm;
                let mi: i128 = mg as i128;
                let numr: i128 = if p >= 0 {
                    p - mi
                } else {
                    p + mi
                };
                norm128(numr, b * d)
            }
        },
        Operator::Perc => {
            let n: i128 = c * a;
            let d1: i128 = d * b;
            if d1 > i64::MAX as i128 {
                proof {
                    assert(d1 as int == r@.1 * l@.1);
                    assert((r@.1 * l@.1) * 100 == (d1 as int) * 100);
                    assert((d1 as int) * 100 > i64::MAX as int);
                }
                None
            } else {
                norm128(n, d1 * 100)
            }
        },
    }
}

} // verus!
