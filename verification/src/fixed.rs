//! Fixed-point numbers with eighteen decimal places, carried as `i128`
//! integers scaled by `FIXED_ONE`: the arithmetic the reputation scores are
//! computed in. Products and quotients are rounded towards zero, and an
//! operation whose exact result leaves the `i128` range reports it instead
//! of wrapping.
use vstd::prelude::*;
use crate::statistics::{fits_i128, trunc_div, FIXED_ONE};

verus! {

/// The fixed-point product of `a` and `b`: `a * b / FIXED_ONE`, rounded
/// towards zero.
pub open spec fn fixed_mul(a: int, b: int) -> int {
    trunc_div(a * b, FIXED_ONE as int)
}

/// The integer `n` as a fixed-point number.
pub open spec fn fixed_from_int(n: int) -> int {
    n * (FIXED_ONE as int)
}

pub open spec fn magnitude(x: int) -> int {
    if x < 0 { -x } else { x }
}

/// The magnitude of an `i128`, which always fits in a `u128`.
pub fn unsigned_magnitude(x: i128) -> (m: u128)
    ensures
        m == magnitude(x as int),
        m <= 170141183460469231731687303715884105728u128,
{
    if x < 0 {
        if x == i128::MIN {
            170141183460469231731687303715884105728u128
        } else {
            (-x) as u128
        }
    } else {
        x as u128
    }
}

/// The `i128` with magnitude `m`, negated when `negative`; `None` when it
/// does not fit.
pub fn signed_from_magnitude(m: u128, negative: bool) -> (r: Option<i128>)
    ensures
        r is Some <==> fits_i128(if negative { -(m as int) } else { m as int }),
        r matches Some(x) ==> x == (if negative { -(m as int) } else { m as int }),
{
    if negative {
        if m == 170141183460469231731687303715884105728u128 {
            Some(i128::MIN)
        } else if m < 170141183460469231731687303715884105728u128 {
            Some(-(m as i128))
        } else {
            None
        }
    } else {
        if m < 170141183460469231731687303715884105728u128 {
            Some(m as i128)
        } else {
            None
        }
    }
}

proof fn lemma_split_product(x: int, y: int, d: int)
    requires
        x >= 0,
        y >= 0,
        d > 0,
    ensures
        (x * y) / d == (x / d) * (y / d) * d + (x / d) * (y % d) + (x % d) * (y / d) + ((x % d) * (y % d)) / d,
{
    let x1 = x / d;
    let x0 = x % d;
    let y1 = y / d;
    let y0 = y % d;
    vstd::arithmetic::div_mod::lemma_fundamental_div_mod(x, d);
    vstd::arithmetic::div_mod::lemma_fundamental_div_mod(y, d);
    let hi = x1 * y1 * d + x1 * y0 + x0 * y1;
    assert(x * y == (d * x1) * y + x0 * y) by (nonlinear_arith)
        requires
            x == d * x1 + x0,
    ;
    assert((d * x1) * y == (d * x1) * (d * y1) + (d * x1) * y0) by (nonlinear_arith)
        requires
            y == d * y1 + y0,
    ;
    assert(x0 * y == x0 * (d * y1) + x0 * y0) by (nonlinear_arith)
        requires
            y == d * y1 + y0,
    ;
    assert((d * x1) * (d * y1) == (x1 * y1 * d) * d) by (nonlinear_arith);
    assert((d * x1) * y0 == (x1 * y0) * d) by (nonlinear_arith);
    assert(x0 * (d * y1) == (x0 * y1) * d) by (nonlinear_arith);
    assert(hi * d == (x1 * y1 * d) * d + (x1 * y0) * d + (x0 * y1) * d) by (nonlinear_arith)
        requires
            hi == x1 * y1 * d + x1 * y0 + x0 * y1,
    ;
    assert(x * y == hi * d + x0 * y0);
    vstd::arithmetic::div_mod::lemma_mod_pos_bound(x, d);
    vstd::arithmetic::div_mod::lemma_mod_pos_bound(y, d);
    assert(x0 * y0 >= 0) by (nonlinear_arith)
        requires
            x0 >= 0,
            y0 >= 0,
    ;
    vstd::arithmetic::div_mod::lemma_hoist_over_denominator(x0 * y0, hi, d as nat);
}

/// The fixed-point product `a * b / FIXED_ONE`, rounded towards zero,
/// computed without forming `a * b`; `None` exactly when the product leaves
/// the `i128` range.
pub fn fixed_mul_checked(a: i128, b: i128) -> (r: Option<i128>)
    ensures
        r is Some <==> fits_i128(fixed_mul(a as int, b as int)),
        r matches Some(x) ==> x == fixed_mul(a as int, b as int),
{
    let ua = unsigned_magnitude(a);
    let ub = unsigned_magnitude(b);
    let one: u128 = FIXED_ONE;
    let a1 = ua / one;
    let a0 = ua % one;
    let b1 = ub / one;
    let b0 = ub % one;
    let ghost m: int = (ua as int) * (ub as int) / (one as int);
    proof {
        lemma_split_product(ua as int, ub as int, one as int);
        assert(a1 <= 170141183460469231731int) by (nonlinear_arith)
            requires
                a1 == ua as int / one as int,
                ua <= 170141183460469231731687303715884105728u128,
                one == 1_000_000_000_000_000_000u128,
        ;
        assert(b1 <= 170141183460469231731int) by (nonlinear_arith)
            requires
                b1 == ub as int / one as int,
                ub <= 170141183460469231731687303715884105728u128,
                one == 1_000_000_000_000_000_000u128,
        ;
        assert(a1 * b0 <= 170141183460469231731int * 1_000_000_000_000_000_000int) by (nonlinear_arith)
            requires
                a1 <= 170141183460469231731int,
                0 <= b0 < 1_000_000_000_000_000_000int,
                a1 >= 0,
        ;
        assert(a0 * b1 <= 170141183460469231731int * 1_000_000_000_000_000_000int) by (nonlinear_arith)
            requires
                b1 <= 170141183460469231731int,
                0 <= a0 < 1_000_000_000_000_000_000int,
                b1 >= 0,
        ;
        assert(a0 * b0 < 1_000_000_000_000_000_000int * 1_000_000_000_000_000_000int) by (nonlinear_arith)
            requires
                0 <= a0 < 1_000_000_000_000_000_000int,
                0 <= b0 < 1_000_000_000_000_000_000int,
        ;
        assert(a1 * b0 >= 0 && a0 * b1 >= 0 && a0 * b0 >= 0 && a1 * b1 >= 0) by (nonlinear_arith)
            requires
                a1 >= 0,
                b1 >= 0,
                a0 >= 0,
                b0 >= 0,
        ;
        assert((a0 * b0) / (one as int) >= 0) by (nonlinear_arith)
            requires
                a0 * b0 >= 0,
                one > 0,
        ;
        assert(a1 * b1 * (one as int) >= 0) by (nonlinear_arith)
            requires
                a1 * b1 >= 0,
                one > 0,
        ;
    }
    let t2: u128 = a1 * b0;
    let t3: u128 = a0 * b1;
    let t4: u128 = (a0 * b0) / one;
    proof {
        assert(m == a1 * b1 * (one as int) + t2 + t3 + t4);
        assert(a1 * b1 * (one as int) >= a1 * b1) by (nonlinear_arith)
            requires
                a1 * b1 >= 0,
                one >= 1,
        ;
        assert(magnitude(a * b) == (ua as int) * (ub as int)) by (nonlinear_arith)
            requires
                ua == magnitude(a as int),
                ub == magnitude(b as int),
        ;
    }
    let p = match a1.checked_mul(b1) {
        Some(p) => p,
        None => {
            return None;
        },
    };
    let t1 = match p.checked_mul(one) {
        Some(t1) => t1,
        None => {
            proof {
                assert(p * one == a1 * b1 * (one as int));
            }
            return None;
        },
    };
    proof {
        assert(t1 == a1 * b1 * (one as int));
    }
    let s1 = match t1.checked_add(t2) {
        Some(s1) => s1,
        None => {
            return None;
        },
    };
    let s2 = match s1.checked_add(t3) {
        Some(s2) => s2,
        None => {
            return None;
        },
    };
    let mm = match s2.checked_add(t4) {
        Some(mm) => mm,
        None => {
            return None;
        },
    };
    let negative = (a < 0) != (b < 0);
    proof {
        assert(mm == m);
        assert((a * b < 0) ==> negative) by (nonlinear_arith)
            requires
                negative == ((a < 0) != (b < 0)),
        ;
        if mm != 0 {
            assert(ua != 0 && ub != 0) by {
                if ua == 0 || ub == 0 {
                    assert((ua as int) * (ub as int) == 0) by (nonlinear_arith)
                        requires
                            ua == 0 || ub == 0,
                    ;
                }
            }
            assert(a != 0 && b != 0);
            assert(negative ==> a * b < 0) by (nonlinear_arith)
                requires
                    negative == ((a < 0) != (b < 0)),
                    a != 0,
                    b != 0,
            ;
        }
    }
    signed_from_magnitude(mm, negative && mm != 0)
}

/// Ten to the power `k`.
pub open spec fn pow10(k: nat) -> nat
    decreases k,
{
    if k == 0 {
        1
    } else {
        10 * pow10((k - 1) as nat)
    }
}

proof fn lemma_pow10_mono(i: nat, j: nat)
    requires
        i <= j,
    ensures
        1 <= pow10(i) <= pow10(j),
    decreases j,
{
    if j > i {
        lemma_pow10_mono(i, (j - 1) as nat);
    } else if j > 0 {
        lemma_pow10_mono(0, (j - 1) as nat);
    }
}

proof fn lemma_fixed_one_is_pow10()
    ensures
        FIXED_ONE as int == pow10(18),
{
    reveal_with_fuel(pow10, 19);
}

/// The fixed-point quotient `a / b` with eighteen decimal places (`a` and
/// `b` carried as integers scaled by `FIXED_ONE`, so the scaled result is
/// `a * FIXED_ONE / b`), rounded towards zero.
pub open spec fn fixed_div(a: int, b: int) -> int {
    trunc_div(a * (FIXED_ONE as int), b)
}

/// `10 * x` divided by `b`, for `x < b`: the quotient digit and the
/// remainder, by adding `x` ten times and reducing each time, so that no
/// intermediate value exceeds `2 * b`.
fn times_ten_divmod(x: u128, b: u128) -> (res: (u128, u128))
    requires
        x < b,
        b <= 170141183460469231731687303715884105728u128,
    ensures
        res.0 * b + res.1 == 10 * x,
        res.1 < b,
        res.0 < 10,
{
    let mut d: u128 = 0;
    let mut r: u128 = 0;
    let mut j: u128 = 0;
    while j < 10
        invariant
            j <= 10,
            x < b,
            b <= 170141183460469231731687303715884105728u128,
            d * b + r == j * x,
            r < b,
            d <= j,
        decreases 10 - j,
    {
        proof {
            assert((j + 1) * x == j * x + x) by (nonlinear_arith);
        }
        r = r + x;
        if r >= b {
            r = r - b;
            d = d + 1;
            proof {
                assert((d - 1) * b + b == d * b) by (nonlinear_arith);
            }
        }
        j = j + 1;
    }
    assert(d < 10) by (nonlinear_arith)
        requires
            d * b + r == 10 * x,
            x < b,
            d <= 10,
            r >= 0,
    ;
    (d, r)
}

/// `a * FIXED_ONE / b` on magnitudes, by long division one decimal digit at
/// a time, so that only the quotient itself has to fit; `None` exactly when
/// it does not fit in a `u128`.
fn scaled_div_checked(a: u128, b: u128) -> (r: Option<u128>)
    requires
        0 < b <= 170141183460469231731687303715884105728u128,
    ensures
        r is Some <==> (a as int) * (FIXED_ONE as int) / (b as int) <= u128::MAX,
        r matches Some(q) ==> q == (a as int) * (FIXED_ONE as int) / (b as int),
{
    let ghost top: int = (a as int) * (FIXED_ONE as int) / (b as int);
    proof {
        lemma_fixed_one_is_pow10();
        reveal_with_fuel(pow10, 1);
        vstd::arithmetic::div_mod::lemma_fundamental_div_mod(a as int, b as int);
    }
    let mut q: u128 = a / b;
    let mut rem: u128 = a % b;
    proof {
        assert(q * b + rem == (a as int) * pow10(0)) by (nonlinear_arith)
            requires
                a == (b as int) * (a as int / b as int) + (a as int % b as int),
                q == a as int / b as int,
                rem == a as int % b as int,
                pow10(0) == 1,
        ;
        lemma_pow10_mono(0, 18);
        assert((a as int) <= (a as int) * pow10(18)) by (nonlinear_arith)
            requires
                pow10(18) >= 1,
                a >= 0,
        ;
        vstd::arithmetic::div_mod::lemma_div_is_ordered(a as int, (a as int) * pow10(18), b as int);
    }
    let mut k: u32 = 0;
    while k < 18
        invariant
            0 < b <= 170141183460469231731687303715884105728u128,
            k <= 18,
            top == (a as int) * pow10(18) / (b as int),
            top == (a as int) * (FIXED_ONE as int) / (b as int),
            q * b + rem == (a as int) * pow10(k as nat),
            q <= top,
            rem < b,
        decreases 18 - k,
    {
        let (d, r) = times_ten_divmod(rem, b);
        let ghost next: int = (a as int) * pow10((k + 1) as nat);
        proof {
            assert(next == 10 * ((a as int) * pow10(k as nat))) by (nonlinear_arith)
                requires
                    next == (a as int) * pow10((k + 1) as nat),
                    pow10((k + 1) as nat) == 10 * pow10(k as nat),
            ;
            assert((10 * q + d) * b + r == next) by (nonlinear_arith)
                requires
                    q * b + rem == (a as int) * pow10(k as nat),
                    d * b + r == 10 * rem,
                    next == 10 * ((a as int) * pow10(k as nat)),
            ;
            vstd::arithmetic::div_mod::lemma_fundamental_div_mod_converse(next, b as int, 10 * q + d, r as int);
            lemma_pow10_mono((k + 1) as nat, 18);
            assert((a as int) * pow10((k + 1) as nat) <= (a as int) * pow10(18)) by (nonlinear_arith)
                requires
                    pow10((k + 1) as nat) <= pow10(18),
                    a >= 0,
            ;
            vstd::arithmetic::div_mod::lemma_div_is_ordered(next, (a as int) * pow10(18), b as int);
        }
        proof {
            assert(10 * q + d <= top);
        }
        let tq = match q.checked_mul(10) {
            Some(t) => t,
            None => {
                proof {
                    assert(top > u128::MAX);
                }
                return None;
            },
        };
        q = match tq.checked_add(d) {
            Some(t) => t,
            None => {
                proof {
                    assert(top > u128::MAX);
                }
                return None;
            },
        };
        rem = r;
        k = k + 1;
    }
    proof {
        vstd::arithmetic::div_mod::lemma_fundamental_div_mod_converse(
            (a as int) * pow10(18),
            b as int,
            q as int,
            rem as int,
        );
    }
    Some(q)
}

/// The fixed-point quotient `a / b`, rounded towards zero; `None` exactly
/// when it leaves the `i128` range.
pub fn fixed_div_checked(a: i128, b: i128) -> (r: Option<i128>)
    requires
        b != 0,
    ensures
        r is Some <==> fits_i128(fixed_div(a as int, b as int)),
        r matches Some(x) ==> x == fixed_div(a as int, b as int),
{
    let ua = unsigned_magnitude(a);
    let ub = unsigned_magnitude(b);
    let ghost one: int = FIXED_ONE as int;
    proof {
        assert(magnitude(a * one) == (ua as int) * one) by (nonlinear_arith)
            requires
                ua == magnitude(a as int),
                one > 0,
        ;
        assert((a * one < 0) == (a < 0)) by (nonlinear_arith)
            requires
                one > 0,
        ;
        assert((ua as int) * one / (ub as int) >= 0) by (nonlinear_arith)
            requires
                ua >= 0,
                ub > 0,
                one > 0,
        ;
    }
    match scaled_div_checked(ua, ub) {
        Some(q) => {
            let negative = (a < 0) != (b < 0);
            signed_from_magnitude(q, negative)
        },
        None => None,
    }
}

/// Dividing by a whole number in fixed point is integer division of the
/// scaled numerator.
pub proof fn lemma_fixed_div_by_int(a: int, n: int)
    requires
        n >= 1,
    ensures
        fixed_div(a, fixed_from_int(n)) == trunc_div(a, n),
{
    let one = FIXED_ONE as int;
    let x = magnitude(a);
    assert(magnitude(a * one) == x * one) by (nonlinear_arith)
        requires
            x == magnitude(a),
            one > 0,
    ;
    assert((a * one < 0) == (a < 0)) by (nonlinear_arith)
        requires
            one > 0,
    ;
    assert(n * one > 0) by (nonlinear_arith)
        requires
            n >= 1,
            one > 0,
    ;
    vstd::arithmetic::div_mod::lemma_div_denominator(x * one, one, n);
    vstd::arithmetic::div_mod::lemma_div_by_multiple(x, one);
    assert(one * n == n * one) by (nonlinear_arith);
}

} // verus!
