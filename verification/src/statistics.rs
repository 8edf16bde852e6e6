//! Summary statistics: mean, sample variance and z-score filtering of
//! outliers over integers; min-max normalisation and quantiles over
//! fixed-point numbers; and the outlier-filtered weighted mean of weighted
//! fixed-point measurements.
//!
//! Integer division in Rust truncates towards zero; `trunc_div` is that
//! operation on mathematical integers, and every contract below that divides
//! uses it.
use vstd::prelude::*;
use crate::fixed::{
    fixed_div, fixed_div_checked, fixed_from_int, fixed_mul, fixed_mul_checked, lemma_fixed_div_by_int,
};
use crate::reputation::{RangeError, WeightedFloat};

verus! {

/// Division of mathematical integers rounding towards zero, as `/` on Rust's
/// signed integers does.
pub open spec fn trunc_div(a: int, b: int) -> int {
    let q = (if a < 0 { -a } else { a }) / (if b < 0 { -b } else { b });
    if (a < 0) != (b < 0) { -q } else { q }
}

pub open spec fn fits_i128(x: int) -> bool {
    i128::MIN <= x <= i128::MAX
}

/// The sum of a sequence of integers.
pub open spec fn seq_sum(s: Seq<i128>) -> int
    decreases s.len(),
{
    if s.len() == 0 {
        0
    } else {
        seq_sum(s.drop_last()) + s.last()
    }
}

/// Every running total met while adding `s` from left to right fits in an `i128`.
pub open spec fn sum_fits(s: Seq<i128>) -> bool {
    forall|i: int| 0 <= i <= s.len() ==> #[trigger] fits_i128(seq_sum(s.take(i)))
}

/// The arithmetic mean of a non-empty sequence, rounded towards zero.
pub open spec fn mean_spec(s: Seq<i128>) -> int {
    trunc_div(seq_sum(s), s.len() as int)
}

/// The sum of squared deviations of `s` from `m`.
pub open spec fn sq_dev_sum(s: Seq<i128>, m: int) -> int
    decreases s.len(),
{
    if s.len() == 0 {
        0
    } else {
        sq_dev_sum(s.drop_last(), m) + (s.last() - m) * (s.last() - m)
    }
}

/// The sample variance (divided by `n - 1`), rounded down; a single value
/// has variance one by convention.
pub open spec fn variance_spec(s: Seq<i128>) -> int {
    if s.len() == 1 {
        1
    } else {
        sq_dev_sum(s, mean_spec(s)) / (s.len() - 1)
    }
}

/// No intermediate value of the variance computation leaves the `i128` range.
pub open spec fn variance_fits(s: Seq<i128>) -> bool {
    s.len() >= 2 ==> {
        let m = mean_spec(s);
        &&& sum_fits(s)
        &&& forall|i: int|
            0 <= i < s.len() ==> fits_i128(#[trigger] s[i] - m) && fits_i128(
                (s[i] - m) * (s[i] - m),
            )
        &&& forall|i: int| 0 <= i <= s.len() ==> #[trigger] fits_i128(sq_dev_sum(s.take(i), m))
    }
}

/// The z-score used to filter outliers: squared deviation over variance.
pub open spec fn z_score_spec(x: int, mean: int, variance: int) -> int {
    trunc_div((x - mean) * (x - mean), variance)
}

/// Whether `x` passes the outlier test against the mean and variance of `s`:
/// its z-score is below nine.
pub open spec fn z_keep(s: Seq<i128>) -> spec_fn(i128) -> bool {
    |x: i128| z_score_spec(x as int, mean_spec(s), variance_spec(s)) < 9
}

/// What `z_score_normalize_filter` leaves of `s`: when the variance is
/// positive, the values that pass the outlier test, in their order.
pub open spec fn z_filter_spec(s: Seq<i128>) -> Seq<i128> {
    if s.len() == 0 {
        s
    } else if variance_spec(s) > 0 {
        s.filter(z_keep(s))
    } else {
        s
    }
}

proof fn lemma_take_succ<T>(s: Seq<T>, i: int)
    requires
        0 <= i < s.len(),
    ensures
        s.take(i + 1).drop_last() == s.take(i),
        s.take(i + 1).last() == s[i],
{
    assert(s.take(i + 1).drop_last() =~= s.take(i));
}

/// Divides rounding towards zero, computed on magnitudes.
pub(crate) fn div_trunc(a: i128, b: i128) -> (r: i128)
    requires
        b != 0,
        !(a == i128::MIN && b == -1),
    ensures
        r == trunc_div(a as int, b as int),
{
    let ua: u128 = if a < 0 {
        if a == i128::MIN {
            170141183460469231731687303715884105728u128
        } else {
            (-a) as u128
        }
    } else {
        a as u128
    };
    let ub: u128 = if b < 0 {
        if b == i128::MIN {
            170141183460469231731687303715884105728u128
        } else {
            (-b) as u128
        }
    } else {
        b as u128
    };
    let q = ua / ub;
    proof {
        let ai = if a < 0 { -(a as int) } else { a as int };
        let bi = if b < 0 { -(b as int) } else { b as int };
        assert(ua == ai);
        assert(ub == bi);
        assert(q == ai / bi);
        assert(q <= ai) by (nonlinear_arith)
            requires
                q == ai / bi,
                bi >= 1,
                ai >= 0,
        ;
        if (a < 0) == (b < 0) {
            if a == i128::MIN {
                assert(bi >= 2);
                assert(q <= ai / 2) by (nonlinear_arith)
                    requires
                        q == ai / bi,
                        bi >= 2,
                        ai >= 0,
                ;
            }
        }
    }
    if (a < 0) != (b < 0) {
        if q == 170141183460469231731687303715884105728u128 {
            i128::MIN
        } else {
            -(q as i128)
        }
    } else {
        q as i128
    }
}

/// Maps `value` from the range `[min_value, max_value]` onto `[0, 1]`:
/// `(value - min_value) / (max_value - min_value)`, on fixed-point numbers
/// with eighteen decimal places (each carried as an `i128` scaled by
/// `FIXED_ONE`), the quotient rounded towards zero.
pub fn min_max_normalize(value: i128, min_value: i128, max_value: i128) -> (r: i128)
    requires
        max_value != min_value,
        fits_i128(value - min_value),
        fits_i128(max_value - min_value),
        fits_i128(fixed_div(value - min_value, max_value - min_value)),
    ensures
        r == fixed_div(value - min_value, max_value - min_value),
{
    match fixed_div_checked(value - min_value, max_value - min_value) {
        Some(r) => r,
        None => {
            proof {
                assert(false);
            }
            0
        },
    }
}

/// Maps `value` onto `[0, 1]` as `min_max_normalize` does, or `None` when the
/// bounds are closer together than `EPSILON` (`1e-8` in the fixed-point
/// scale), where the quotient would not be meaningful.
pub fn try_min_max_normalize(value: i128, min_value: i128, max_value: i128) -> (r: Option<i128>)
    requires
        fits_i128(value - min_value),
        fits_i128(max_value - min_value),
        fits_i128(min_value - max_value),
        abs_int(max_value - min_value) >= EPSILON ==> fits_i128(fixed_div(value - min_value, max_value - min_value)),
    ensures
        r is None <==> abs_int(max_value - min_value) < EPSILON,
        r matches Some(x) ==> x == fixed_div(value - min_value, max_value - min_value),
{
    if abs_difference(min_value, max_value) < EPSILON {
        return None;
    }
    Some(min_max_normalize(value, min_value, max_value))
}

/// The absolute value.
pub open spec fn abs_int(x: int) -> int {
    if x < 0 { -x } else { x }
}

/// The distance between `a` and `b`.
pub fn abs_difference(a: i128, b: i128) -> (r: i128)
    requires
        fits_i128(a - b),
        fits_i128(b - a),
    ensures
        r == (if a > b { a - b } else { b - a }),
{
    if a > b {
        a - b
    } else {
        b - a
    }
}

fn sum_values(values: &[i128]) -> (s: i128)
    requires
        sum_fits(values@),
    ensures
        s == seq_sum(values@),
{
    let mut sum: i128 = 0;
    let n = values.len();
    assert(values@.take(0) =~= Seq::<i128>::empty());
    for i in 0..n
        invariant
            n == values@.len(),
            sum_fits(values@),
            sum == seq_sum(values@.take(i as int)),
    {
        proof {
            lemma_take_succ(values@, i as int);
            assert(fits_i128(seq_sum(values@.take(i + 1))));
        }
        sum = sum + values[i];
    }
    assert(values@.take(n as int) =~= values@);
    sum
}

/// The mean of `values`, rounded towards zero; `None` exactly when there are
/// no values.
pub fn calculate_mean(values: &[i128]) -> (r: Option<i128>)
    requires
        sum_fits(values@),
    ensures
        values@.len() == 0 <==> r is None,
        r matches Some(m) ==> m == mean_spec(values@),
{
    if values.len() != 0 {
        let sum = sum_values(values);
        let n = values.len() as i128;
        Some(div_trunc(sum, n))
    } else {
        None
    }
}

fn sum_sq_dev(values: &[i128], m: i128) -> (s: i128)
    requires
        values@.len() >= 2,
        variance_fits(values@),
        m == mean_spec(values@),
    ensures
        s == sq_dev_sum(values@, m as int),
{
    let mut acc: i128 = 0;
    let n = values.len();
    assert(values@.take(0) =~= Seq::<i128>::empty());
    for i in 0..n
        invariant
            n == values@.len(),
            n >= 2,
            variance_fits(values@),
            m == mean_spec(values@),
            acc == sq_dev_sum(values@.take(i as int), m as int),
    {
        proof {
            lemma_take_succ(values@, i as int);
            assert(fits_i128(sq_dev_sum(values@.take(i + 1), m as int)));
            assert(fits_i128(values@[i as int] - m));
        }
        let d = values[i] - m;
        let sq = d * d;
        acc = acc + sq;
    }
    assert(values@.take(n as int) =~= values@);
    acc
}

/// The sample variance of `values` (squared deviations from the mean,
/// divided by `n - 1`); one for a single value and `None` for none.
pub fn calculate_variance(values: &[i128]) -> (r: Option<i128>)
    requires
        variance_fits(values@),
    ensures
        values@.len() == 0 <==> r is None,
        r matches Some(v) ==> v == variance_spec(values@),
{
    if values.len() == 1 {
        return Some(1);
    }
    if values.len() == 0 {
        return None;
    }
    let m = match calculate_mean(values) {
        Some(m) => m,
        None => { return None; },
    };
    let s = sum_sq_dev(values, m);
    let n = values.len() as i128;
    proof {
        lemma_sq_dev_sum_nonneg(values@, m as int);
    }
    Some(s / (n - 1))
}

proof fn lemma_sq_dev_sum_nonneg(s: Seq<i128>, m: int)
    ensures
        sq_dev_sum(s, m) >= 0,
    decreases s.len(),
{
    if s.len() > 0 {
        lemma_sq_dev_sum_nonneg(s.drop_last(), m);
        let d = s.last() - m;
        assert(d * d >= 0) by (nonlinear_arith);
    }
}

/// The squared deviation of `x` from `mean`, divided by `variance`.
pub fn calculate_z_score(x: i128, mean: i128, variance: i128) -> (r: i128)
    requires
        variance != 0,
        fits_i128(x - mean),
        fits_i128((x - mean) * (x - mean)),
    ensures
        r == z_score_spec(x as int, mean as int, variance as int),
{
    let d = x - mean;
    proof {
        assert(d * d >= 0) by (nonlinear_arith);
    }
    div_trunc(d * d, variance)
}

proof fn lemma_single_fits(s: Seq<i128>)
    requires
        s.len() == 1,
    ensures
        sum_fits(s),
        mean_spec(s) == s[0],
{
    assert(s.take(0) =~= Seq::<i128>::empty());
    assert(s.take(1) =~= s);
    assert(s.drop_last() =~= Seq::<i128>::empty());
    assert(seq_sum(s.drop_last()) == 0);
    assert(seq_sum(s) == s[0]);
    let x = s[0] as int;
    assert((if x < 0 { -x } else { x }) / 1 == (if x < 0 { -x } else { x }));
    assert forall|i: int| 0 <= i <= s.len() implies #[trigger] fits_i128(seq_sum(s.take(i))) by {
        if i == 1 {
            assert(s.take(i) =~= s);
        } else {
            assert(s.take(i) =~= Seq::<i128>::empty());
        }
    }
}

/// Drops the outliers of `values`: when their variance is positive, keeps, in
/// order, the values whose z-score is below nine.
pub fn z_score_normalize_filter(values: &mut Vec<i128>)
    requires
        variance_fits(old(values)@),
    ensures
        final(values)@ == z_filter_spec(old(values)@),
{
    let ghost s = values@;
    if values.len() == 1 {
        proof {
            lemma_single_fits(s);
        }
    }
    if let Some(variance) = calculate_variance(values.as_slice()) {
        if variance > 0 {
            if let Some(mean) = calculate_mean(values.as_slice()) {
                let n = values.len();
                let mut kept: Vec<i128> = Vec::new();
                assert(s.take(0) =~= Seq::<i128>::empty());
                for i in 0..n
                    invariant
                        n == s.len(),
                        s == values@,
                        n >= 1,
                        variance == variance_spec(s),
                        variance > 0,
                        mean == mean_spec(s),
                        variance_fits(s),
                        n == 1 ==> mean == s[0],
                        kept@ == s.take(i as int).filter(z_keep(s)),
                {
                    proof {
                        lemma_take_succ(s, i as int);
                        reveal_with_fuel(Seq::<_>::filter, 1);
                    }
                    let x = values[i];
                    proof {
                        if n == 1 {
                            assert(x == s[0]);
                            assert(x - mean == 0);
                            assert((x - mean) * (x - mean) == 0) by (nonlinear_arith)
                                requires
                                    x - mean == 0,
                            ;
                        } else {
                            assert(fits_i128(s[i as int] - mean_spec(s)));
                        }
                    }
                    let z = calculate_z_score(x, mean, variance);
                    if z < 9 {
                        kept.push(x);
                    }
                }
                assert(s.take(n as int) =~= s);
                *values = kept;
            }
        }
    }
}

/// Normalising a value that lies between the bounds gives a number between
/// zero and one (`FIXED_ONE` in the fixed-point scale): zero for the lower
/// bound and one exactly for the upper bound. A larger value never
/// normalises to less.
pub proof fn law_min_max_normalize_unit(value: int, other: int, min_value: int, max_value: int)
    requires
        min_value < max_value,
        min_value <= value <= max_value,
        value <= other,
    ensures
        0 <= fixed_div(value - min_value, max_value - min_value) <= FIXED_ONE,
        fixed_div(value - min_value, max_value - min_value) == FIXED_ONE <==> value == max_value,
        fixed_div(0, max_value - min_value) == 0,
        fixed_div(value - min_value, max_value - min_value) <= fixed_div(other - min_value, max_value - min_value),
{
    let a = value - min_value;
    let c = other - min_value;
    let b = max_value - min_value;
    let one = FIXED_ONE as int;
    assert(0 <= (a * one) / b <= one) by (nonlinear_arith)
        requires
            0 <= a <= b,
            b > 0,
            one > 0,
    ;
    assert((a * one) / b == one <==> a == b) by (nonlinear_arith)
        requires
            0 <= a <= b,
            b > 0,
            one > 0,
    ;
    assert(a * one <= c * one) by (nonlinear_arith)
        requires
            a <= c,
            one > 0,
    ;
    assert(a * one >= 0) by (nonlinear_arith)
        requires
            a >= 0,
            one > 0,
    ;
    vstd::arithmetic::div_mod::lemma_div_is_ordered(a * one, c * one, b);
}

/// The outlier filter only drops values: what it keeps passes the outlier
/// test and comes from the input, every input value passing the test is
/// kept, and the result is no longer than the input.
pub proof fn law_z_filter_only_drops(s: Seq<i128>)
    requires
        s.len() > 0,
        variance_spec(s) > 0,
    ensures
        forall|i: int| 0 <= i < z_filter_spec(s).len() ==> (z_keep(s))(#[trigger] z_filter_spec(s)[i])
            && s.contains(z_filter_spec(s)[i]),
        forall|i: int| 0 <= i < s.len() && (z_keep(s))(s[i]) ==> #[trigger] z_filter_spec(s).contains(s[i]),
        z_filter_spec(s).len() <= s.len(),
{
    broadcast use vstd::seq_lib::group_filter_ensures;
    assert forall|i: int| 0 <= i < z_filter_spec(s).len() implies s.contains(#[trigger] z_filter_spec(s)[i]) by {
        s.lemma_filter_contains_rev(z_keep(s), z_filter_spec(s)[i]);
    }
}

/// Some value of `s` lies at least as close to `m` as every other.
proof fn lemma_closest(s: Seq<i128>, m: int) -> (j: int)
    requires
        s.len() > 0,
    ensures
        0 <= j < s.len(),
        forall|i: int| 0 <= i < s.len() ==> (s[j] - m) * (s[j] - m) <= #[trigger] ((s[i] - m) * (s[i] - m)),
    decreases s.len(),
{
    if s.len() == 1 {
        0
    } else {
        let k = lemma_closest(s.drop_last(), m);
        let l = s.len() - 1;
        assert forall|i: int| 0 <= i < l implies s.drop_last()[i] == #[trigger] s[i] by {}
        if (s[l] - m) * (s[l] - m) < (s[k] - m) * (s[k] - m) {
            assert forall|i: int| 0 <= i < s.len() implies (s[l] - m) * (s[l] - m) <= #[trigger] ((s[i] - m) * (
                s[i] - m)) by {
                if i < l {
                    assert(s.drop_last()[i] == s[i]);
                }
            }
            l
        } else {
            assert forall|i: int| 0 <= i < s.len() implies (s[k] - m) * (s[k] - m) <= #[trigger] ((s[i] - m) * (
                s[i] - m)) by {
                if i < l {
                    assert(s.drop_last()[i] == s[i]);
                }
            }
            k
        }
    }
}

/// The squared deviations of `s` add up to at least `len` times any lower
/// bound of each.
proof fn lemma_sq_dev_sum_lower(s: Seq<i128>, m: int, b: int)
    requires
        forall|i: int| 0 <= i < s.len() ==> b <= #[trigger] ((s[i] - m) * (s[i] - m)),
    ensures
        sq_dev_sum(s, m) >= s.len() * b,
    decreases s.len(),
{
    if s.len() > 0 {
        assert forall|i: int| 0 <= i < s.len() - 1 implies b <= #[trigger] ((s.drop_last()[i] - m) * (
            s.drop_last()[i] - m)) by {
            assert(s.drop_last()[i] == s[i]);
        }
        lemma_sq_dev_sum_lower(s.drop_last(), m, b);
        assert(b <= (s[s.len() - 1] - m) * (s[s.len() - 1] - m));
        assert(s.len() * b == (s.len() - 1) * b + b) by (nonlinear_arith);
    }
}

/// The outlier filter never empties a list: the value closest to the mean
/// always passes the test.
pub proof fn law_z_filter_keeps_one(s: Seq<i128>)
    requires
        s.len() > 0,
    ensures
        z_filter_spec(s).len() > 0,
{
    broadcast use vstd::seq_lib::group_filter_ensures;
    let v = variance_spec(s);
    if v > 0 {
        let m = mean_spec(s);
        let j = lemma_closest(s, m);
        let x = s[j] - m;
        let d = x * x;
        assert(x * x >= 0) by (nonlinear_arith);
        if s.len() >= 2 {
            lemma_sq_dev_sum_lower(s, m, d);
            let n = s.len() as int;
            let t = sq_dev_sum(s, m);
            assert(v == t / (n - 1));
            assert(d <= v) by (nonlinear_arith)
                requires
                    t >= n * d,
                    n >= 2,
                    d >= 0,
                    v == t / (n - 1),
            ;
        } else {
            assert(s[0] - m == 0) by {
                assert(s.drop_last().len() == 0);
                assert(seq_sum(s.drop_last()) == 0);
                assert(s.last() == s[0]);
                assert(seq_sum(s) == s[0]);
                assert(mean_spec(s) == s[0]);
            }
            assert(j == 0);
            assert(d == 0) by (nonlinear_arith)
                requires
                    x == 0,
                    d == x * x,
            ;
        }
        assert(trunc_div(d, v) == d / v);
        assert(d / v <= 1) by (nonlinear_arith)
            requires
                0 <= d <= v,
                v > 0,
        ;
        assert((z_keep(s))(s[j]));
        assert(s.contains(s[j]));
        assert(s.filter(z_keep(s)).contains(s[j]));
    }
}

/// One in the fixed-point scale used for quantiles: a quantile `q` is carried
/// as the integer `q * FIXED_ONE` (eighteen decimal places).
pub const FIXED_ONE: u128 = 1_000_000_000_000_000_000u128;

/// The smallest distance between the bounds that `try_min_max_normalize`
/// divides by: `1e-8` in the fixed-point scale.
pub const EPSILON: i128 = 10_000_000_000i128;

/// The largest quantile `approx_quantile` answers, `0.99`, in that scale.
pub const MAX_QUANTILE: u128 = 990_000_000_000_000_000u128;

pub open spec fn sorted(s: Seq<i128>) -> bool {
    forall|i: int, j: int| 0 <= i <= j < s.len() ==> s[i] <= s[j]
}

/// The position that quantile `q` (scaled by `FIXED_ONE`) picks among `n`
/// sorted values.
pub open spec fn quantile_index(q: u128, n: nat) -> int {
    (q * n) / (FIXED_ONE as int)
}

/// Sorts `v` in ascending order.
#[verifier::external_body]
fn sort_values(v: &mut Vec<i128>)
    ensures
        sorted(final(v)@),
        final(v)@.to_multiset() == old(v)@.to_multiset(),
{
    v.sort();
}

/// The value at quantile `q` (scaled by `FIXED_ONE`) of `values`: the
/// element at position `floor(q * n)` once the values are sorted. `None` when
/// `q` is above `0.99` or there are no values.
pub fn approx_quantile(values: Vec<i128>, q: u128) -> (r: Option<i128>)
    ensures
        r is Some <==> q <= MAX_QUANTILE && values@.len() > 0,
        r matches Some(x) ==> exists|t: Seq<i128>|
            #![trigger sorted(t)]
            sorted(t) && t.to_multiset() == values@.to_multiset() && t.len() == values@.len()
                && x == t[quantile_index(q, values@.len())],
{
    if q <= MAX_QUANTILE && values.len() != 0 {
        let mut values = values;
        let ghost before = values@;
        sort_values(&mut values);
        proof {
            before.to_multiset_ensures();
            values@.to_multiset_ensures();
        }
        let n = values.len();
        assert(q * n <= MAX_QUANTILE * n) by (nonlinear_arith)
            requires
                q <= MAX_QUANTILE,
        ;
        assert(MAX_QUANTILE * n < FIXED_ONE * n) by (nonlinear_arith)
            requires
                n >= 1,
        ;
        let index = (q * (n as u128)) / FIXED_ONE;
        assert(index < n) by (nonlinear_arith)
            requires
                index == (q * n) / (FIXED_ONE as int),
                q * n < FIXED_ONE * n,
                n >= 1,
        ;
        Some(values[index as usize])
    } else {
        None
    }
}

/// The values of weighted measurements.
pub open spec fn values_of(s: Seq<WeightedFloat>) -> Seq<i128> {
    s.map_values(|w: WeightedFloat| w.value)
}

/// The sum of each value times its weight, in fixed point.
pub open spec fn weighted_sum(s: Seq<WeightedFloat>) -> int
    decreases s.len(),
{
    if s.len() == 0 {
        0
    } else {
        weighted_sum(s.drop_last()) + fixed_mul(s.last().value as int, s.last().weight as int)
    }
}

/// Every weighted value, and every running total of them, fits in an `i128`.
pub open spec fn weighted_sum_fits(s: Seq<WeightedFloat>) -> bool {
    &&& forall|i: int| 0 <= i < s.len() ==> fits_i128(fixed_mul((#[trigger] s[i]).value as int, s[i].weight as int))
    &&& forall|i: int| 0 <= i <= s.len() ==> #[trigger] fits_i128(weighted_sum(s.take(i)))
}

/// The weighted mean of `values`: the sum of each value times its weight
/// (the weights are meant to sum to one), `Ok(None)` when there are no
/// values, and an error when a product or a running total leaves the `i128`
/// range.
pub fn calculate_weighted_mean(values: &[WeightedFloat]) -> (r: Result<Option<i128>, RangeError>)
    ensures
        r is Ok <==> weighted_sum_fits(values@),
        r matches Ok(m) ==> (m is None <==> values@.len() == 0),
        r matches Ok(Some(m)) ==> m == weighted_sum(values@),
{
    let n = values.len();
    let mut acc: i128 = 0;
    assert(values@.take(0) =~= Seq::<WeightedFloat>::empty());
    for i in 0..n
        invariant
            n == values@.len(),
            acc == weighted_sum(values@.take(i as int)),
            forall|j: int| 0 <= j < i ==> fits_i128(fixed_mul((#[trigger] values@[j]).value as int, values@[j].weight as int)),
            forall|j: int| 0 <= j <= i ==> #[trigger] fits_i128(weighted_sum(values@.take(j))),
    {
        proof {
            lemma_take_succ(values@, i as int);
        }
        let w = values[i];
        let p = match fixed_mul_checked(w.value, w.weight) {
            Some(p) => p,
            None => {
                return Err(RangeError);
            },
        };
        acc = match acc.checked_add(p) {
            Some(a) => a,
            None => {
                proof {
                    assert(!fits_i128(weighted_sum(values@.take(i + 1))));
                }
                return Err(RangeError);
            },
        };
    }
    assert(values@.take(n as int) =~= values@);
    if n == 0 {
        Ok(None)
    } else {
        Ok(Some(acc))
    }
}

/// The mean in fixed point: the sum divided by the count.
pub open spec fn fixed_mean(s: Seq<i128>) -> int {
    fixed_div(seq_sum(s), fixed_from_int(s.len() as int))
}

/// The sum of squared deviations from `m`, each square in fixed point.
pub open spec fn fixed_sq_dev_sum(s: Seq<i128>, m: int) -> int
    decreases s.len(),
{
    if s.len() == 0 {
        0
    } else {
        fixed_sq_dev_sum(s.drop_last(), m) + fixed_mul(s.last() - m, s.last() - m)
    }
}

/// The sample variance in fixed point; a single value has variance one.
pub open spec fn fixed_variance(s: Seq<i128>) -> int {
    if s.len() == 1 {
        fixed_from_int(1)
    } else {
        fixed_div(fixed_sq_dev_sum(s, fixed_mean(s)), fixed_from_int(s.len() - 1))
    }
}

/// No intermediate value of the fixed-point variance leaves the `i128`
/// range.
pub open spec fn fixed_stats_fit(s: Seq<i128>) -> bool {
    s.len() >= 2 ==> {
        let m = fixed_mean(s);
        &&& sum_fits(s)
        &&& forall|i: int|
            0 <= i < s.len() ==> fits_i128(#[trigger] s[i] - m) && fits_i128(fixed_mul(s[i] - m, s[i] - m))
        &&& forall|i: int| 0 <= i <= s.len() ==> #[trigger] fits_i128(fixed_sq_dev_sum(s.take(i), m))
    }
}

/// Whether a value passes the outlier test against the fixed-point mean and
/// variance of `s`: its squared deviation over the variance is below nine.
pub open spec fn fixed_z_keep(s: Seq<i128>) -> spec_fn(WeightedFloat) -> bool {
    |w: WeightedFloat|
        fixed_div(fixed_mul(w.value - fixed_mean(s), w.value - fixed_mean(s)), fixed_variance(s)) < fixed_from_int(9)
}

/// What the outlier filter leaves of weighted measurements: when the variance
/// of their values is positive, those that pass the outlier test, in order.
pub open spec fn weighted_z_filter_spec(s: Seq<WeightedFloat>) -> Seq<WeightedFloat> {
    if s.len() == 0 {
        s
    } else if fixed_variance(values_of(s)) > 0 {
        s.filter(fixed_z_keep(values_of(s)))
    } else {
        s
    }
}

proof fn lemma_fixed_sq_nonneg(d: int)
    ensures
        fixed_mul(d, d) >= 0,
{
    assert(d * d >= 0) by (nonlinear_arith);
    assert((d * d) / (FIXED_ONE as int) >= 0) by (nonlinear_arith)
        requires
            d * d >= 0,
    ;
}

proof fn lemma_fixed_sq_dev_sum_nonneg(s: Seq<i128>, m: int)
    ensures
        fixed_sq_dev_sum(s, m) >= 0,
    decreases s.len(),
{
    if s.len() > 0 {
        lemma_fixed_sq_dev_sum_nonneg(s.drop_last(), m);
        lemma_fixed_sq_nonneg(s.last() - m);
    }
}

proof fn lemma_fixed_div_nonneg(a: int, b: int)
    requires
        a >= 0,
        b > 0,
    ensures
        fixed_div(a, b) >= 0,
{
    assert(a * (FIXED_ONE as int) >= 0) by (nonlinear_arith)
        requires
            a >= 0,
    ;
    assert((a * (FIXED_ONE as int)) / b >= 0) by (nonlinear_arith)
        requires
            a * (FIXED_ONE as int) >= 0,
            b > 0,
    ;
}

/// The sum of the values of `values`; `None` exactly when a running total
/// leaves the `i128` range.
fn checked_value_sum(values: &[WeightedFloat]) -> (r: Option<i128>)
    ensures
        r is Some <==> sum_fits(values_of(values@)),
        r matches Some(x) ==> x == seq_sum(values_of(values@)),
{
    let ghost v = values_of(values@);
    let n = values.len();
    let mut acc: i128 = 0;
    assert(v.take(0) =~= Seq::<i128>::empty());
    for i in 0..n
        invariant
            n == values@.len(),
            v == values_of(values@),
            acc == seq_sum(v.take(i as int)),
            forall|j: int| 0 <= j <= i ==> #[trigger] fits_i128(seq_sum(v.take(j))),
    {
        proof {
            lemma_take_succ(v, i as int);
        }
        let x = values[i].value;
        acc = match acc.checked_add(x) {
            Some(a) => a,
            None => {
                proof {
                    assert(!fits_i128(seq_sum(v.take(i + 1))));
                }
                return None;
            },
        };
    }
    assert(v.take(n as int) =~= v);
    Some(acc)
}

/// The fixed-point sum of squared deviations of the values of `values` from
/// `m`; `None` exactly when a deviation, a square or a running total leaves
/// the `i128` range.
fn checked_fixed_sq_dev_sum(values: &[WeightedFloat], m: i128) -> (r: Option<i128>)
    ensures
        r is Some <==> {
            &&& forall|i: int|
                0 <= i < values@.len() ==> fits_i128(#[trigger] values_of(values@)[i] - m) && fits_i128(
                    fixed_mul(values_of(values@)[i] - m, values_of(values@)[i] - m),
                )
            &&& forall|i: int|
                0 <= i <= values@.len() ==> #[trigger] fits_i128(fixed_sq_dev_sum(values_of(values@).take(i), m as int))
        },
        r matches Some(x) ==> x == fixed_sq_dev_sum(values_of(values@), m as int),
{
    let ghost v = values_of(values@);
    let n = values.len();
    let mut acc: i128 = 0;
    assert(v.take(0) =~= Seq::<i128>::empty());
    for i in 0..n
        invariant
            n == values@.len(),
            v == values_of(values@),
            acc == fixed_sq_dev_sum(v.take(i as int), m as int),
            forall|j: int| 0 <= j < i ==> fits_i128(#[trigger] v[j] - m) && fits_i128(fixed_mul(v[j] - m, v[j] - m)),
            forall|j: int| 0 <= j <= i ==> #[trigger] fits_i128(fixed_sq_dev_sum(v.take(j), m as int)),
    {
        proof {
            lemma_take_succ(v, i as int);
        }
        let x = values[i].value;
        let d = match x.checked_sub(m) {
            Some(d) => d,
            None => {
                proof {
                    assert(!fits_i128(v[i as int] - m));
                }
                return None;
            },
        };
        let sq = match fixed_mul_checked(d, d) {
            Some(q) => q,
            None => {
                proof {
                    assert(!fits_i128(fixed_mul(v[i as int] - m, v[i as int] - m)));
                }
                return None;
            },
        };
        acc = match acc.checked_add(sq) {
            Some(a) => a,
            None => {
                proof {
                    assert(!fits_i128(fixed_sq_dev_sum(v.take(i + 1), m as int)));
                }
                return None;
            },
        };
    }
    assert(v.take(n as int) =~= v);
    Some(acc)
}

proof fn lemma_single_value_fits(v: Seq<i128>)
    requires
        v.len() == 1,
    ensures
        sum_fits(v),
        seq_sum(v) == v[0],
{
    assert(v.take(0) =~= Seq::<i128>::empty());
    assert(v.take(1) =~= v);
    assert(v.drop_last() =~= Seq::<i128>::empty());
    assert(seq_sum(v.drop_last()) == 0);
    assert(seq_sum(v) == v[0]);
    assert forall|i: int| 0 <= i <= v.len() implies #[trigger] fits_i128(seq_sum(v.take(i))) by {
        if i == 1 {
            assert(v.take(i) =~= v);
        } else {
            assert(v.take(i) =~= Seq::<i128>::empty());
        }
    }
}

/// Drops the outliers of weighted measurements: when the fixed-point variance
/// of their values is positive, keeps, in order, those whose squared
/// deviation over the variance is below nine. An error, leaving `values` as
/// it was, when a running total or a square leaves the `i128` range.
pub fn weighted_z_score_filter(values: &mut Vec<WeightedFloat>) -> (r: Result<(), RangeError>)
    ensures
        r is Ok <==> fixed_stats_fit(values_of(old(values)@)),
        r is Ok ==> final(values)@ == weighted_z_filter_spec(old(values)@),
        r is Err ==> final(values)@ == old(values)@,
{
    let ghost s = values@;
    let ghost v = values_of(s);
    let n = values.len();
    if n == 0 {
        return Ok(());
    }
    if n == 1 {
        proof {
            lemma_single_value_fits(v);
        }
    }
    let sum = match checked_value_sum(values.as_slice()) {
        Some(x) => x,
        None => {
            return Err(RangeError);
        },
    };
    let mean = div_trunc(sum, n as i128);
    proof {
        if n == 1 {
            let x = v[0] as int;
            assert((if x < 0 { -x } else { x }) / 1 == (if x < 0 { -x } else { x }));
            assert(mean == v[0]);
        }
        lemma_fixed_div_by_int(seq_sum(v), n as int);
        assert(mean == fixed_mean(v));
    }
    let variance: i128 = if n == 1 {
        proof {
            assert(fixed_from_int(1) == FIXED_ONE as int);
        }
        1_000_000_000_000_000_000i128
    } else {
        let ss = match checked_fixed_sq_dev_sum(values.as_slice(), mean) {
            Some(x) => x,
            None => {
                return Err(RangeError);
            },
        };
        proof {
            lemma_fixed_sq_dev_sum_nonneg(v, mean as int);
            lemma_fixed_div_by_int(ss as int, n - 1);
        }
        ss / ((n - 1) as i128)
    };
    proof {
        assert(variance == fixed_variance(v));
        assert(fixed_stats_fit(v));
    }
    if variance > 0 {
        let mut kept: Vec<WeightedFloat> = Vec::new();
        assert(s.take(0) =~= Seq::<WeightedFloat>::empty());
        for i in 0..n
            invariant
                n == s.len(),
                s == values@,
                v == values_of(s),
                n >= 1,
                mean == fixed_mean(v),
                variance == fixed_variance(v),
                variance > 0,
                fixed_stats_fit(v),
                n == 1 ==> mean == v[0],
                kept@ == s.take(i as int).filter(fixed_z_keep(v)),
        {
            proof {
                lemma_take_succ(s, i as int);
                reveal_with_fuel(Seq::<_>::filter, 1);
            }
            let w = values[i];
            proof {
                assert(v[i as int] == w.value);
                if n >= 2 {
                    assert(fits_i128(v[i as int] - fixed_mean(v)));
                    assert(fits_i128(fixed_mul(v[i as int] - fixed_mean(v), v[i as int] - fixed_mean(v))));
                } else {
                    assert(i == 0);
                    assert(v[i as int] - fixed_mean(v) == 0);
                    assert(fixed_mul(0, 0) == 0) by {
                        assert(0int * 0int == 0);
                        assert(0int / (FIXED_ONE as int) == 0);
                    }
                }
                assert(fits_i128(fixed_mul(v[i as int] - fixed_mean(v), v[i as int] - fixed_mean(v))));
            }
            let d: i128 = w.value - mean;
            let sq = match fixed_mul_checked(d, d) {
                Some(q) => q,
                None => {
                    proof {
                        assert(false);
                    }
                    0
                },
            };
            proof {
                lemma_fixed_sq_nonneg(d as int);
                lemma_fixed_div_nonneg(sq as int, variance as int);
            }
            let keep = match fixed_div_checked(sq, variance) {
                Some(z) => z < 9_000_000_000_000_000_000i128,
                None => false,
            };
            if keep {
                kept.push(w);
            }
        }
        assert(s.take(n as int) =~= s);
        *values = kept;
    }
    Ok(())
}

/// The outlier-filtered weighted mean: drops the outliers of `values` and
/// takes the weighted mean of the rest. `Ok(None)` when there are no values,
/// an error when a fixed-point value leaves the `i128` range.
pub fn calculate_z_normalized_weighted_mean(values: Vec<WeightedFloat>) -> (r: Result<Option<i128>, RangeError>)
    ensures
        r is Ok <==> fixed_stats_fit(values_of(values@)) && weighted_sum_fits(weighted_z_filter_spec(values@)),
        r matches Ok(m) ==> (m is None <==> weighted_z_filter_spec(values@).len() == 0),
        r matches Ok(Some(m)) ==> m == weighted_sum(weighted_z_filter_spec(values@)),
{
    let mut values = values;
    let ghost s = values@;
    match weighted_z_score_filter(&mut values) {
        Ok(()) => {},
        Err(e) => {
            return Err(e);
        },
    }
    calculate_weighted_mean(values.as_slice())
}

} // verus!
