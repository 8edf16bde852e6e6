//! Reputation scores: the measurements that peers report of a node, each
//! weighted by the reporter's own standing, are filtered of outliers,
//! averaged, normalised against every other node, and combined into a score
//! from 0 to 100. All of it is computed in fixed-point numbers with eighteen
//! decimal places (see `fixed`).
use vstd::prelude::*;
use std::collections::BTreeMap;
use crate::logical_pool::{lemma_push_contains, map_keys};
use crate::fixed::{fixed_div, fixed_div_checked, fixed_from_int, fixed_mul, fixed_mul_checked, lemma_fixed_div_by_int};
use crate::measurements::{ReputationMeasurements, NANOS_PER_MILLI};
use crate::statistics::{
    abs_int, div_trunc, law_min_max_normalize_unit, calculate_z_normalized_weighted_mean, fits_i128, try_min_max_normalize, EPSILON, fixed_stats_fit, trunc_div, values_of, weighted_sum,
    weighted_sum_fits, weighted_z_filter_spec, FIXED_ONE,
};

verus! {

broadcast use vstd::std_specs::btree::group_btree_axioms;

/// A fixed-point measurement and the weight it carries in a weighted mean.
#[derive(Clone, Copy, Debug)]
pub struct WeightedFloat {
    pub value: i128,
    pub weight: i128,
}

impl WeightedFloat {
    /// A count, as a fixed-point value of weight one.
    pub fn from_count(value: usize) -> (w: WeightedFloat)
        ensures
            w.value == fixed_from_int(value as int),
            w.weight == FIXED_ONE,
    {
        assert(value * 1_000_000_000_000_000_000 <= 18_446_744_073_709_551_615 * 1_000_000_000_000_000_000)
            by (nonlinear_arith)
            requires
                value <= 18_446_744_073_709_551_615,
        ;
        WeightedFloat { value: (value as i128) * 1_000_000_000_000_000_000i128, weight: 1_000_000_000_000_000_000i128 }
    }

    /// A fixed-point value of weight one.
    pub fn from_fixed(value: i128) -> (w: WeightedFloat)
        ensures
            w.value == value,
            w.weight == FIXED_ONE,
    {
        WeightedFloat { value, weight: 1_000_000_000_000_000_000i128 }
    }

    /// The value times its weight; an error where that leaves the range.
    pub fn weighted_value(&self) -> (r: Result<i128, RangeError>)
        ensures
            r is Ok <==> fits_i128(fixed_mul(self.value as int, self.weight as int)),
            r matches Ok(x) ==> x == fixed_mul(self.value as int, self.weight as int),
    {
        match fixed_mul_checked(self.value, self.weight) {
            Some(x) => Ok(x),
            None => Err(RangeError),
        }
    }

    /// The sum of the values, with this one's weight.
    pub fn add_value(self, rhs: WeightedFloat) -> (r: Result<WeightedFloat, RangeError>)
        ensures
            r is Ok <==> fits_i128(self.value + rhs.value),
            r matches Ok(w) ==> w.value == self.value + rhs.value && w.weight == self.weight,
    {
        match self.value.checked_add(rhs.value) {
            Some(v) => Ok(WeightedFloat { value: v, weight: self.weight }),
            None => Err(RangeError),
        }
    }

    /// The difference of the values, with this one's weight.
    pub fn sub_value(self, rhs: WeightedFloat) -> (r: Result<WeightedFloat, RangeError>)
        ensures
            r is Ok <==> fits_i128(self.value - rhs.value),
            r matches Ok(w) ==> w.value == self.value - rhs.value && w.weight == self.weight,
    {
        match self.value.checked_sub(rhs.value) {
            Some(v) => Ok(WeightedFloat { value: v, weight: self.weight }),
            None => Err(RangeError),
        }
    }

    /// The product of the values, with this one's weight.
    pub fn mul_value(self, rhs: WeightedFloat) -> (r: Result<WeightedFloat, RangeError>)
        ensures
            r is Ok <==> fits_i128(fixed_mul(self.value as int, rhs.value as int)),
            r matches Ok(w) ==> w.value == fixed_mul(self.value as int, rhs.value as int) && w.weight == self.weight,
    {
        match fixed_mul_checked(self.value, rhs.value) {
            Some(v) => Ok(WeightedFloat { value: v, weight: self.weight }),
            None => Err(RangeError),
        }
    }

    /// The quotient of the values, with this one's weight.
    pub fn div_value(self, rhs: WeightedFloat) -> (r: Result<WeightedFloat, RangeError>)
        requires
            rhs.value != 0,
        ensures
            r is Ok <==> fits_i128(fixed_div(self.value as int, rhs.value as int)),
            r matches Ok(w) ==> w.value == fixed_div(self.value as int, rhs.value as int) && w.weight == self.weight,
    {
        match fixed_div_checked(self.value, rhs.value) {
            Some(v) => Ok(WeightedFloat { value: v, weight: self.weight }),
            None => Err(RangeError),
        }
    }
}

impl Default for WeightedFloat {
    /// Zero, of weight one.
    fn default() -> (w: WeightedFloat)
        ensures
            w.value == 0,
            w.weight == FIXED_ONE,
    {
        WeightedFloat { value: 0, weight: 1_000_000_000_000_000_000i128 }
    }
}

/// A fixed-point value was about to leave the `i128` range.
#[derive(Clone, Copy, Debug, PartialEq, Eq, Structural)]
pub struct RangeError;

/// The measurements one peer reported of a node, and the weight they carry:
/// the reporter's own reputation.
#[derive(Clone, Copy, Debug)]
pub struct WeightedReputationMeasurements {
    pub measurements: ReputationMeasurements,
    pub weight: u8,
}

/// The measurements that make up a reputation score.
#[derive(Clone, Copy, Debug, PartialEq, Eq, Structural)]
pub enum Field {
    Latency,
    Interactions,
    InboundBandwidth,
    OutboundBandwidth,
    BytesReceived,
    BytesSent,
}

/// An unsigned count as an `i128`, saturating at `i128::MAX`.
pub open spec fn saturate(x: int) -> int {
    if x > i128::MAX { i128::MAX as int } else { x }
}

/// The integer a measurement contributes: latency in whole milliseconds,
/// the others as reported; counts beyond `i128::MAX` saturate.
pub open spec fn field_int(m: ReputationMeasurements, f: Field) -> Option<int> {
    match f {
        Field::Latency => match m.latency {
            Some(d) => Some(saturate((d.nanos / NANOS_PER_MILLI) as int)),
            None => None,
        },
        Field::Interactions => match m.interactions {
            Some(x) => Some(x as int),
            None => None,
        },
        Field::InboundBandwidth => match m.inbound_bandwidth {
            Some(x) => Some(saturate(x as int)),
            None => None,
        },
        Field::OutboundBandwidth => match m.outbound_bandwidth {
            Some(x) => Some(saturate(x as int)),
            None => None,
        },
        Field::BytesReceived => match m.bytes_received {
            Some(x) => Some(saturate(x as int)),
            None => None,
        },
        Field::BytesSent => match m.bytes_sent {
            Some(x) => Some(saturate(x as int)),
            None => None,
        },
    }
}

/// Every reported measurement is small enough to be a fixed-point number.
/// The fixed-point numbers of this library are `i128`s with eighteen
/// decimal places, so a measurement above `i128::MAX / 10^18` (about
/// 1.7e20: a byte count of some 170 exabytes, or a latency of some five
/// billion years) cannot be held; such reports are refused.
pub open spec fn collect_fits(s: Seq<WeightedReputationMeasurements>) -> bool {
    forall|i: int, f: Field|
        0 <= i < s.len() ==> (#[trigger] field_int(s[i].measurements, f) matches Some(x) ==> fits_i128(
            fixed_from_int(x),
        ))
}

/// The sum of the weights of the reports that hold measurement `f`.
pub open spec fn weight_total(s: Seq<WeightedReputationMeasurements>, f: Field) -> int
    decreases s.len(),
{
    if s.len() == 0 {
        0
    } else {
        weight_total(s.drop_last(), f) + (if field_int(s.last().measurements, f) is Some {
            s.last().weight as int
        } else {
            0
        })
    }
}

/// The number of reports that hold measurement `f`.
pub open spec fn present_count(s: Seq<WeightedReputationMeasurements>, f: Field) -> int
    decreases s.len(),
{
    if s.len() == 0 {
        0
    } else {
        present_count(s.drop_last(), f) + (if field_int(s.last().measurements, f) is Some {
            1int
        } else {
            0int
        })
    }
}

/// The weight of a report among those holding the same measurement: its own
/// weight over the total, or an equal share when every weight is zero.
pub open spec fn report_weight(weight: int, total: int, count: int) -> int {
    if total == 0 {
        fixed_div(fixed_from_int(1), fixed_from_int(count))
    } else {
        fixed_div(fixed_from_int(weight), fixed_from_int(total))
    }
}

/// Measurement `f` of each report that holds it, in order, as a fixed-point
/// value with its report's weight (`total` and `count` of all the reports).
pub open spec fn collect_with(s: Seq<WeightedReputationMeasurements>, f: Field, total: int, count: int) -> Seq<
    WeightedFloat,
>
    decreases s.len(),
{
    if s.len() == 0 {
        Seq::empty()
    } else {
        let prev = collect_with(s.drop_last(), f, total, count);
        match field_int(s.last().measurements, f) {
            Some(x) => prev.push(
                WeightedFloat {
                    value: fixed_from_int(x) as i128,
                    weight: report_weight(s.last().weight as int, total, count) as i128,
                },
            ),
            None => prev,
        }
    }
}

/// Measurement `f` of each report that holds it, weighted.
pub open spec fn collect_base(s: Seq<WeightedReputationMeasurements>, f: Field) -> Seq<WeightedFloat> {
    collect_with(s, f, weight_total(s, f), present_count(s, f))
}

proof fn lemma_totals_bounded(s: Seq<WeightedReputationMeasurements>, f: Field)
    ensures
        0 <= present_count(s, f) <= s.len(),
        0 <= weight_total(s, f) <= 255 * present_count(s, f),
        collect_with(s, f, weight_total(s, f), present_count(s, f)).len() == present_count(s, f),
    decreases s.len(),
{
    if s.len() > 0 {
        lemma_totals_bounded(s.drop_last(), f);
        lemma_collect_len(s, f, weight_total(s, f), present_count(s, f));
    }
}

proof fn lemma_collect_len(s: Seq<WeightedReputationMeasurements>, f: Field, total: int, count: int)
    ensures
        collect_with(s, f, total, count).len() == present_count(s, f),
    decreases s.len(),
{
    if s.len() > 0 {
        lemma_collect_len(s.drop_last(), f, total, count);
    }
}

proof fn lemma_present_bounds(s: Seq<WeightedReputationMeasurements>, f: Field, i: int)
    requires
        0 <= i < s.len(),
        field_int(s[i].measurements, f) is Some,
    ensures
        s[i].weight <= weight_total(s, f),
        present_count(s, f) >= 1,
    decreases s.len(),
{
    lemma_totals_bounded(s.drop_last(), f);
    if i < s.len() - 1 {
        assert(s.drop_last()[i] == s[i]);
        lemma_present_bounds(s.drop_last(), f, i);
    }
}

/// The integer measurement `f` of `m`, when it holds one.
fn field_value(m: &ReputationMeasurements, f: Field) -> (r: Option<i128>)
    ensures
        r matches Some(x) ==> field_int(*m, f) == Some(x as int),
        r is None <==> field_int(*m, f) is None,
{
    match f {
        Field::Latency => match m.latency {
            Some(d) => {
                let ms = d.nanos / NANOS_PER_MILLI;
                if ms > 170141183460469231731687303715884105727u128 {
                    Some(i128::MAX)
                } else {
                    Some(ms as i128)
                }
            },
            None => None,
        },
        Field::Interactions => match m.interactions {
            Some(x) => Some(x as i128),
            None => None,
        },
        Field::InboundBandwidth => saturating_i128(m.inbound_bandwidth),
        Field::OutboundBandwidth => saturating_i128(m.outbound_bandwidth),
        Field::BytesReceived => saturating_i128(m.bytes_received),
        Field::BytesSent => saturating_i128(m.bytes_sent),
    }
}

fn saturating_i128(x: Option<u128>) -> (r: Option<i128>)
    ensures
        r is None <==> x is None,
        r matches Some(y) ==> y == saturate(x.unwrap() as int),
{
    match x {
        Some(v) => {
            if v > 170141183460469231731687303715884105727u128 {
                Some(i128::MAX)
            } else {
                Some(v as i128)
            }
        },
        None => None,
    }
}

/// Measurement `f` of each report that holds it, in order, as a fixed-point
/// value, each weighted by its report's weight over the total weight of those
/// reports (an equal share each when that total is zero).
fn collect_field(reports: &Vec<WeightedReputationMeasurements>, f: Field) -> (r: (Vec<WeightedFloat>, u128))
    requires
        collect_fits(reports@),
    ensures
        r.0@ == collect_base(reports@, f),
        r.1 == weight_total(reports@, f),
{
    let n = reports.len();
    let mut total: u128 = 0;
    let mut count: u128 = 0;
    assert(reports@.take(0) =~= Seq::<WeightedReputationMeasurements>::empty());
    for i in 0..n
        invariant
            n == reports@.len(),
            total == weight_total(reports@.take(i as int), f),
            count == present_count(reports@.take(i as int), f),
            count <= i,
            total <= 255 * count,
    {
        proof {
            assert(reports@.take(i + 1).drop_last() =~= reports@.take(i as int));
            assert(reports@.take(i + 1).last() == reports@[i as int]);
        }
        if field_value(&reports[i].measurements, f).is_some() {
            total = total + reports[i].weight as u128;
            count = count + 1;
        }
    }
    assert(reports@.take(n as int) =~= reports@);
    let ghost t = total as int;
    let ghost c = count as int;
    let mut out: Vec<WeightedFloat> = Vec::new();
    for i in 0..n
        invariant
            n == reports@.len(),
            collect_fits(reports@),
            t == total,
            c == count,
            t == weight_total(reports@, f),
            c == present_count(reports@, f),
            t <= 255 * c,
            c <= n,
            out@ == collect_with(reports@.take(i as int), f, t, c),
    {
        proof {
            assert(reports@.take(i + 1).drop_last() =~= reports@.take(i as int));
            assert(reports@.take(i + 1).last() == reports@[i as int]);
        }
        let m = reports[i];
        match field_value(&m.measurements, f) {
            Some(x) => {
                proof {
                    assert(field_int(reports@[i as int].measurements, f) == Some(x as int));
                    assert(fits_i128(fixed_from_int(x as int)));
                    lemma_present_bounds(reports@, f, i as int);
                    lemma_weight_share(m.weight as int, t, c);
                }
                let value: i128 = x * 1_000_000_000_000_000_000i128;
                let weight: i128 = if total == 0 {
                    (1_000_000_000_000_000_000u128 / count) as i128
                } else {
                    ((m.weight as u128) * 1_000_000_000_000_000_000u128 / total) as i128
                };
                out.push(WeightedFloat { value, weight });
            },
            None => {},
        }
    }
    assert(reports@.take(n as int) =~= reports@);
    (out, total)
}

/// The weight of a report is a share between zero and one, computed as an
/// integer quotient.
proof fn lemma_weight_share(w: int, total: int, count: int)
    requires
        0 <= w <= 255,
        0 <= total,
        w <= total || total == 0,
        count >= 1,
    ensures
        total == 0 ==> report_weight(w, total, count) == (FIXED_ONE as int) / count,
        total != 0 ==> report_weight(w, total, count) == (w * (FIXED_ONE as int)) / total,
        0 <= report_weight(w, total, count) <= FIXED_ONE as int,
{
    let one = FIXED_ONE as int;
    if total == 0 {
        lemma_fixed_div_by_int(fixed_from_int(1), count);
        assert(one / count <= one) by (nonlinear_arith)
            requires
                count >= 1,
                one > 0,
        ;
        assert(one / count >= 0) by (nonlinear_arith)
            requires
                count >= 1,
                one > 0,
        ;
    } else {
        lemma_fixed_div_by_int(fixed_from_int(w), total);
        assert(w * one >= 0) by (nonlinear_arith)
            requires
                w >= 0,
                one > 0,
        ;
        assert((w * one) / total <= one) by (nonlinear_arith)
            requires
                0 <= w <= total,
                total >= 1,
                one > 0,
        ;
        assert((w * one) / total >= 0) by (nonlinear_arith)
            requires
                w * one >= 0,
                total >= 1,
        ;
    }
}

/// The sum of the weights.
pub open spec fn weights_sum(ws: Seq<WeightedFloat>) -> int
    decreases ws.len(),
{
    if ws.len() == 0 {
        0
    } else {
        weights_sum(ws.drop_last()) + ws.last().weight
    }
}

/// The sum of one minus each weight.
pub open spec fn inverse_weight_total(ws: Seq<WeightedFloat>) -> int
    decreases ws.len(),
{
    if ws.len() == 0 {
        0
    } else {
        inverse_weight_total(ws.drop_last()) + (fixed_from_int(1) - ws.last().weight)
    }
}

/// Each weight `w` replaced by `(1 - w)` over the sum of `1 - w` over all
/// weights: the higher a reporter's standing, the less its report counts.
pub open spec fn invert_weights(ws: Seq<WeightedFloat>) -> Seq<WeightedFloat> {
    Seq::new(
        ws.len(),
        |j: int|
            WeightedFloat {
                value: ws[j].value,
                weight: fixed_div(fixed_from_int(1) - ws[j].weight, inverse_weight_total(ws)) as i128,
            },
    )
}

/// The collected latency measurements. A low latency is a good one, so that
/// reports from reporters of high standing do not weigh low latencies less,
/// their weights are inverted, when the weights are not all zero and there is
/// more than one report.
pub open spec fn collect_latency(s: Seq<WeightedReputationMeasurements>) -> Seq<WeightedFloat> {
    let base = collect_base(s, Field::Latency);
    if weight_total(s, Field::Latency) != 0 && base.len() > 1 {
        invert_weights(base)
    } else {
        base
    }
}

/// Every weight lies between zero and one.
pub open spec fn unit_weights(ws: Seq<WeightedFloat>) -> bool {
    forall|j: int| 0 <= j < ws.len() ==> 0 <= #[trigger] ws[j].weight <= FIXED_ONE
}

proof fn lemma_collect_weights(s: Seq<WeightedReputationMeasurements>, f: Field, total: int, count: int)
    requires
        total == weight_total(s, f) || total > weight_total(s, f),
        total >= 0,
        count >= present_count(s, f),
    ensures
        unit_weights(collect_with(s, f, total, count)),
        total > 0 ==> weights_sum(collect_with(s, f, total, count)) * total <= (FIXED_ONE as int) * weight_total(s, f),
        total > 0 ==> weights_sum(collect_with(s, f, total, count)) * total >= (FIXED_ONE as int) * weight_total(s, f)
            - total * present_count(s, f),
        weights_sum(collect_with(s, f, total, count)) >= 0,
    decreases s.len(),
{
    if s.len() > 0 {
        lemma_totals_bounded(s.drop_last(), f);
        lemma_collect_weights(s.drop_last(), f, total, count);
        let prev = collect_with(s.drop_last(), f, total, count);
        let one = FIXED_ONE as int;
        if field_int(s.last().measurements, f) is Some {
            let w = s.last().weight as int;
            lemma_totals_bounded(s, f);
            lemma_present_bounds(s, f, s.len() - 1);
            lemma_weight_share(w, total, count);
            let rw = report_weight(w, total, count);
            let cur = collect_with(s, f, total, count);
            assert(cur == prev.push(WeightedFloat { value: cur.last().value, weight: rw as i128 }));
            assert(cur.drop_last() =~= prev);
            assert forall|j: int| 0 <= j < cur.len() implies 0 <= #[trigger] cur[j].weight <= FIXED_ONE by {
                if j < prev.len() {
                    assert(cur[j] == prev[j]);
                }
            }
            if total > 0 {
                assert(rw * total <= w * one) by (nonlinear_arith)
                    requires
                        rw == (w * one) / total,
                        total > 0,
                        w >= 0,
                        one > 0,
                ;
                assert(rw * total >= w * one - total) by (nonlinear_arith)
                    requires
                        rw == (w * one) / total,
                        total > 0,
                        w >= 0,
                        one > 0,
                ;
                assert(total * present_count(s, f) == total * present_count(s.drop_last(), f) + total) by (nonlinear_arith)
                    requires
                        present_count(s, f) == present_count(s.drop_last(), f) + 1,
                ;
                assert(weights_sum(cur) * total == weights_sum(prev) * total + rw * total) by (nonlinear_arith)
                    requires
                        weights_sum(cur) == weights_sum(prev) + rw,
                ;
                assert(one * weight_total(s, f) == one * weight_total(s.drop_last(), f) + w * one) by (nonlinear_arith)
                    requires
                        weight_total(s, f) == weight_total(s.drop_last(), f) + w,
                ;
            }
        }
    }
}

/// Replaces each weight `w` of `ws` by `(1 - w)` over the sum of `1 - w`.
fn invert_latency_weights(ws: &Vec<WeightedFloat>) -> (r: Vec<WeightedFloat>)
    requires
        ws@.len() > 1,
        unit_weights(ws@),
        weights_sum(ws@) <= FIXED_ONE,
    ensures
        r@ == invert_weights(ws@),
{
    let n = ws.len();
    let mut inv: i128 = 0;
    let one: i128 = 1_000_000_000_000_000_000i128;
    assert(ws@.take(0) =~= Seq::<WeightedFloat>::empty());
    for i in 0..n
        invariant
            n == ws@.len(),
            unit_weights(ws@),
            one == FIXED_ONE,
            inv == inverse_weight_total(ws@.take(i as int)),
            inv == i * (FIXED_ONE as int) - weights_sum(ws@.take(i as int)),
            0 <= inv <= i * (FIXED_ONE as int),
    {
        proof {
            assert(ws@.take(i + 1).drop_last() =~= ws@.take(i as int));
            assert(ws@.take(i + 1).last() == ws@[i as int]);
            assert((i + 1) * (FIXED_ONE as int) == i * (FIXED_ONE as int) + FIXED_ONE as int) by (nonlinear_arith);
            assert((i + 1) * (FIXED_ONE as int) <= 18446744073709551616 * 1_000_000_000_000_000_000int) by (nonlinear_arith)
                requires
                    i + 1 <= n,
                    n <= usize::MAX,
            ;
        }
        inv = inv + (one - ws[i].weight);
    }
    assert(ws@.take(n as int) =~= ws@);
    proof {
        assert(inv >= (FIXED_ONE as int)) by (nonlinear_arith)
            requires
                inv == n * (FIXED_ONE as int) - weights_sum(ws@),
                weights_sum(ws@) <= FIXED_ONE,
                n >= 2,
        ;
        assert(inverse_weight_total(ws@) == inv);
    }
    let mut out: Vec<WeightedFloat> = Vec::new();
    for j in 0..n
        invariant
            n == ws@.len(),
            unit_weights(ws@),
            one == FIXED_ONE,
            inv == inverse_weight_total(ws@),
            inv >= FIXED_ONE,
            out@.len() == j,
            forall|k: int| 0 <= k < j ==> #[trigger] out@[k] == invert_weights(ws@)[k],
    {
        let w = ws[j];
        let num: i128 = one - w.weight;
        proof {
            assert(0 <= num <= FIXED_ONE);
            assert(num * (FIXED_ONE as int) <= (FIXED_ONE as int) * (FIXED_ONE as int)) by (nonlinear_arith)
                requires
                    0 <= num <= FIXED_ONE,
            ;
            assert(num * (FIXED_ONE as int) >= 0) by (nonlinear_arith)
                requires
                    0 <= num,
            ;
            assert((num * (FIXED_ONE as int)) / (inv as int) <= num * (FIXED_ONE as int)) by (nonlinear_arith)
                requires
                    num * (FIXED_ONE as int) >= 0,
                    inv >= 1,
            ;
            assert((num * (FIXED_ONE as int)) / (inv as int) >= 0) by (nonlinear_arith)
                requires
                    num * (FIXED_ONE as int) >= 0,
                    inv >= 1,
            ;
            assert(fixed_from_int(1) == FIXED_ONE as int);
        }
        let weight: i128 = (num * one) / inv;
        out.push(WeightedFloat { value: w.value, weight });
    }
    assert(out@ =~= invert_weights(ws@));
    out
}

/// The measurements reported of one node, each kind apart, weighted.
pub struct CollectedMeasurements {
    pub latency: Vec<WeightedFloat>,
    pub interactions: Vec<WeightedFloat>,
    pub inbound_bandwidth: Vec<WeightedFloat>,
    pub outbound_bandwidth: Vec<WeightedFloat>,
    pub bytes_received: Vec<WeightedFloat>,
    pub bytes_sent: Vec<WeightedFloat>,
}

impl CollectedMeasurements {
    /// Sorts the reports of one node by kind of measurement: each kind holds
    /// the reports that carry it, in order, as fixed-point values weighted by
    /// their reporters' weights over the total of those weights (an equal
    /// share each when the total is zero); latency weights are inverted.
    pub fn from_weighted_measurements(reports: Vec<WeightedReputationMeasurements>) -> (c: CollectedMeasurements)
        requires
            collect_fits(reports@),
        ensures
            c.latency@ == collect_latency(reports@),
            c.interactions@ == collect_base(reports@, Field::Interactions),
            c.inbound_bandwidth@ == collect_base(reports@, Field::InboundBandwidth),
            c.outbound_bandwidth@ == collect_base(reports@, Field::OutboundBandwidth),
            c.bytes_received@ == collect_base(reports@, Field::BytesReceived),
            c.bytes_sent@ == collect_base(reports@, Field::BytesSent),
    {
        let (base, total) = collect_field(&reports, Field::Latency);
        let latency = if total != 0 && base.len() > 1 {
            proof {
                let s = reports@;
                let t = weight_total(s, Field::Latency);
                lemma_totals_bounded(s, Field::Latency);
                lemma_collect_weights(s, Field::Latency, t, present_count(s, Field::Latency));
                assert(weights_sum(base@) <= FIXED_ONE) by (nonlinear_arith)
                    requires
                        weights_sum(base@) * t <= (FIXED_ONE as int) * t,
                        t > 0,
                ;
            }
            invert_latency_weights(&base)
        } else {
            base
        };
        let (interactions, _) = collect_field(&reports, Field::Interactions);
        let (inbound_bandwidth, _) = collect_field(&reports, Field::InboundBandwidth);
        let (outbound_bandwidth, _) = collect_field(&reports, Field::OutboundBandwidth);
        let (bytes_received, _) = collect_field(&reports, Field::BytesReceived);
        let (bytes_sent, _) = collect_field(&reports, Field::BytesSent);
        CollectedMeasurements {
            latency,
            interactions,
            inbound_bandwidth,
            outbound_bandwidth,
            bytes_received,
            bytes_sent,
        }
    }
}

/// No fixed-point value met while averaging the measurements `ws` leaves the
/// `i128` range.
pub open spec fn field_fits(ws: Seq<WeightedFloat>) -> bool {
    fixed_stats_fit(values_of(ws)) && weighted_sum_fits(weighted_z_filter_spec(ws))
}

/// The outlier-filtered weighted mean of the measurements `ws`; `None` when
/// none is left.
pub open spec fn field_mean(ws: Seq<WeightedFloat>) -> Option<i128> {
    let f = weighted_z_filter_spec(ws);
    if f.len() == 0 {
        None
    } else {
        Some(weighted_sum(f) as i128)
    }
}

/// One value per kind of measurement: the outlier-filtered weighted mean of
/// what was reported, and after normalisation its place between the lowest
/// and highest over all nodes; `None` where nothing was reported.
#[derive(Clone, Copy, Debug)]
pub struct NormalizedMeasurements {
    pub latency: Option<i128>,
    pub interactions: Option<i128>,
    pub inbound_bandwidth: Option<i128>,
    pub outbound_bandwidth: Option<i128>,
    pub bytes_received: Option<i128>,
    pub bytes_sent: Option<i128>,
}

/// The value of kind `f`.
pub open spec fn norm_field(n: NormalizedMeasurements, f: Field) -> Option<i128> {
    match f {
        Field::Latency => n.latency,
        Field::Interactions => n.interactions,
        Field::InboundBandwidth => n.inbound_bandwidth,
        Field::OutboundBandwidth => n.outbound_bandwidth,
        Field::BytesReceived => n.bytes_received,
        Field::BytesSent => n.bytes_sent,
    }
}

fn field_average(ws: Vec<WeightedFloat>) -> (r: Result<Option<i128>, RangeError>)
    ensures
        r is Ok <==> field_fits(ws@),
        r matches Ok(m) ==> m == field_mean(ws@),
{
    let ghost s = ws@;
    calculate_z_normalized_weighted_mean(ws)
}

/// Every kind of collected measurement can be averaged within the `i128`
/// range.
pub open spec fn collected_fits(c: CollectedMeasurements) -> bool {
    &&& field_fits(c.latency@)
    &&& field_fits(c.interactions@)
    &&& field_fits(c.inbound_bandwidth@)
    &&& field_fits(c.outbound_bandwidth@)
    &&& field_fits(c.bytes_received@)
    &&& field_fits(c.bytes_sent@)
}

impl NormalizedMeasurements {
    /// The outlier-filtered weighted mean of each kind of collected
    /// measurement; an error when a fixed-point value leaves the `i128` range.
    pub fn from_collected(c: CollectedMeasurements) -> (r: Result<NormalizedMeasurements, RangeError>)
        ensures
            r is Ok <==> collected_fits(c),
            r matches Ok(n) ==> {
                &&& n.latency == field_mean(c.latency@)
                &&& n.interactions == field_mean(c.interactions@)
                &&& n.inbound_bandwidth == field_mean(c.inbound_bandwidth@)
                &&& n.outbound_bandwidth == field_mean(c.outbound_bandwidth@)
                &&& n.bytes_received == field_mean(c.bytes_received@)
                &&& n.bytes_sent == field_mean(c.bytes_sent@)
            },
    {
        let latency = match field_average(c.latency) {
            Ok(m) => m,
            Err(e) => {
                return Err(e);
            },
        };
        let interactions = match field_average(c.interactions) {
            Ok(m) => m,
            Err(e) => {
                return Err(e);
            },
        };
        let inbound_bandwidth = match field_average(c.inbound_bandwidth) {
            Ok(m) => m,
            Err(e) => {
                return Err(e);
            },
        };
        let outbound_bandwidth = match field_average(c.outbound_bandwidth) {
            Ok(m) => m,
            Err(e) => {
                return Err(e);
            },
        };
        let bytes_received = match field_average(c.bytes_received) {
            Ok(m) => m,
            Err(e) => {
                return Err(e);
            },
        };
        let bytes_sent = match field_average(c.bytes_sent) {
            Ok(m) => m,
            Err(e) => {
                return Err(e);
            },
        };
        Ok(
            NormalizedMeasurements {
                latency,
                interactions,
                inbound_bandwidth,
                outbound_bandwidth,
                bytes_received,
                bytes_sent,
            },
        )
    }
}

/// One fixed-point value per kind of measurement.
#[derive(Clone, Copy, Debug)]
pub struct Values {
    pub latency: i128,
    pub interactions: i128,
    pub inbound_bandwidth: i128,
    pub outbound_bandwidth: i128,
    pub bytes_received: i128,
    pub bytes_sent: i128,
}

/// The value of kind `f`.
pub open spec fn value_field(v: Values, f: Field) -> i128 {
    match f {
        Field::Latency => v.latency,
        Field::Interactions => v.interactions,
        Field::InboundBandwidth => v.inbound_bandwidth,
        Field::OutboundBandwidth => v.outbound_bandwidth,
        Field::BytesReceived => v.bytes_received,
        Field::BytesSent => v.bytes_sent,
    }
}

/// The lowest and highest value of each kind of measurement over all nodes.
#[derive(Clone, Copy, Debug)]
pub struct MinMaxValues {
    pub min_values: Values,
    pub max_values: Values,
}

/// Some node has a value of kind `f`.
pub open spec fn any_present(m: Map<u32, NormalizedMeasurements>, f: Field) -> bool {
    exists|k: u32| m.contains_key(k) && (#[trigger] norm_field(m[k], f)) is Some
}

/// `x` is the lowest value of kind `f` over the nodes of `m`, or `i128::MAX`
/// when no node has one.
pub open spec fn is_lowest(m: Map<u32, NormalizedMeasurements>, f: Field, x: i128) -> bool {
    if any_present(m, f) {
        &&& forall|k: u32| m.contains_key(k) && (#[trigger] norm_field(m[k], f)) is Some ==> x <= norm_field(m[k], f).unwrap()
        &&& exists|k: u32| m.contains_key(k) && #[trigger] norm_field(m[k], f) == Some(x)
    } else {
        x == i128::MAX
    }
}

/// `x` is the highest value of kind `f` over the nodes of `m`, or `i128::MIN`
/// when no node has one.
pub open spec fn is_highest(m: Map<u32, NormalizedMeasurements>, f: Field, x: i128) -> bool {
    if any_present(m, f) {
        &&& forall|k: u32| m.contains_key(k) && (#[trigger] norm_field(m[k], f)) is Some ==> norm_field(m[k], f).unwrap() <= x
        &&& exists|k: u32| m.contains_key(k) && #[trigger] norm_field(m[k], f) == Some(x)
    } else {
        x == i128::MIN
    }
}

/// The bounds over the nodes `ks` of `m` seen so far.
spec fn bounds_over(m: Map<u32, NormalizedMeasurements>, ks: Seq<u32>, f: Field, lo: i128, hi: i128) -> bool {
    if exists|j: int| 0 <= j < ks.len() && (#[trigger] norm_field(m[ks[j]], f)) is Some {
        &&& forall|j: int| 0 <= j < ks.len() && (#[trigger] norm_field(m[ks[j]], f)) is Some ==> lo <= norm_field(m[ks[j]], f).unwrap() <= hi
        &&& exists|j: int| 0 <= j < ks.len() && #[trigger] norm_field(m[ks[j]], f) == Some(lo)
        &&& exists|j: int| 0 <= j < ks.len() && #[trigger] norm_field(m[ks[j]], f) == Some(hi)
    } else {
        lo == i128::MAX && hi == i128::MIN
    }
}

fn widen(lo: i128, hi: i128, x: Option<i128>) -> (r: (i128, i128))
    ensures
        r == (match x {
            Some(v) => (if v < lo { v } else { lo }, if v > hi { v } else { hi }),
            None => (lo, hi),
        }),
{
    match x {
        Some(v) => (if v < lo { v } else { lo }, if v > hi { v } else { hi }),
        None => (lo, hi),
    }
}

proof fn lemma_bounds_step(m: Map<u32, NormalizedMeasurements>, ks: Seq<u32>, f: Field, lo: i128, hi: i128, lo2: i128, hi2: i128)
    requires
        ks.len() >= 1,
        bounds_over(m, ks.drop_last(), f, lo, hi),
        (lo2, hi2) == (match norm_field(m[ks.last()], f) {
            Some(v) => (if v < lo { v } else { lo }, if v > hi { v } else { hi }),
            None => (lo, hi),
        }),
    ensures
        bounds_over(m, ks, f, lo2, hi2),
{
    let p = ks.drop_last();
    let n = ks.len() - 1;
    assert forall|j: int| 0 <= j < n implies #[trigger] ks[j] == p[j] by {}
    if exists|j: int| 0 <= j < p.len() && (#[trigger] norm_field(m[p[j]], f)) is Some {
        let j0 = choose|j: int| 0 <= j < p.len() && (#[trigger] norm_field(m[p[j]], f)) is Some;
        assert(ks[j0] == p[j0]);
        let jl = choose|j: int| 0 <= j < p.len() && #[trigger] norm_field(m[p[j]], f) == Some(lo);
        let jh = choose|j: int| 0 <= j < p.len() && #[trigger] norm_field(m[p[j]], f) == Some(hi);
        assert(ks[jl] == p[jl]);
        assert(ks[jh] == p[jh]);
        assert forall|j: int| 0 <= j < ks.len() && (#[trigger] norm_field(m[ks[j]], f)) is Some implies lo2 <= norm_field(
            m[ks[j]],
            f,
        ).unwrap() <= hi2 by {
            if j < n {
                assert(ks[j] == p[j]);
            }
        }
        match norm_field(m[ks.last()], f) {
            Some(v) => {
                if v < lo {
                    assert(norm_field(m[ks[n]], f) == Some(lo2));
                } else {
                    assert(norm_field(m[ks[jl]], f) == Some(lo2));
                }
                if v > hi {
                    assert(norm_field(m[ks[n]], f) == Some(hi2));
                } else {
                    assert(norm_field(m[ks[jh]], f) == Some(hi2));
                }
            },
            None => {
                assert(norm_field(m[ks[jl]], f) == Some(lo2));
                assert(norm_field(m[ks[jh]], f) == Some(hi2));
            },
        }
    } else {
        match norm_field(m[ks.last()], f) {
            Some(v) => {
                assert(norm_field(m[ks[n]], f) == Some(lo2));
                assert(norm_field(m[ks[n]], f) == Some(hi2));
                assert forall|j: int| 0 <= j < ks.len() && (#[trigger] norm_field(m[ks[j]], f)) is Some implies lo2 <= norm_field(
                    m[ks[j]],
                    f,
                ).unwrap() <= hi2 by {
                    if j < n {
                        assert(ks[j] == p[j]);
                        assert(norm_field(m[p[j]], f) is Some);
                    }
                }
            },
            None => {
                assert forall|j: int| 0 <= j < ks.len() implies !(#[trigger] norm_field(m[ks[j]], f) is Some) by {
                    if j < n {
                        assert(ks[j] == p[j]);
                        assert(!(norm_field(m[p[j]], f) is Some));
                    }
                }
            },
        }
    }
}

proof fn lemma_bounds_final(m: Map<u32, NormalizedMeasurements>, ks: Seq<u32>, f: Field, lo: i128, hi: i128)
    requires
        ks.to_set() == m.dom(),
        bounds_over(m, ks, f, lo, hi),
    ensures
        is_lowest(m, f, lo),
        is_highest(m, f, hi),
{
    assert forall|k: u32| m.contains_key(k) implies exists|j: int| 0 <= j < ks.len() && ks[j] == k by {
        assert(ks.to_set().contains(k));
    }
    assert forall|j: int| 0 <= j < ks.len() implies m.contains_key(#[trigger] ks[j]) by {
        assert(ks.to_set().contains(ks[j]));
    }
    if any_present(m, f) {
        let k = choose|k: u32| m.contains_key(k) && (#[trigger] norm_field(m[k], f)) is Some;
        let j = choose|j: int| 0 <= j < ks.len() && ks[j] == k;
        assert(norm_field(m[ks[j]], f) is Some);
        assert forall|k2: u32| m.contains_key(k2) && (#[trigger] norm_field(m[k2], f)) is Some implies lo <= norm_field(
            m[k2],
            f,
        ).unwrap() <= hi by {
            let j2 = choose|j: int| 0 <= j < ks.len() && ks[j] == k2;
            assert(norm_field(m[ks[j2]], f) is Some);
        }
        let jl = choose|j: int| 0 <= j < ks.len() && #[trigger] norm_field(m[ks[j]], f) == Some(lo);
        let jh = choose|j: int| 0 <= j < ks.len() && #[trigger] norm_field(m[ks[j]], f) == Some(hi);
        assert(m.contains_key(ks[jl]) && norm_field(m[ks[jl]], f) == Some(lo));
        assert(m.contains_key(ks[jh]) && norm_field(m[ks[jh]], f) == Some(hi));
    } else {
        if exists|j: int| 0 <= j < ks.len() && (#[trigger] norm_field(m[ks[j]], f)) is Some {
            let j = choose|j: int| 0 <= j < ks.len() && (#[trigger] norm_field(m[ks[j]], f)) is Some;
            assert(m.contains_key(ks[j]));
        }
    }
}

spec fn all_bounds(m: Map<u32, NormalizedMeasurements>, ks: Seq<u32>, lo: Values, hi: Values) -> bool {
    forall|f: Field| #[trigger] bounds_over(m, ks, f, value_field(lo, f), value_field(hi, f))
}

impl MinMaxValues {
    /// The lowest and highest value of each kind of measurement over the
    /// nodes of `measurements`; where no node has a value of a kind, its
    /// lowest is `i128::MAX` and its highest `i128::MIN`.
    pub fn from_normalized(measurements: &BTreeMap<u32, NormalizedMeasurements>) -> (r: MinMaxValues)
        ensures
            forall|f: Field| #[trigger] is_lowest(measurements@, f, value_field(r.min_values, f)),
            forall|f: Field| #[trigger] is_highest(measurements@, f, value_field(r.max_values, f)),
    {
        let keys = map_keys(measurements);
        let ghost m = measurements@;
        let mut lo = Values {
            latency: i128::MAX,
            interactions: i128::MAX,
            inbound_bandwidth: i128::MAX,
            outbound_bandwidth: i128::MAX,
            bytes_received: i128::MAX,
            bytes_sent: i128::MAX,
        };
        let mut hi = Values {
            latency: i128::MIN,
            interactions: i128::MIN,
            inbound_bandwidth: i128::MIN,
            outbound_bandwidth: i128::MIN,
            bytes_received: i128::MIN,
            bytes_sent: i128::MIN,
        };
        let n = keys.len();
        proof {
            assert forall|f: Field| #[trigger] bounds_over(m, keys@.take(0), f, value_field(lo, f), value_field(hi, f)) by {}
        }
        for i in 0..n
            invariant
                n == keys@.len(),
                m == measurements@,
                keys@.to_set() == m.dom(),
                all_bounds(m, keys@.take(i as int), lo, hi),
        {
            let k = keys[i];
            proof {
                assert(keys@.to_set().contains(k));
            }
            let x: NormalizedMeasurements = match measurements.get(&k) {
                Some(x) => *x,
                None => {
                    proof {
                        assert(false);
                    }
                    return MinMaxValues { min_values: lo, max_values: hi };
                },
            };
            let ghost old_lo = lo;
            let ghost old_hi = hi;
            let (a, b) = widen(lo.latency, hi.latency, x.latency);
            lo.latency = a;
            hi.latency = b;
            let (a, b) = widen(lo.interactions, hi.interactions, x.interactions);
            lo.interactions = a;
            hi.interactions = b;
            let (a, b) = widen(lo.inbound_bandwidth, hi.inbound_bandwidth, x.inbound_bandwidth);
            lo.inbound_bandwidth = a;
            hi.inbound_bandwidth = b;
            let (a, b) = widen(lo.outbound_bandwidth, hi.outbound_bandwidth, x.outbound_bandwidth);
            lo.outbound_bandwidth = a;
            hi.outbound_bandwidth = b;
            let (a, b) = widen(lo.bytes_received, hi.bytes_received, x.bytes_received);
            lo.bytes_received = a;
            hi.bytes_received = b;
            let (a, b) = widen(lo.bytes_sent, hi.bytes_sent, x.bytes_sent);
            lo.bytes_sent = a;
            hi.bytes_sent = b;
            proof {
                let ks = keys@.take(i + 1);
                assert(ks.drop_last() =~= keys@.take(i as int));
                assert(ks.last() == k);
                assert(m[k] == x);
                assert forall|f: Field| #[trigger] bounds_over(m, ks, f, value_field(lo, f), value_field(hi, f)) by {
                    assert(bounds_over(m, ks.drop_last(), f, value_field(old_lo, f), value_field(old_hi, f)));
                    lemma_bounds_step(m, ks, f, value_field(old_lo, f), value_field(old_hi, f), value_field(lo, f), value_field(hi, f));
                }
            }
        }
        proof {
            assert(keys@.take(n as int) =~= keys@);
            assert forall|f: Field| #[trigger] is_lowest(m, f, value_field(lo, f)) by {
                assert(bounds_over(m, keys@, f, value_field(lo, f), value_field(hi, f)));
                lemma_bounds_final(m, keys@, f, value_field(lo, f), value_field(hi, f));
            }
            assert forall|f: Field| #[trigger] is_highest(m, f, value_field(hi, f)) by {
                assert(bounds_over(m, keys@, f, value_field(lo, f), value_field(hi, f)));
                lemma_bounds_final(m, keys@, f, value_field(lo, f), value_field(hi, f));
            }
        }
        MinMaxValues { min_values: lo, max_values: hi }
    }
}

/// `x` placed between `lo` and `hi` as `try_min_max_normalize` places it:
/// `None` when the bounds are closer than `EPSILON`.
pub open spec fn normalize_value(x: i128, lo: i128, hi: i128) -> Option<i128> {
    if abs_int(hi - lo) < EPSILON {
        None
    } else {
        Some(fixed_div(x - lo, hi - lo) as i128)
    }
}

/// Normalising `x` between `lo` and `hi` stays within the `i128` range.
pub open spec fn normalize_fits(x: i128, lo: i128, hi: i128) -> bool {
    &&& fits_i128(hi - lo)
    &&& fits_i128(lo - hi)
    &&& fits_i128(x - lo)
    &&& (abs_int(hi - lo) >= EPSILON ==> fits_i128(fixed_div(x - lo, hi - lo)))
}

/// The normalised value of kind `f`, when it has one.
pub open spec fn normalized_field(n: NormalizedMeasurements, bounds: MinMaxValues, f: Field) -> Option<i128> {
    match norm_field(n, f) {
        Some(x) => normalize_value(x, value_field(bounds.min_values, f), value_field(bounds.max_values, f)),
        None => None,
    }
}

/// Every value of `n` can be normalised between `bounds` within the `i128`
/// range.
pub open spec fn normalized_fits(n: NormalizedMeasurements, bounds: MinMaxValues) -> bool {
    &&& field_normalize_fits(n, bounds, Field::Latency)
    &&& field_normalize_fits(n, bounds, Field::Interactions)
    &&& field_normalize_fits(n, bounds, Field::InboundBandwidth)
    &&& field_normalize_fits(n, bounds, Field::OutboundBandwidth)
    &&& field_normalize_fits(n, bounds, Field::BytesReceived)
    &&& field_normalize_fits(n, bounds, Field::BytesSent)
}

/// The value of kind `f`, if any, can be normalised within the `i128` range.
pub open spec fn field_normalize_fits(n: NormalizedMeasurements, bounds: MinMaxValues, f: Field) -> bool {
    match norm_field(n, f) {
        Some(x) => normalize_fits(x, value_field(bounds.min_values, f), value_field(bounds.max_values, f)),
        None => true,
    }
}

fn normalize_checked(x: Option<i128>, lo: i128, hi: i128) -> (r: Result<Option<i128>, RangeError>)
    ensures
        r is Ok <==> (x matches Some(v) ==> normalize_fits(v, lo, hi)),
        r matches Ok(y) ==> y == (match x {
            Some(v) => normalize_value(v, lo, hi),
            None => None,
        }),
{
    match x {
        Some(v) => {
            if hi.checked_sub(lo).is_none() || lo.checked_sub(hi).is_none() || v.checked_sub(lo).is_none() {
                return Err(RangeError);
            }
            if hi - lo < EPSILON && lo - hi < EPSILON {
                return Ok(try_min_max_normalize(v, lo, hi));
            }
            match crate::fixed::fixed_div_checked(v - lo, hi - lo) {
                Some(_) => Ok(try_min_max_normalize(v, lo, hi)),
                None => Err(RangeError),
            }
        },
        None => Ok(None),
    }
}

impl NormalizedMeasurements {
    /// Places each value between the lowest and highest of its kind over all
    /// nodes (`try_min_max_normalize`); a value whose bounds are closer than
    /// `EPSILON` is dropped. An error, leaving the values as they were, when
    /// a fixed-point value leaves the `i128` range.
    pub fn min_max_normalize(&mut self, bounds: &MinMaxValues) -> (r: Result<(), RangeError>)
        ensures
            r is Ok <==> normalized_fits(*old(self), *bounds),
            r is Ok ==> forall|f: Field| #[trigger] norm_field(*final(self), f) == normalized_field(*old(self), *bounds, f),
            r is Err ==> *final(self) == *old(self),
    {
        let ghost before = *self;
        let latency = match normalize_checked(self.latency, bounds.min_values.latency, bounds.max_values.latency) {
            Ok(v) => v,
            Err(e) => {
                proof {
                    assert(!field_normalize_fits(before, *bounds, Field::Latency));
                }
                return Err(e);
            },
        };
        let interactions = match normalize_checked(self.interactions, bounds.min_values.interactions, bounds.max_values.interactions) {
            Ok(v) => v,
            Err(e) => {
                proof {
                    assert(!field_normalize_fits(before, *bounds, Field::Interactions));
                }
                return Err(e);
            },
        };
        let inbound_bandwidth = match normalize_checked(self.inbound_bandwidth, bounds.min_values.inbound_bandwidth, bounds.max_values.inbound_bandwidth) {
            Ok(v) => v,
            Err(e) => {
                proof {
                    assert(!field_normalize_fits(before, *bounds, Field::InboundBandwidth));
                }
                return Err(e);
            },
        };
        let outbound_bandwidth = match normalize_checked(self.outbound_bandwidth, bounds.min_values.outbound_bandwidth, bounds.max_values.outbound_bandwidth) {
            Ok(v) => v,
            Err(e) => {
                proof {
                    assert(!field_normalize_fits(before, *bounds, Field::OutboundBandwidth));
                }
                return Err(e);
            },
        };
        let bytes_received = match normalize_checked(self.bytes_received, bounds.min_values.bytes_received, bounds.max_values.bytes_received) {
            Ok(v) => v,
            Err(e) => {
                proof {
                    assert(!field_normalize_fits(before, *bounds, Field::BytesReceived));
                }
                return Err(e);
            },
        };
        let bytes_sent = match normalize_checked(self.bytes_sent, bounds.min_values.bytes_sent, bounds.max_values.bytes_sent) {
            Ok(v) => v,
            Err(e) => {
                proof {
                    assert(!field_normalize_fits(before, *bounds, Field::BytesSent));
                }
                return Err(e);
            },
        };
        self.latency = latency;
        self.interactions = interactions;
        self.inbound_bandwidth = inbound_bandwidth;
        self.outbound_bandwidth = outbound_bandwidth;
        self.bytes_received = bytes_received;
        self.bytes_sent = bytes_sent;
        proof {
            assert forall|f: Field| #[trigger] norm_field(*self, f) == normalized_field(before, *bounds, f) by {
                match f {
                    Field::Latency => {},
                    Field::Interactions => {},
                    Field::InboundBandwidth => {},
                    Field::OutboundBandwidth => {},
                    Field::BytesReceived => {},
                    Field::BytesSent => {},
                }
            }
        }
        Ok(())
    }
}

/// What a value adds to the score: one minus the value for latency (lower
/// is better), the value itself for the others, nothing when absent.
pub open spec fn score_term(n: NormalizedMeasurements, f: Field) -> int {
    match norm_field(n, f) {
        Some(x) => if f == Field::Latency {
            fixed_from_int(1) - x
        } else {
            x as int
        },
        None => 0,
    }
}

pub open spec fn present(n: NormalizedMeasurements, f: Field) -> int {
    if norm_field(n, f) is Some { 1 } else { 0 }
}

/// The sum of the score terms of all kinds.
pub open spec fn score_sum(n: NormalizedMeasurements) -> int {
    score_term(n, Field::Latency) + score_term(n, Field::Interactions) + score_term(n, Field::InboundBandwidth)
        + score_term(n, Field::OutboundBandwidth) + score_term(n, Field::BytesReceived) + score_term(
        n,
        Field::BytesSent,
    )
}

/// The number of kinds that have a value.
pub open spec fn score_count(n: NormalizedMeasurements) -> int {
    present(n, Field::Latency) + present(n, Field::Interactions) + present(n, Field::InboundBandwidth) + present(
        n,
        Field::OutboundBandwidth,
    ) + present(n, Field::BytesReceived) + present(n, Field::BytesSent)
}

/// The score: the mean of the score terms in fixed point, times a hundred,
/// its whole part capped at a hundred; `None` when no kind has a value.
pub open spec fn score_spec(n: NormalizedMeasurements) -> Option<u8> {
    if score_count(n) == 0 {
        None
    } else {
        let mean = fixed_div(score_sum(n), fixed_from_int(score_count(n)));
        let percent = trunc_div(fixed_mul(mean, fixed_from_int(100)), FIXED_ONE as int);
        Some((if percent < 100 { percent } else { 100 }) as u8)
    }
}

/// Every value lies between zero and one, as normalisation leaves them.
pub open spec fn unit_values(n: NormalizedMeasurements) -> bool {
    forall|f: Field| #[trigger] norm_field(n, f) matches Some(x) ==> 0 <= x <= FIXED_ONE
}

proof fn lemma_unit_field(n: NormalizedMeasurements, f: Field)
    requires
        unit_values(n),
    ensures
        0 <= score_term(n, f) <= FIXED_ONE,
        score_term(n, f) <= (FIXED_ONE as int) * present(n, f),
        norm_field(n, f) matches Some(x) ==> 0 <= x <= FIXED_ONE,
{
    assert(norm_field(n, f) matches Some(x) ==> 0 <= x <= FIXED_ONE);
}


/// The running sums of the score terms, kind by kind, stay within the
/// `i128` range.
pub open spec fn score_fits(n: NormalizedMeasurements) -> bool {
    let s1 = score_term(n, Field::Latency);
    let s2 = s1 + score_term(n, Field::Interactions);
    let s3 = s2 + score_term(n, Field::InboundBandwidth);
    let s4 = s3 + score_term(n, Field::OutboundBandwidth);
    let s5 = s4 + score_term(n, Field::BytesReceived);
    let s6 = s5 + score_term(n, Field::BytesSent);
    &&& fits_i128(s1)
    &&& fits_i128(s2)
    &&& fits_i128(s3)
    &&& fits_i128(s4)
    &&& fits_i128(s5)
    &&& fits_i128(s6)
}

/// Values between zero and one always give a score from 0 to 100.
pub proof fn law_unit_score(n: NormalizedMeasurements)
    requires
        unit_values(n),
    ensures
        score_fits(n),
        score_spec(n) matches Some(x) ==> x <= 100,
{
    lemma_unit_field(n, Field::Latency);
    lemma_unit_field(n, Field::Interactions);
    lemma_unit_field(n, Field::InboundBandwidth);
    lemma_unit_field(n, Field::OutboundBandwidth);
    lemma_unit_field(n, Field::BytesReceived);
    lemma_unit_field(n, Field::BytesSent);
    if score_count(n) > 0 {
        let c = score_count(n);
        let sum = score_sum(n);
        let one = FIXED_ONE as int;
        assert(0 <= sum <= c * one);
        lemma_fixed_div_by_int(sum, c);
        let mean = trunc_div(sum, c);
        assert(0 <= mean <= one) by (nonlinear_arith)
            requires
                0 <= sum <= c * one,
                c >= 1,
                mean == sum / c,
        ;
        lemma_trunc_div_scaled(mean, 100 * one, one);
        assert(fixed_mul(mean, fixed_from_int(100)) == mean * 100) by (nonlinear_arith)
            requires
                fixed_mul(mean, fixed_from_int(100)) == trunc_div(mean * (100 * one), one),
                trunc_div(mean * (100 * one), one) == mean * 100,
        ;
        assert(0 <= (mean * 100) / one <= 100) by (nonlinear_arith)
            requires
                0 <= mean <= one,
                one > 0,
        ;
    }
}

/// Multiplying by a multiple of the divisor and dividing again.
proof fn lemma_trunc_div_scaled(x: int, k: int, d: int)
    requires
        d > 0,
        k % d == 0,
        k >= 0,
    ensures
        trunc_div(x * k, d) == x * (k / d),
{
    let q = k / d;
    vstd::arithmetic::div_mod::lemma_fundamental_div_mod(k, d);
    assert(k == d * q);
    let ax = if x < 0 { -x } else { x };
    assert(ax * q >= 0) by (nonlinear_arith)
        requires
            ax >= 0,
            q >= 0,
    ;
    assert(x * k == (x * q) * d) by (nonlinear_arith)
        requires
            k == d * q,
    ;
    assert(ax * q == (if x * q < 0 { -(x * q) } else { x * q })) by (nonlinear_arith)
        requires
            ax == (if x < 0 { -x } else { x }),
            q >= 0,
    ;
    assert((if x * k < 0 { -(x * k) } else { x * k }) == (ax * q) * d) by (nonlinear_arith)
        requires
            x * k == (x * q) * d,
            ax * q == (if x * q < 0 { -(x * q) } else { x * q }),
            d > 0,
    ;
    vstd::arithmetic::div_mod::lemma_div_by_multiple(ax * q, d);
    assert((x * k < 0) ==> (x < 0)) by (nonlinear_arith)
        requires
            k >= 0,
    ;
    assert((x < 0 && q > 0) ==> x * k < 0) by (nonlinear_arith)
        requires
            k == d * q,
            d > 0,
    ;
    assert(q == 0 ==> x * q == 0) by (nonlinear_arith);
    assert(x < 0 ==> -(ax * q) == x * q) by (nonlinear_arith)
        requires
            ax == (if x < 0 { -x } else { x }),
    ;
}

/// The whole part of `100 * m` in fixed point, from the whole part and the
/// fraction of `m`.
proof fn lemma_percent_split(m: int, d: int)
    requires
        d > 0,
    ensures
        trunc_div(m * 100, d) == trunc_div(m, d) * 100 + trunc_div((m - trunc_div(m, d) * d) * 100, d),
{
    let x = if m < 0 { -m } else { m };
    let q = x / d;
    let r = x % d;
    vstd::arithmetic::div_mod::lemma_fundamental_div_mod(x, d);
    vstd::arithmetic::div_mod::lemma_mod_pos_bound(x, d);
    assert(r * 100 >= 0) by (nonlinear_arith)
        requires
            r >= 0,
    ;
    vstd::arithmetic::div_mod::lemma_hoist_over_denominator(r * 100, q * 100, d as nat);
    assert(x * 100 == r * 100 + (q * 100) * d) by (nonlinear_arith)
        requires
            x == d * q + r,
    ;
    assert((r * 100) / d >= 0) by (nonlinear_arith)
        requires
            r * 100 >= 0,
            d > 0,
    ;
    if m >= 0 {
        assert(m * 100 >= 0) by (nonlinear_arith)
            requires
                m >= 0,
        ;
        assert(trunc_div(m, d) == q);
        assert(m - q * d == r) by (nonlinear_arith)
            requires
                m == x,
                x == d * q + r,
        ;
    } else {
        assert(m * 100 < 0) by (nonlinear_arith)
            requires
                m < 0,
        ;
        assert(trunc_div(m, d) == -q);
        assert(m - (-q) * d == -r) by (nonlinear_arith)
            requires
                m == -x,
                x == d * q + r,
        ;
        assert(-(m * 100) == x * 100) by (nonlinear_arith)
            requires
                m == -x,
        ;
        if r > 0 {
            assert((-r) * 100 < 0) by (nonlinear_arith)
                requires
                    r > 0,
            ;
            assert(-((-r) * 100) == r * 100) by (nonlinear_arith);
        } else {
            assert(r == 0);
            assert((r * 100) / d == 0);
        }
    }
}

/// The whole part of `100 * mean`, for a fixed-point `mean`: its fixed-point
/// product with 100, truncated to an integer.
fn whole_percent(mean: i128) -> (p: i128)
    ensures
        p == trunc_div(fixed_mul(mean as int, fixed_from_int(100)), FIXED_ONE as int),
{
    let one: i128 = 1_000_000_000_000_000_000i128;
    let whole: i128 = div_trunc(mean, one);
    let ghost d = FIXED_ONE as int;
    proof {
        lemma_trunc_div_scaled(mean as int, 100 * d, d);
        assert(fixed_mul(mean as int, fixed_from_int(100)) == mean * 100) by (nonlinear_arith)
            requires
                fixed_mul(mean as int, fixed_from_int(100)) == trunc_div(mean * (100 * d), d),
                trunc_div(mean * (100 * d), d) == mean * 100,
        ;
        lemma_percent_split(mean as int, d);
        let x = if mean < 0 { -(mean as int) } else { mean as int };
        assert(x / d <= 170141183460469231731) by (nonlinear_arith)
            requires
                0 <= x <= 170141183460469231731687303715884105728,
                d == 1_000_000_000_000_000_000,
        ;
        vstd::arithmetic::div_mod::lemma_fundamental_div_mod(x, d);
        vstd::arithmetic::div_mod::lemma_mod_pos_bound(x, d);
        assert(-d < mean - whole * d < d) by (nonlinear_arith)
            requires
                whole == (if mean < 0 { -(x / d) } else { x / d }),
                x == (if mean < 0 { -(mean as int) } else { mean as int }),
                x == d * (x / d) + x % d,
                0 <= x % d < d,
        ;
        assert(-170141183460469231731 <= whole <= 170141183460469231731);
    }
    let frac: i128 = mean - whole * one;
    proof {
        assert(-100 * d < frac * 100 < 100 * d) by (nonlinear_arith)
            requires
                -d < frac < d,
        ;
    }
    whole * 100 + div_trunc(frac * 100, one)
}

impl NormalizedMeasurements {
    /// The reputation score from normalised values: their mean (one minus
    /// the latency, lower latency being better), as a whole percentage capped
    /// at 100; `None` when no kind has a value. Normalised values lie between
    /// zero and one, and then so does the mean.
    pub fn calculate_score(&self) -> (r: Option<u8>)
        requires
            score_fits(*self),
        ensures
            r == score_spec(*self),
            unit_values(*self) ==> (r matches Some(x) ==> x <= 100),
    {
        proof {
            if unit_values(*self) {
                law_unit_score(*self);
            }
            assert(fixed_from_int(1) == FIXED_ONE as int);
        }
        let one: i128 = 1_000_000_000_000_000_000i128;
        let mut sum: i128 = 0;
        let mut count: i128 = 0;
        match self.latency {
            Some(v) => {
                sum = one - v;
                count = 1;
            },
            None => {},
        }
        match self.interactions {
            Some(v) => {
                sum = sum + v;
                count = count + 1;
            },
            None => {},
        }
        match self.inbound_bandwidth {
            Some(v) => {
                sum = sum + v;
                count = count + 1;
            },
            None => {},
        }
        match self.outbound_bandwidth {
            Some(v) => {
                sum = sum + v;
                count = count + 1;
            },
            None => {},
        }
        match self.bytes_received {
            Some(v) => {
                sum = sum + v;
                count = count + 1;
            },
            None => {},
        }
        match self.bytes_sent {
            Some(v) => {
                sum = sum + v;
                count = count + 1;
            },
            None => {},
        }
        proof {
            assert(sum == score_sum(*self));
            assert(count == score_count(*self));
        }
        if count == 0 {
            return None;
        }
        let mean: i128 = div_trunc(sum, count);
        proof {
            lemma_fixed_div_by_int(sum as int, count as int);
        }
        let percent = whole_percent(mean);
        let capped: i128 = if percent < 100 { percent } else { 100 };
        Some(capped as u8)
    }
}

/// The averaged measurements of a node, from the reports of it.
pub open spec fn normalized_of(s: Seq<WeightedReputationMeasurements>) -> NormalizedMeasurements {
    NormalizedMeasurements {
        latency: field_mean(collect_latency(s)),
        interactions: field_mean(collect_base(s, Field::Interactions)),
        inbound_bandwidth: field_mean(collect_base(s, Field::InboundBandwidth)),
        outbound_bandwidth: field_mean(collect_base(s, Field::OutboundBandwidth)),
        bytes_received: field_mean(collect_base(s, Field::BytesReceived)),
        bytes_sent: field_mean(collect_base(s, Field::BytesSent)),
    }
}

/// Averaging the reports of a node stays within the `i128` range.
pub open spec fn reports_fit(s: Seq<WeightedReputationMeasurements>) -> bool {
    &&& field_fits(collect_latency(s))
    &&& field_fits(collect_base(s, Field::Interactions))
    &&& field_fits(collect_base(s, Field::InboundBandwidth))
    &&& field_fits(collect_base(s, Field::OutboundBandwidth))
    &&& field_fits(collect_base(s, Field::BytesReceived))
    &&& field_fits(collect_base(s, Field::BytesSent))
}

/// The averaged measurements of every node.
pub open spec fn normalized_map(m: Map<u32, Vec<WeightedReputationMeasurements>>) -> Map<u32, NormalizedMeasurements> {
    m.map_values(|v: Vec<WeightedReputationMeasurements>| normalized_of(v@))
}

/// Every report is small enough to be a fixed-point number (see
/// `collect_fits` for the limit).
pub open spec fn all_collect_fit(m: Map<u32, Vec<WeightedReputationMeasurements>>) -> bool {
    forall|k: u32| #[trigger] m.contains_key(k) ==> collect_fits(m[k]@)
}

/// Averaging the reports of every node stays within the `i128` range.
pub open spec fn all_reports_fit(m: Map<u32, Vec<WeightedReputationMeasurements>>) -> bool {
    forall|k: u32| #[trigger] m.contains_key(k) ==> reports_fit(m[k]@)
}

/// The averaged measurements of each node, from the reports of it; an error
/// when a fixed-point value leaves the `i128` range.
pub fn calculate_normalized_measurements(reports: BTreeMap<u32, Vec<WeightedReputationMeasurements>>) -> (r: Result<
    BTreeMap<u32, NormalizedMeasurements>,
    RangeError,
>)
    requires
        all_collect_fit(reports@),
    ensures
        r is Ok <==> all_reports_fit(reports@),
        r matches Ok(n) ==> n@ == normalized_map(reports@),
{
    let ghost orig = reports@;
    let keys = map_keys(&reports);
    let mut remaining = reports;
    let mut out: BTreeMap<u32, NormalizedMeasurements> = BTreeMap::new();
    let n = keys.len();
    for i in 0..n
        invariant
            n == keys@.len(),
            keys@.to_set() == orig.dom(),
            keys@.no_duplicates(),
            all_collect_fit(orig),
            orig == reports@,
            forall|k: u32| #[trigger] remaining@.contains_key(k) <==> orig.contains_key(k) && !keys@.take(i as int).contains(k),
            forall|k: u32| #[trigger] remaining@.contains_key(k) ==> remaining@[k] == orig[k],
            forall|k: u32| #[trigger] out@.contains_key(k) <==> keys@.take(i as int).contains(k),
            forall|k: u32| #[trigger] out@.contains_key(k) ==> out@[k] == normalized_of(orig[k]@) && reports_fit(orig[k]@),
    {
        let k = keys[i];
        proof {
            assert(keys@.to_set().contains(k));
            assert(keys@.take(i + 1) =~= keys@.take(i as int).push(k));
            assert(!keys@.take(i as int).contains(k)) by {
                if keys@.take(i as int).contains(k) {
                    let j = choose|j: int| 0 <= j < i && keys@.take(i as int)[j] == k;
                    assert(keys@[j] == keys@[i as int]);
                }
            }
            lemma_push_contains(keys@.take(i as int), k);
        }
        let v = match remaining.remove(&k) {
            Some(v) => v,
            None => {
                proof {
                    assert(false);
                }
                return Err(RangeError);
            },
        };
        proof {
            assert(v == orig[k]);
            assert(collect_fits(v@));
        }
        let c = CollectedMeasurements::from_weighted_measurements(v);
        let nm = match NormalizedMeasurements::from_collected(c) {
            Ok(nm) => nm,
            Err(e) => {
                proof {
                    assert(orig.contains_key(k));
                    assert(!reports_fit(orig[k]@));
                    assert(!all_reports_fit(orig));
                }
                return Err(e);
            },
        };
        out.insert(k, nm);
    }
    proof {
        assert(keys@.take(n as int) =~= keys@);
        assert forall|k: u32| #[trigger] orig.contains_key(k) implies reports_fit(orig[k]@) by {
            assert(keys@.to_set().contains(k));
            assert(keys@.take(n as int).contains(k));
            assert(out@.contains_key(k));
        }
        assert forall|k: u32| #[trigger] out@.contains_key(k) <==> normalized_map(orig).contains_key(k) by {
            if orig.contains_key(k) {
                assert(keys@.to_set().contains(k));
            }
        }
        assert(out@ =~= normalized_map(orig));
    }
    Ok(out)
}

/// The lowest value of kind `f` over the nodes of `m` (`i128::MAX` when no
/// node has one).
pub open spec fn lowest(m: Map<u32, NormalizedMeasurements>, f: Field) -> i128 {
    choose|x: i128| is_lowest(m, f, x)
}

/// The highest value of kind `f` over the nodes of `m` (`i128::MIN` when no
/// node has one).
pub open spec fn highest(m: Map<u32, NormalizedMeasurements>, f: Field) -> i128 {
    choose|x: i128| is_highest(m, f, x)
}

/// The lowest and highest value of each kind over the nodes of `m`.
pub open spec fn bounds_of(m: Map<u32, NormalizedMeasurements>) -> MinMaxValues {
    MinMaxValues {
        min_values: Values {
            latency: lowest(m, Field::Latency),
            interactions: lowest(m, Field::Interactions),
            inbound_bandwidth: lowest(m, Field::InboundBandwidth),
            outbound_bandwidth: lowest(m, Field::OutboundBandwidth),
            bytes_received: lowest(m, Field::BytesReceived),
            bytes_sent: lowest(m, Field::BytesSent),
        },
        max_values: Values {
            latency: highest(m, Field::Latency),
            interactions: highest(m, Field::Interactions),
            inbound_bandwidth: highest(m, Field::InboundBandwidth),
            outbound_bandwidth: highest(m, Field::OutboundBandwidth),
            bytes_received: highest(m, Field::BytesReceived),
            bytes_sent: highest(m, Field::BytesSent),
        },
    }
}

/// `n` with every value normalised between `bounds`.
pub open spec fn normalize_all(n: NormalizedMeasurements, bounds: MinMaxValues) -> NormalizedMeasurements {
    NormalizedMeasurements {
        latency: normalized_field(n, bounds, Field::Latency),
        interactions: normalized_field(n, bounds, Field::Interactions),
        inbound_bandwidth: normalized_field(n, bounds, Field::InboundBandwidth),
        outbound_bandwidth: normalized_field(n, bounds, Field::OutboundBandwidth),
        bytes_received: normalized_field(n, bounds, Field::BytesReceived),
        bytes_sent: normalized_field(n, bounds, Field::BytesSent),
    }
}

/// The score of each node with at least one measurement: its averaged
/// measurements normalised against those of all nodes, then combined.
pub open spec fn scores_spec(m: Map<u32, Vec<WeightedReputationMeasurements>>) -> Map<u32, u8> {
    let norm = normalized_map(m);
    let bounds = bounds_of(norm);
    Map::new(
        |k: u32| norm.contains_key(k) && score_spec(normalize_all(norm[k], bounds)) is Some,
        |k: u32| score_spec(normalize_all(norm[k], bounds)).unwrap(),
    )
}

/// Computing the scores stays within the `i128` range.
pub open spec fn scores_fit(m: Map<u32, Vec<WeightedReputationMeasurements>>) -> bool {
    &&& all_reports_fit(m)
    &&& forall|k: u32| #[trigger]
        normalized_map(m).contains_key(k) ==> normalized_fits(normalized_map(m)[k], bounds_of(normalized_map(m)))
}

proof fn lemma_lowest_unique(m: Map<u32, NormalizedMeasurements>, f: Field, x: i128)
    requires
        is_lowest(m, f, x),
    ensures
        lowest(m, f) == x,
{
    let y = lowest(m, f);
    assert(is_lowest(m, f, y));
    if any_present(m, f) {
        let kx = choose|k: u32| m.contains_key(k) && #[trigger] norm_field(m[k], f) == Some(x);
        let ky = choose|k: u32| m.contains_key(k) && #[trigger] norm_field(m[k], f) == Some(y);
        assert(norm_field(m[kx], f) is Some);
        assert(norm_field(m[ky], f) is Some);
    }
}

proof fn lemma_highest_unique(m: Map<u32, NormalizedMeasurements>, f: Field, x: i128)
    requires
        is_highest(m, f, x),
    ensures
        highest(m, f) == x,
{
    let y = highest(m, f);
    assert(is_highest(m, f, y));
    if any_present(m, f) {
        let kx = choose|k: u32| m.contains_key(k) && #[trigger] norm_field(m[k], f) == Some(x);
        let ky = choose|k: u32| m.contains_key(k) && #[trigger] norm_field(m[k], f) == Some(y);
        assert(norm_field(m[kx], f) is Some);
        assert(norm_field(m[ky], f) is Some);
    }
}

/// Normalising a node's values between the lowest and highest of each kind
/// over all nodes leaves each between zero and one.
pub proof fn law_normalized_unit(m: Map<u32, NormalizedMeasurements>, k: u32, b: MinMaxValues)
    requires
        m.contains_key(k),
        forall|f: Field| #[trigger] is_lowest(m, f, value_field(b.min_values, f)),
        forall|f: Field| #[trigger] is_highest(m, f, value_field(b.max_values, f)),
    ensures
        unit_values(normalize_all(m[k], b)),
{
    let n = normalize_all(m[k], b);
    assert forall|f: Field| #[trigger] norm_field(n, f) matches Some(x) ==> 0 <= x <= FIXED_ONE by {
        assert(norm_field(n, f) == normalized_field(m[k], b, f)) by {
            match f {
                Field::Latency => {},
                Field::Interactions => {},
                Field::InboundBandwidth => {},
                Field::OutboundBandwidth => {},
                Field::BytesReceived => {},
                Field::BytesSent => {},
            }
        }
        match norm_field(m[k], f) {
            Some(x) => {
                let lo = value_field(b.min_values, f);
                let hi = value_field(b.max_values, f);
                assert(any_present(m, f));
                assert(is_lowest(m, f, lo));
                assert(is_highest(m, f, hi));
                assert(lo <= x <= hi);
                if abs_int(hi - lo) >= EPSILON {
                    law_min_max_normalize_unit(x as int, x as int, lo as int, hi as int);
                }
            },
            None => {},
        }
    }
}

/// The reputation score of each node from the measurements other nodes
/// reported of it: each node's reports are averaged (outliers dropped,
/// weighted by the reporters' standing), normalised against the lowest and
/// highest average over all nodes, and combined into a score from 0 to 100.
/// A node none of whose measurements survive gets no score. An error when a
/// fixed-point value leaves the `i128` range.
pub fn calculate_reputation_scores(reports: BTreeMap<u32, Vec<WeightedReputationMeasurements>>) -> (r: Result<
    BTreeMap<u32, u8>,
    RangeError,
>)
    requires
        all_collect_fit(reports@),
    ensures
        r is Ok <==> scores_fit(reports@),
        r matches Ok(scores) ==> scores@ == scores_spec(reports@),
{
    let ghost orig = reports@;
    let normalized = match calculate_normalized_measurements(reports) {
        Ok(n) => n,
        Err(e) => {
            return Err(e);
        },
    };
    let ghost norm = normalized@;
    let bounds = MinMaxValues::from_normalized(&normalized);
    proof {
        assert forall|f: Field| #[trigger] value_field(bounds.min_values, f) == lowest(norm, f) by {
            lemma_lowest_unique(norm, f, value_field(bounds.min_values, f));
        }
        assert forall|f: Field| #[trigger] value_field(bounds.max_values, f) == highest(norm, f) by {
            lemma_highest_unique(norm, f, value_field(bounds.max_values, f));
        }
        assert(value_field(bounds.min_values, Field::Latency) == lowest(norm, Field::Latency));
        assert(value_field(bounds.min_values, Field::Interactions) == lowest(norm, Field::Interactions));
        assert(value_field(bounds.min_values, Field::InboundBandwidth) == lowest(norm, Field::InboundBandwidth));
        assert(value_field(bounds.min_values, Field::OutboundBandwidth) == lowest(norm, Field::OutboundBandwidth));
        assert(value_field(bounds.min_values, Field::BytesReceived) == lowest(norm, Field::BytesReceived));
        assert(value_field(bounds.min_values, Field::BytesSent) == lowest(norm, Field::BytesSent));
        assert(value_field(bounds.max_values, Field::Latency) == highest(norm, Field::Latency));
        assert(value_field(bounds.max_values, Field::Interactions) == highest(norm, Field::Interactions));
        assert(value_field(bounds.max_values, Field::InboundBandwidth) == highest(norm, Field::InboundBandwidth));
        assert(value_field(bounds.max_values, Field::OutboundBandwidth) == highest(norm, Field::OutboundBandwidth));
        assert(value_field(bounds.max_values, Field::BytesReceived) == highest(norm, Field::BytesReceived));
        assert(value_field(bounds.max_values, Field::BytesSent) == highest(norm, Field::BytesSent));
        assert(bounds == bounds_of(norm));
    }
    let keys = map_keys(&normalized);
    let n = keys.len();
    let mut scores: BTreeMap<u32, u8> = BTreeMap::new();
    for i in 0..n
        invariant
            n == keys@.len(),
            keys@.to_set() == norm.dom(),
            keys@.no_duplicates(),
            norm == normalized@,
            norm == normalized_map(orig),
            orig == reports@,
            all_reports_fit(orig),
            bounds == bounds_of(norm),
            forall|f: Field| #[trigger] is_lowest(norm, f, value_field(bounds.min_values, f)),
            forall|f: Field| #[trigger] is_highest(norm, f, value_field(bounds.max_values, f)),
            forall|k: u32| keys@.take(i as int).contains(k) ==> #[trigger] normalized_fits(norm[k], bounds),
            forall|k: u32| #[trigger] scores@.contains_key(k) <==> keys@.take(i as int).contains(k) && score_spec(
                normalize_all(norm[k], bounds),
            ) is Some,
            forall|k: u32| #[trigger] scores@.contains_key(k) ==> scores@[k] == score_spec(normalize_all(norm[k], bounds)).unwrap(),
    {
        let k = keys[i];
        proof {
            assert(keys@.to_set().contains(k));
            assert(keys@.take(i + 1) =~= keys@.take(i as int).push(k));
            lemma_push_contains(keys@.take(i as int), k);
        }
        let mut m: NormalizedMeasurements = match normalized.get(&k) {
            Some(m) => *m,
            None => {
                proof {
                    assert(false);
                }
                return Err(RangeError);
            },
        };
        let ghost before = m;
        match m.min_max_normalize(&bounds) {
            Ok(()) => {},
            Err(e) => {
                proof {
                    assert(norm.contains_key(k));
                    assert(!normalized_fits(norm[k], bounds_of(norm)));
                    assert(normalized_map(orig).contains_key(k));
                }
                return Err(e);
            },
        }
        proof {
            assert(before == norm[k]);
            law_normalized_unit(norm, k, bounds);
            assert(m == normalize_all(norm[k], bounds)) by {
                assert(norm_field(m, Field::Latency) == normalized_field(before, bounds, Field::Latency));
                assert(norm_field(m, Field::Interactions) == normalized_field(before, bounds, Field::Interactions));
                assert(norm_field(m, Field::InboundBandwidth) == normalized_field(before, bounds, Field::InboundBandwidth));
                assert(norm_field(m, Field::OutboundBandwidth) == normalized_field(before, bounds, Field::OutboundBandwidth));
                assert(norm_field(m, Field::BytesReceived) == normalized_field(before, bounds, Field::BytesReceived));
                assert(norm_field(m, Field::BytesSent) == normalized_field(before, bounds, Field::BytesSent));
            }
        }
        match m.calculate_score() {
            Some(score) => {
                scores.insert(k, score);
            },
            None => {},
        }
        proof {
            assert(normalized_fits(norm[k], bounds));
            assert forall|x: u32| #[trigger] keys@.take(i + 1).contains(x) implies normalized_fits(norm[x], bounds) by {
                assert(keys@.take(i + 1).contains(x) <==> (keys@.take(i as int).contains(x) || x == k));
                if x != k {
                    assert(keys@.take(i as int).contains(x));
                    assert(normalized_fits(norm[x], bounds));
                } else {
                    assert(normalized_fits(norm[x], bounds));
                }
            }
        }
    }
    proof {
        assert(keys@.take(n as int) =~= keys@);
        assert forall|k: u32| #[trigger] normalized_map(orig).contains_key(k) implies normalized_fits(
            normalized_map(orig)[k],
            bounds_of(normalized_map(orig)),
        ) by {
            assert(keys@.to_set().contains(k));
            assert(keys@.take(n as int).contains(k));
        }
        assert forall|k: u32| #[trigger] scores@.contains_key(k) <==> scores_spec(orig).contains_key(k) by {
            if norm.contains_key(k) {
                assert(keys@.to_set().contains(k));
                assert(keys@.take(n as int).contains(k));
            }
        }
        assert(scores@ =~= scores_spec(orig));
    }
    Ok(scores)
}

/// Each kind of measurement is collected from exactly the reports that hold
/// it, one value each, and their weights are shares between zero and one
/// that add up to one, short by at most one unit in the last place per
/// report (each share is rounded down); with no weight at all, the reports
/// share equally.
pub proof fn law_collected_weights(s: Seq<WeightedReputationMeasurements>, f: Field)
    ensures
        collect_base(s, f).len() == present_count(s, f),
        unit_weights(collect_base(s, f)),
        weight_total(s, f) > 0 ==> (FIXED_ONE as int) - present_count(s, f) <= weights_sum(collect_base(s, f))
            <= FIXED_ONE as int,
        weight_total(s, f) == 0 ==> forall|j: int|
            0 <= j < collect_base(s, f).len() ==> (#[trigger] collect_base(s, f)[j]).weight == (FIXED_ONE as int)
                / present_count(s, f),
{
    let t = weight_total(s, f);
    let c = present_count(s, f);
    lemma_totals_bounded(s, f);
    lemma_collect_weights(s, f, t, c);
    if t > 0 {
        let ws = weights_sum(collect_base(s, f));
        let one = FIXED_ONE as int;
        assert(ws <= one) by (nonlinear_arith)
            requires
                ws * t <= one * t,
                t > 0,
        ;
        assert(ws >= one - c) by (nonlinear_arith)
            requires
                ws * t >= one * t - t * c,
                t > 0,
        ;
    } else {
        lemma_zero_total_shares(s, f, c);
    }
}

/// The sum of one minus each weight, over a prefix, against the sum of the
/// weights; each term lies between zero and the whole sum.
proof fn lemma_inverse_total(ws: Seq<WeightedFloat>, k: int)
    requires
        0 <= k <= ws.len(),
        unit_weights(ws),
    ensures
        inverse_weight_total(ws.take(k)) == k * (FIXED_ONE as int) - weights_sum(ws.take(k)),
        0 <= inverse_weight_total(ws.take(k)),
        forall|j: int| 0 <= j < k ==> (FIXED_ONE as int) - #[trigger] ws[j].weight <= inverse_weight_total(ws.take(k)),
    decreases k,
{
    if k > 0 {
        lemma_inverse_total(ws, k - 1);
        assert(ws.take(k).drop_last() =~= ws.take(k - 1));
        assert(ws.take(k).last() == ws[k - 1]);
        assert(0 <= ws[k - 1].weight <= FIXED_ONE);
    }
}

/// The inverted weights of a prefix, times the whole inverse total, against
/// the one-minus-weights of that prefix: each share is rounded down.
proof fn lemma_inverted_prefix(ws: Seq<WeightedFloat>, k: int, t: int)
    requires
        0 <= k <= ws.len(),
        unit_weights(ws),
        t == inverse_weight_total(ws),
        t > 0,
        forall|j: int| 0 <= j < ws.len() ==> (FIXED_ONE as int) - #[trigger] ws[j].weight <= t,
    ensures
        unit_weights(invert_weights(ws).take(k)),
        weights_sum(invert_weights(ws).take(k)) * t <= (FIXED_ONE as int) * inverse_weight_total(ws.take(k)),
        weights_sum(invert_weights(ws).take(k)) * t >= (FIXED_ONE as int) * inverse_weight_total(ws.take(k)) - k * t,
    decreases k,
{
    let inv = invert_weights(ws);
    let one = FIXED_ONE as int;
    if k > 0 {
        lemma_inverted_prefix(ws, k - 1, t);
        assert(inv.take(k).drop_last() =~= inv.take(k - 1));
        assert(ws.take(k).drop_last() =~= ws.take(k - 1));
        assert(ws.take(k).last() == ws[k - 1]);
        assert(inv.take(k).last() == inv[k - 1]);
        let a = one - ws[k - 1].weight;
        assert(0 <= ws[k - 1].weight <= FIXED_ONE);
        assert(0 <= a <= t);
        let q = (a * one) / t;
        assert(fixed_div(a, t) == q) by {
            assert(a * one >= 0) by (nonlinear_arith)
                requires
                    a >= 0,
                    one > 0,
            ;
        }
        assert(q * t <= a * one && a * one < q * t + t && 0 <= q <= one) by (nonlinear_arith)
            requires
                q == (a * one) / t,
                0 <= a <= t,
                t > 0,
                one > 0,
        ;
        assert(inv[k - 1].weight == q);
        assert forall|j: int| 0 <= j < k implies 0 <= #[trigger] inv.take(k)[j].weight <= FIXED_ONE by {
            if j < k - 1 {
                assert(inv.take(k)[j] == inv.take(k - 1)[j]);
            }
        }
        let prev = weights_sum(inv.take(k - 1));
        let pinv = inverse_weight_total(ws.take(k - 1));
        assert(weights_sum(inv.take(k)) == prev + q);
        assert(inverse_weight_total(ws.take(k)) == pinv + a);
        assert((prev + q) * t == prev * t + q * t) by (nonlinear_arith);
        assert(one * (pinv + a) == one * pinv + a * one) by (nonlinear_arith);
        assert(k * t == (k - 1) * t + t) by (nonlinear_arith);
    }
}

/// Inverting the weights of two or more shares between zero and one that
/// add up to at most one gives shares between zero and one again, adding up
/// to one short by at most one unit in the last place per share.
proof fn lemma_inverted_weights(ws: Seq<WeightedFloat>)
    requires
        ws.len() > 1,
        unit_weights(ws),
        weights_sum(ws) <= FIXED_ONE,
    ensures
        unit_weights(invert_weights(ws)),
        (FIXED_ONE as int) - ws.len() <= weights_sum(invert_weights(ws)) <= FIXED_ONE as int,
{
    let n = ws.len() as int;
    let one = FIXED_ONE as int;
    lemma_inverse_total(ws, n);
    assert(ws.take(n) =~= ws);
    let t = inverse_weight_total(ws);
    assert(t >= one) by (nonlinear_arith)
        requires
            t == n * one - weights_sum(ws),
            weights_sum(ws) <= one,
            n >= 2,
            one > 0,
    ;
    lemma_inverted_prefix(ws, n, t);
    assert(invert_weights(ws).take(n) =~= invert_weights(ws));
    let w = weights_sum(invert_weights(ws));
    assert(w <= one) by (nonlinear_arith)
        requires
            w * t <= one * t,
            t > 0,
    ;
    assert(w >= one - n) by (nonlinear_arith)
        requires
            w * t >= one * t - n * t,
            t > 0,
    ;
}

/// The latency weights, inverted so that a reporter of high standing weighs
/// a low latency no less, are shares between zero and one that add up to
/// one, short by at most one unit in the last place per report.
pub proof fn law_inverted_latency_weights(s: Seq<WeightedReputationMeasurements>)
    ensures
        unit_weights(collect_latency(s)),
        weight_total(s, Field::Latency) > 0 ==> (FIXED_ONE as int) - present_count(s, Field::Latency)
            <= weights_sum(collect_latency(s)) <= FIXED_ONE as int,
{
    law_collected_weights(s, Field::Latency);
    lemma_totals_bounded(s, Field::Latency);
    let base = collect_base(s, Field::Latency);
    if weight_total(s, Field::Latency) != 0 && base.len() > 1 {
        lemma_inverted_weights(base);
    }
}

proof fn lemma_zero_total_shares(s: Seq<WeightedReputationMeasurements>, f: Field, count: int)
    requires
        weight_total(s, f) == 0,
        count >= present_count(s, f),
    ensures
        forall|j: int|
            0 <= j < collect_with(s, f, 0, count).len() ==> (#[trigger] collect_with(s, f, 0, count)[j]).weight
                == (FIXED_ONE as int) / count,
    decreases s.len(),
{
    if s.len() > 0 {
        lemma_totals_bounded(s.drop_last(), f);
        lemma_zero_total_shares(s.drop_last(), f, count);
        let prev = collect_with(s.drop_last(), f, 0, count);
        let cur = collect_with(s, f, 0, count);
        if field_int(s.last().measurements, f) is Some {
            lemma_totals_bounded(s, f);
            lemma_weight_share(0, 0, count);
            assert forall|j: int| 0 <= j < cur.len() implies (#[trigger] cur[j]).weight == (FIXED_ONE as int) / count by {
                if j < prev.len() {
                    assert(cur[j] == prev[j]);
                }
            }
        }
    }
}

/// Normalising between the bounds treats every kind alike: a present value
/// `x` of any kind, whose lowest and highest values over all nodes are at
/// least `EPSILON` apart, becomes `(x - min) / (max - min)` in fixed point;
/// it is dropped only when its bounds are closer together, and a kind with
/// no value stays without one.
pub proof fn law_normalize_every_kind(n: NormalizedMeasurements, bounds: MinMaxValues, f: Field)
    ensures
        norm_field(n, f) is None ==> normalized_field(n, bounds, f) is None,
        norm_field(n, f) matches Some(x) ==> {
            let lo = value_field(bounds.min_values, f) as int;
            let hi = value_field(bounds.max_values, f) as int;
            &&& (hi - lo >= EPSILON || lo - hi >= EPSILON) ==> normalized_field(n, bounds, f) == Some(
                trunc_div((x - lo) * 1_000_000_000_000_000_000, hi - lo) as i128,
            )
            &&& (hi - lo < EPSILON && lo - hi < EPSILON) ==> normalized_field(n, bounds, f) is None
        },
{
}

/// `a` times one, over one, in fixed point, is `a`.
proof fn lemma_mul_div_one(a: int)
    ensures
        trunc_div(a * 1_000_000_000_000_000_000, 1_000_000_000_000_000_000) == a,
{
    let k: int = 1_000_000_000_000_000_000;
    if a >= 0 {
        assert((a * k) / k == a) by (nonlinear_arith)
            requires
                k > 0,
                a >= 0,
        ;
    } else {
        assert(-(a * k) == (-a) * k) by (nonlinear_arith);
        assert(((-a) * k) / k == -a) by (nonlinear_arith)
            requires
                k > 0,
                a < 0,
        ;
    }
}

/// A node with a value of one kind only scores that value as a whole
/// percentage (one minus it for latency, where lower is better): every kind
/// counts toward the score.
pub proof fn law_score_of_one_kind(n: NormalizedMeasurements, f: Field, x: i128)
    requires
        norm_field(n, f) == Some(x),
        0 <= x <= FIXED_ONE,
        forall|g: Field| g != f ==> #[trigger] norm_field(n, g) is None,
    ensures
        score_spec(n) == Some(
            ((if f == Field::Latency { 1_000_000_000_000_000_000 - x } else { x as int }) * 100
                / 1_000_000_000_000_000_000) as u8,
        ),
{
    let k: int = 1_000_000_000_000_000_000;
    let v: int = if f == Field::Latency { k - x } else { x as int };
    assert(norm_field(n, Field::Latency) is None || f == Field::Latency);
    assert(norm_field(n, Field::Interactions) is None || f == Field::Interactions);
    assert(norm_field(n, Field::InboundBandwidth) is None || f == Field::InboundBandwidth);
    assert(norm_field(n, Field::OutboundBandwidth) is None || f == Field::OutboundBandwidth);
    assert(norm_field(n, Field::BytesReceived) is None || f == Field::BytesReceived);
    assert(norm_field(n, Field::BytesSent) is None || f == Field::BytesSent);
    assert(score_count(n) == 1);
    assert(score_sum(n) == v);
    assert(0 <= v <= k);
    lemma_fixed_div_by_int(v, 1);
    assert(trunc_div(v, 1) == v);
    let mean = fixed_div(score_sum(n), fixed_from_int(score_count(n)));
    assert(mean == v);
    assert(fixed_from_int(100) == 100 * k);
    assert(v * (100 * k) == (v * 100) * k) by (nonlinear_arith);
    lemma_mul_div_one(v * 100);
    assert(fixed_mul(mean, fixed_from_int(100)) == v * 100);
    assert(v * 100 >= 0 && v * 100 <= 100 * k) by (nonlinear_arith)
        requires
            0 <= v <= k,
    ;
    assert((v * 100) / k <= 100) by (nonlinear_arith)
        requires
            0 <= v * 100 <= 100 * k,
            k > 0,
    ;
}

/// The measurements of kind `f` collected from a single report: its value,
/// if it holds one, with the whole weight.
proof fn lemma_single_collect(r: WeightedReputationMeasurements, f: Field)
    requires
        collect_fits(seq![r]),
    ensures
        field_int(r.measurements, f) is None ==> collect_base(seq![r], f).len() == 0,
        field_int(r.measurements, f) matches Some(x) ==> collect_base(seq![r], f) == seq![
            WeightedFloat { value: (x * 1_000_000_000_000_000_000) as i128, weight: 1_000_000_000_000_000_000i128 },
        ],
        field_int(r.measurements, f) matches Some(x) ==> fits_i128(x * 1_000_000_000_000_000_000),
{
    let s = seq![r];
    let k: int = 1_000_000_000_000_000_000;
    assert(s.drop_last() =~= Seq::<WeightedReputationMeasurements>::empty());
    assert(s.last() == r);
    assert(s[0] == r);
    assert(collect_with(s.drop_last(), f, weight_total(s, f), present_count(s, f)) =~= Seq::<WeightedFloat>::empty());
    if let Some(x) = field_int(r.measurements, f) {
        assert(fits_i128(fixed_from_int(x)));
        let w = r.weight as int;
        assert(weight_total(s.drop_last(), f) == 0);
        assert(present_count(s.drop_last(), f) == 0);
        assert(weight_total(s, f) == w);
        assert(present_count(s, f) == 1);
        let rw = report_weight(w, w, 1);
        if w == 0 {
            lemma_fixed_div_by_int(fixed_from_int(1), 1);
            assert(trunc_div(fixed_from_int(1), 1) == k);
        } else {
            lemma_fixed_div_by_int(fixed_from_int(w), w);
            assert(fixed_from_int(w) == w * k);
            assert((w * k) / w == k) by (nonlinear_arith)
                requires
                    w > 0,
            ;
            assert(trunc_div(w * k, w) == k);
        }
        assert(rw == k);
        assert(collect_base(s, f) =~= seq![WeightedFloat { value: (x * k) as i128, weight: k as i128 }]);
    } else {
        assert(collect_base(s, f) =~= Seq::<WeightedFloat>::empty());
    }
}

/// The outlier-filtered weighted mean of a single measurement of the whole
/// weight is that measurement.
proof fn lemma_single_mean(v: i128)
    ensures
        field_mean(seq![WeightedFloat { value: v, weight: 1_000_000_000_000_000_000i128 }]) == Some(v),
{
    let k: int = 1_000_000_000_000_000_000;
    let w = WeightedFloat { value: v, weight: 1_000_000_000_000_000_000i128 };
    let ws = seq![w];
    let vs = values_of(ws);
    assert(vs =~= seq![v]);
    assert(vs.drop_last() =~= Seq::<i128>::empty());
    assert(crate::statistics::seq_sum(vs.drop_last()) == 0);
    assert(vs.last() == v);
    assert(crate::statistics::seq_sum(vs) == v);
    lemma_fixed_div_by_int(v as int, 1);
    assert(trunc_div(v as int, 1) == v);
    assert(crate::statistics::fixed_mean(vs) == v);
    assert(crate::statistics::fixed_variance(vs) == k);
    lemma_mul_div_one(0);
    assert(fixed_mul(0, 0) == 0);
    lemma_mul_div_one(0);
    assert(fixed_div(0, k) == 0) by {
        assert(0 * k == 0);
    }
    assert((crate::statistics::fixed_z_keep(vs))(w));
    let p = crate::statistics::fixed_z_keep(vs);
    Seq::<WeightedFloat>::empty().lemma_filter_push(w, p);
    assert(Seq::<WeightedFloat>::empty().push(w) =~= ws);
    assert(Seq::<WeightedFloat>::empty().filter(p) =~= Seq::<WeightedFloat>::empty()) by {
        reveal(Seq::filter);
    }
    assert(weighted_z_filter_spec(ws) =~= ws);
    assert(ws.drop_last() =~= Seq::<WeightedFloat>::empty());
    lemma_mul_div_one(v as int);
    assert(fixed_mul(v as int, k) == v);
    assert(weighted_sum(ws.drop_last()) == 0);
    assert(ws.last() == w);
    assert(weighted_sum(ws) == v);
}

/// Averaging a node's reports keeps each kind apart: from a single report,
/// each kind it holds comes back as that very measurement, in fixed point
/// (latency in whole milliseconds), and a kind it lacks stays without one.
pub proof fn law_single_report_averages_to_itself(r: WeightedReputationMeasurements)
    requires
        collect_fits(seq![r]),
    ensures
        r.measurements.latency matches Some(d) ==> normalized_of(seq![r]).latency == Some(
            ((d.nanos / NANOS_PER_MILLI) * 1_000_000_000_000_000_000) as i128,
        ),
        r.measurements.interactions matches Some(x) ==> normalized_of(seq![r]).interactions == Some(
            (x * 1_000_000_000_000_000_000) as i128,
        ),
        r.measurements.inbound_bandwidth matches Some(b) ==> normalized_of(seq![r]).inbound_bandwidth == Some(
            (b * 1_000_000_000_000_000_000) as i128,
        ),
        r.measurements.outbound_bandwidth matches Some(b) ==> normalized_of(seq![r]).outbound_bandwidth == Some(
            (b * 1_000_000_000_000_000_000) as i128,
        ),
        r.measurements.bytes_received matches Some(b) ==> normalized_of(seq![r]).bytes_received == Some(
            (b * 1_000_000_000_000_000_000) as i128,
        ),
        r.measurements.bytes_sent matches Some(b) ==> normalized_of(seq![r]).bytes_sent == Some(
            (b * 1_000_000_000_000_000_000) as i128,
        ),
        r.measurements.latency is None ==> normalized_of(seq![r]).latency is None,
        r.measurements.interactions is None ==> normalized_of(seq![r]).interactions is None,
        r.measurements.inbound_bandwidth is None ==> normalized_of(seq![r]).inbound_bandwidth is None,
        r.measurements.outbound_bandwidth is None ==> normalized_of(seq![r]).outbound_bandwidth is None,
        r.measurements.bytes_received is None ==> normalized_of(seq![r]).bytes_received is None,
        r.measurements.bytes_sent is None ==> normalized_of(seq![r]).bytes_sent is None,
{
    let s = seq![r];
    let k: int = 1_000_000_000_000_000_000;
    assert forall|f: Field| #[trigger] field_int(r.measurements, f) is Some implies field_mean(collect_base(s, f)) == Some(
        (field_int(r.measurements, f).unwrap() * k) as i128,
    ) by {
        lemma_single_collect(r, f);
        if let Some(x) = field_int(r.measurements, f) {
            lemma_single_mean((x * k) as i128);
        }
    }
    assert forall|f: Field| #[trigger] field_int(r.measurements, f) is None implies field_mean(collect_base(s, f)) is None by {
        lemma_single_collect(r, f);
        if field_int(r.measurements, f) is None {
            assert(collect_base(s, f) =~= Seq::<WeightedFloat>::empty());
        }
    }
    lemma_single_collect(r, Field::Latency);
    assert(collect_latency(s) == collect_base(s, Field::Latency));
    assert(field_int(r.measurements, Field::Latency) is Some || field_int(r.measurements, Field::Latency) is None);
    assert(field_int(r.measurements, Field::Interactions) is Some || field_int(r.measurements, Field::Interactions) is None);
    assert(field_int(r.measurements, Field::InboundBandwidth) is Some || field_int(r.measurements, Field::InboundBandwidth) is None);
    assert(field_int(r.measurements, Field::OutboundBandwidth) is Some || field_int(r.measurements, Field::OutboundBandwidth) is None);
    assert(field_int(r.measurements, Field::BytesReceived) is Some || field_int(r.measurements, Field::BytesReceived) is None);
    assert(field_int(r.measurements, Field::BytesSent) is Some || field_int(r.measurements, Field::BytesSent) is None);
}

/// The score is a mean over every kind with a value, each counted once: a
/// node whose kinds all score the same `v` (one minus the value for
/// latency, the value for the others) scores `v` as a whole percentage,
/// however many kinds it has.
pub proof fn law_score_is_a_mean(n: NormalizedMeasurements, v: int)
    requires
        0 <= v <= FIXED_ONE,
        exists|f: Field| #[trigger] norm_field(n, f) is Some,
        forall|f: Field| #[trigger] norm_field(n, f) matches Some(x) ==> (if f == Field::Latency {
            1_000_000_000_000_000_000 - x
        } else {
            x as int
        }) == v,
    ensures
        score_spec(n) == Some((v * 100 / 1_000_000_000_000_000_000) as u8),
{
    let k: int = 1_000_000_000_000_000_000;
    assert forall|f: Field| #[trigger] score_term(n, f) == present(n, f) * v by {
        if norm_field(n, f) is Some {
            assert(present(n, f) == 1);
        } else {
            assert(present(n, f) == 0);
        }
    }
    let c = score_count(n);
    let p1 = present(n, Field::Latency);
    let p2 = present(n, Field::Interactions);
    let p3 = present(n, Field::InboundBandwidth);
    let p4 = present(n, Field::OutboundBandwidth);
    let p5 = present(n, Field::BytesReceived);
    let p6 = present(n, Field::BytesSent);
    assert(score_term(n, Field::Latency) == p1 * v);
    assert(score_term(n, Field::Interactions) == p2 * v);
    assert(score_term(n, Field::InboundBandwidth) == p3 * v);
    assert(score_term(n, Field::OutboundBandwidth) == p4 * v);
    assert(score_term(n, Field::BytesReceived) == p5 * v);
    assert(score_term(n, Field::BytesSent) == p6 * v);
    assert(p1 * v + p2 * v + p3 * v + p4 * v + p5 * v + p6 * v == (p1 + p2 + p3 + p4 + p5 + p6) * v) by (nonlinear_arith);
    assert(score_sum(n) == c * v);
    let f0 = choose|f: Field| #[trigger] norm_field(n, f) is Some;
    assert(present(n, f0) == 1);
    assert(c >= 1) by {
        match f0 {
            Field::Latency => {},
            Field::Interactions => {},
            Field::InboundBandwidth => {},
            Field::OutboundBandwidth => {},
            Field::BytesReceived => {},
            Field::BytesSent => {},
        }
        assert(p1 >= 0 && p2 >= 0 && p3 >= 0 && p4 >= 0 && p5 >= 0 && p6 >= 0);
    }
    assert(c * v >= 0) by (nonlinear_arith)
        requires
            c >= 1,
            v >= 0,
    ;
    assert(fixed_from_int(c) == c * k);
    assert(c * k > 0) by (nonlinear_arith)
        requires
            c >= 1,
            k > 0,
    ;
    assert((c * v) * k == v * (c * k)) by (nonlinear_arith);
    assert(((c * v) * k) / (c * k) == v) by (nonlinear_arith)
        requires
            (c * v) * k == v * (c * k),
            c * k > 0,
            v >= 0,
    ;
    assert((c * v) * k >= 0) by (nonlinear_arith)
        requires
            c * v >= 0,
            k > 0,
    ;
    let mean = fixed_div(score_sum(n), fixed_from_int(c));
    assert(mean == v);
    assert(fixed_from_int(100) == 100 * k);
    assert(v * (100 * k) == (v * 100) * k) by (nonlinear_arith);
    lemma_mul_div_one(v * 100);
    assert(fixed_mul(mean, fixed_from_int(100)) == v * 100);
    assert(v * 100 >= 0 && v * 100 <= 100 * k) by (nonlinear_arith)
        requires
            0 <= v <= k,
    ;
    assert((v * 100) / k <= 100) by (nonlinear_arith)
        requires
            0 <= v * 100 <= 100 * k,
            k > 0,
    ;
}

/// Two runs of reports that agree, report by report, on the weight and on
/// measurement `f` collect the same measurements of kind `f`.
proof fn lemma_collect_depends_on_kind(
    s1: Seq<WeightedReputationMeasurements>,
    s2: Seq<WeightedReputationMeasurements>,
    f: Field,
    total: int,
    count: int,
)
    requires
        s1.len() == s2.len(),
        forall|i: int| 0 <= i < s1.len() ==> #[trigger] s1[i].weight == s2[i].weight,
        forall|i: int| 0 <= i < s1.len() ==> #[trigger] field_int(s1[i].measurements, f) == field_int(s2[i].measurements, f),
    ensures
        weight_total(s1, f) == weight_total(s2, f),
        present_count(s1, f) == present_count(s2, f),
        collect_with(s1, f, total, count) == collect_with(s2, f, total, count),
    decreases s1.len(),
{
    if s1.len() > 0 {
        let l = s1.len() - 1;
        assert(s1.last() == s1[l] && s2.last() == s2[l]);
        assert(s1[l].weight == s2[l].weight);
        assert(field_int(s1[l].measurements, f) == field_int(s2[l].measurements, f));
        assert forall|i: int| 0 <= i < l implies #[trigger] s1.drop_last()[i].weight == s2.drop_last()[i].weight by {
            assert(s1.drop_last()[i] == s1[i] && s2.drop_last()[i] == s2[i]);
        }
        assert forall|i: int| 0 <= i < l implies #[trigger] field_int(s1.drop_last()[i].measurements, f) == field_int(
            s2.drop_last()[i].measurements,
            f,
        ) by {
            assert(s1.drop_last()[i] == s1[i] && s2.drop_last()[i] == s2[i]);
        }
        lemma_collect_depends_on_kind(s1.drop_last(), s2.drop_last(), f, total, count);
    }
}

/// Averaging keeps the kinds apart: a node's averaged value of a kind
/// depends only on what its reports say of that kind, and on their weights.
/// Two runs of reports that agree on those average to the same value of
/// that kind, whatever the rest of each report holds.
pub proof fn law_average_of_a_kind_uses_that_kind(
    s1: Seq<WeightedReputationMeasurements>,
    s2: Seq<WeightedReputationMeasurements>,
    f: Field,
)
    requires
        s1.len() == s2.len(),
        forall|i: int| 0 <= i < s1.len() ==> #[trigger] s1[i].weight == s2[i].weight,
        forall|i: int| 0 <= i < s1.len() ==> #[trigger] field_int(s1[i].measurements, f) == field_int(s2[i].measurements, f),
    ensures
        norm_field(normalized_of(s1), f) == norm_field(normalized_of(s2), f),
{
    lemma_collect_depends_on_kind(s1, s2, f, 0, 0);
    lemma_collect_depends_on_kind(s1, s2, f, weight_total(s1, f), present_count(s1, f));
    assert(collect_base(s1, f) == collect_base(s2, f));
}

} // verus!
