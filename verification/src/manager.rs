//! The measurement manager: the current measurements of at most
//! `MAX_CAPACITY` peers, kept in a least-recently-used cache, together with
//! summary statistics that count, for each kind of measurement, how many of
//! those peers hold each value.
use vstd::prelude::*;
use lru::LruCache;
use std::num::NonZeroUsize;
use std::collections::BTreeMap;
use vstd::std_specs::cmp::OrdSpec;
use crate::measurements::{ReputationMeasurements, Duration, MeasurementStore, Weight, Interactions, Latency, BytesTransferred, Pings, Hops, NANOS_PER_MILLI, interactions_after, weight_value};
use crate::summary::{SummaryStatistics, lemma_remove_one_count, lemma_add_one_count, count_of, counts_positive, add_one, remove_one, add_opt, remove_opt, opt_key, is_min_key, is_max_key};

verus! {

/// The most peers whose measurements are kept.
pub const MAX_CAPACITY: usize = 200;

#[verifier::external_type_specification]
#[verifier::external_body]
#[verifier::reject_recursive_types(K)]
#[verifier::reject_recursive_types(V)]
#[verifier::reject_recursive_types(S)]
pub struct ExLruCache<K, V, S>(LruCache<K, V, S>);

#[verifier::external_type_specification]
#[verifier::external_body]
pub struct ExDefaultHasher(lru::DefaultHasher);

/// The entries of a cache, from the most recently used to the least.
pub uninterp spec fn lru_entries(c: LruCache<u32, MeasurementStore>) -> Seq<(u32, MeasurementStore)>;

/// The capacity a cache was made with.
pub uninterp spec fn lru_cap(c: LruCache<u32, MeasurementStore>) -> nat;

pub type Entries = Seq<(u32, MeasurementStore)>;

pub open spec fn has_key(s: Entries, k: u32) -> bool {
    exists|i: int| 0 <= i < s.len() && #[trigger] s[i].0 == k
}

pub open spec fn keys_distinct(s: Entries) -> bool {
    forall|i: int, j: int| 0 <= i < j < s.len() ==> #[trigger] s[i].0 != #[trigger] s[j].0
}

/// The position of key `k` in `s`.
pub open spec fn key_index(s: Entries, k: u32) -> int {
    choose|i: int| 0 <= i < s.len() && #[trigger] s[i].0 == k
}

/// `LruCache::new`: an empty cache holding at most `cap` entries.
#[verifier::external_body]
fn lru_new(cap: usize) -> (c: LruCache<u32, MeasurementStore>)
    requires
        cap > 0,
    ensures
        lru_entries(c) == Seq::<(u32, MeasurementStore)>::empty(),
        lru_cap(c) == cap,
{
    LruCache::new(NonZeroUsize::new(cap).unwrap())
}

/// `LruCache::contains`: whether `k` has an entry; the order is untouched.
#[verifier::external_body]
fn lru_contains(c: &LruCache<u32, MeasurementStore>, k: u32) -> (r: bool)
    ensures
        r == has_key(lru_entries(*c), k),
{
    c.contains(&k)
}

/// `LruCache::peek`: the value of `k`, if any; the order is untouched.
#[verifier::external_body]
fn lru_peek(c: &LruCache<u32, MeasurementStore>, k: u32) -> (r: Option<MeasurementStore>)
    ensures
        keys_distinct(lru_entries(*c)) ==> match r {
            Some(v) => has_key(lru_entries(*c), k) && v == lru_entries(*c)[key_index(
                lru_entries(*c),
                k,
            )].1,
            None => !has_key(lru_entries(*c), k),
        },
{
    c.peek(&k).copied()
}

/// `LruCache::push`: puts `(k, v)` first. An entry of `k` is replaced and
/// handed back; otherwise, in a full cache, the least recently used entry is
/// dropped and handed back.
#[verifier::external_body]
fn lru_push(c: &mut LruCache<u32, MeasurementStore>, k: u32, v: MeasurementStore) -> (r: Option<
    (u32, MeasurementStore),
>)
    requires
        keys_distinct(lru_entries(*old(c))),
        lru_entries(*old(c)).len() <= lru_cap(*old(c)),
    ensures
        lru_cap(*final(c)) == lru_cap(*old(c)),
        has_key(lru_entries(*old(c)), k) ==> {
            let i = key_index(lru_entries(*old(c)), k);
            &&& lru_entries(*final(c)) == seq![(k, v)] + lru_entries(*old(c)).remove(i)
            &&& r == Some(lru_entries(*old(c))[i])
        },
        !has_key(lru_entries(*old(c)), k) && lru_entries(*old(c)).len() == lru_cap(*old(c))
            ==> lru_entries(*final(c)) == seq![(k, v)] + lru_entries(*old(c)).drop_last() && r
            == Some(lru_entries(*old(c)).last()),
        !has_key(lru_entries(*old(c)), k) && lru_entries(*old(c)).len() < lru_cap(*old(c))
            ==> lru_entries(*final(c)) == seq![(k, v)] + lru_entries(*old(c)) && r is None,
{
    c.push(k, v)
}

/// `LruCache::clear`: drops every entry.
#[verifier::external_body]
fn lru_clear(c: &mut LruCache<u32, MeasurementStore>)
    ensures
        lru_entries(*final(c)) == Seq::<(u32, MeasurementStore)>::empty(),
        lru_cap(*final(c)) == lru_cap(*old(c)),
{
    c.clear();
}

/// `LruCache::iter`: the entries from the most recently used to the least,
/// copied out.
#[verifier::external_body]
fn lru_to_vec(c: &LruCache<u32, MeasurementStore>) -> (r: Vec<(u32, MeasurementStore)>)
    ensures
        r@ == lru_entries(*c),
{
    c.iter().map(|(k, v)| (*k, *v)).collect()
}

/// How many entries of `s` hold value `k` for the measurement that `f`
/// reads from a store.
pub open spec fn metric_count<K>(s: Entries, f: spec_fn(MeasurementStore) -> Option<K>, k: K) -> nat
    decreases s.len(),
{
    if s.len() == 0 {
        0
    } else {
        metric_count(s.drop_last(), f, k) + (if f(s.last().1) == Some(k) {
            1nat
        } else {
            0nat
        })
    }
}

pub open spec fn hit<K>(v: Option<K>, k: K) -> nat {
    if v == Some(k) {
        1
    } else {
        0
    }
}

proof fn lemma_count_prepend<K>(x: (u32, MeasurementStore), s: Entries, f: spec_fn(MeasurementStore) -> Option<K>, k: K)
    ensures
        metric_count(seq![x] + s, f, k) == hit(f(x.1), k) + metric_count(s, f, k),
    decreases s.len(),
{
    if s.len() == 0 {
        assert((seq![x] + s).drop_last() =~= Seq::<(u32, MeasurementStore)>::empty());
        assert((seq![x] + s).last() == x);
        assert(metric_count(Seq::<(u32, MeasurementStore)>::empty(), f, k) == 0);
        assert(metric_count(seq![x] + s, f, k) == metric_count((seq![x] + s).drop_last(), f, k)
            + hit(f(x.1), k));
    } else {
        lemma_count_prepend(x, s.drop_last(), f, k);
        assert((seq![x] + s).drop_last() =~= seq![x] + s.drop_last());
        assert((seq![x] + s).last() == s.last());
        assert(metric_count(seq![x] + s, f, k) == metric_count((seq![x] + s).drop_last(), f, k)
            + hit(f(s.last().1), k));
    }
}

proof fn lemma_count_remove<K>(s: Entries, i: int, f: spec_fn(MeasurementStore) -> Option<K>, k: K)
    requires
        0 <= i < s.len(),
    ensures
        metric_count(s, f, k) == metric_count(s.remove(i), f, k) + hit(f(s[i].1), k),
    decreases s.len(),
{
    if i == s.len() - 1 {
        assert(s.remove(i) =~= s.drop_last());
    } else {
        lemma_count_remove(s.drop_last(), i, f, k);
        assert(s.remove(i).drop_last() =~= s.drop_last().remove(i));
        assert(s.remove(i).last() == s.last());
    }
}

proof fn lemma_count_bound<K>(s: Entries, f: spec_fn(MeasurementStore) -> Option<K>, k: K)
    ensures
        metric_count(s, f, k) <= s.len(),
    decreases s.len(),
{
    if s.len() > 0 {
        lemma_count_bound(s.drop_last(), f, k);
    }
}

/// A count map holds, for every value, exactly the number of entries that
/// hold it.
pub open spec fn counts_exact<K>(m: Map<K, u32>, s: Entries, f: spec_fn(MeasurementStore) -> Option<K>) -> bool {
    &&& counts_positive(m)
    &&& forall|k: K| #[trigger] count_of(m, k) == metric_count(s, f, k)
}

/// A count map of byte totals holds exactly the number of entries holding
/// each non-zero total, and no more than the number holding zero: a peer
/// whose total was never reported is not counted.
pub open spec fn counts_nonzero_exact(m: Map<u128, u32>, s: Entries, f: spec_fn(MeasurementStore) -> Option<u128>) -> bool {
    &&& counts_positive(m)
    &&& forall|k: u128| k != 0 ==> #[trigger] count_of(m, k) == metric_count(s, f, k)
    &&& count_of(m, 0) <= metric_count(s, f, 0)
}

pub open spec fn latency_of(st: MeasurementStore) -> Option<u128> {
    opt_key(st.latency.value())
}

pub open spec fn interactions_of(st: MeasurementStore) -> Option<i64> {
    st.interactions.sum
}

pub open spec fn inbound_bandwidth_of(st: MeasurementStore) -> Option<u128> {
    st.inbound_bandwidth
}

pub open spec fn outbound_bandwidth_of(st: MeasurementStore) -> Option<u128> {
    st.outbound_bandwidth
}

pub open spec fn bytes_received_of(st: MeasurementStore) -> Option<u128> {
    Some(st.bytes_received.bytes)
}

pub open spec fn bytes_sent_of(st: MeasurementStore) -> Option<u128> {
    Some(st.bytes_sent.bytes)
}

pub open spec fn hops_of(st: MeasurementStore) -> Option<u8> {
    st.hops.hops
}

proof fn lemma_exact_remove<K>(m: Map<K, u32>, s: Entries, i: int, f: spec_fn(MeasurementStore) -> Option<K>)
    requires
        counts_exact(m, s, f),
        0 <= i < s.len(),
    ensures
        counts_exact(remove_opt(m, f(s[i].1)), s.remove(i), f),
{
    let m2 = remove_opt(m, f(s[i].1));
    if let Some(v) = f(s[i].1) {
        lemma_count_remove(s, i, f, v);
        lemma_remove_one_count(m, v, v);
    }
    assert forall|k: K| #[trigger] count_of(m2, k) == metric_count(s.remove(i), f, k) by {
        lemma_count_remove(s, i, f, k);
        if let Some(v) = f(s[i].1) {
            lemma_remove_one_count(m, v, k);
        }
    }
}

proof fn lemma_exact_add<K>(m: Map<K, u32>, s: Entries, x: (u32, MeasurementStore), f: spec_fn(MeasurementStore) -> Option<K>)
    requires
        counts_exact(m, s, f),
        s.len() < u32::MAX,
    ensures
        counts_exact(add_opt(m, f(x.1)), seq![x] + s, f),
        f(x.1) matches Some(v) ==> count_of(m, v) < u32::MAX,
{
    let m2 = add_opt(m, f(x.1));
    if let Some(v) = f(x.1) {
        lemma_count_bound(s, f, v);
        lemma_add_one_count(m, v, v);
    }
    assert forall|k: K| #[trigger] count_of(m2, k) == metric_count(seq![x] + s, f, k) by {
        lemma_count_prepend(x, s, f, k);
        if let Some(v) = f(x.1) {
            lemma_add_one_count(m, v, k);
        }
    }
}

proof fn lemma_nonzero_remove(m: Map<u128, u32>, s: Entries, i: int, f: spec_fn(MeasurementStore) -> Option<u128>)
    requires
        counts_nonzero_exact(m, s, f),
        0 <= i < s.len(),
        f(s[i].1) is Some,
    ensures
        counts_nonzero_exact(remove_opt(m, f(s[i].1)), s.remove(i), f),
{
    let m2 = remove_opt(m, f(s[i].1));
    let v = f(s[i].1).unwrap();
    lemma_count_remove(s, i, f, v);
    lemma_remove_one_count(m, v, v);
    assert forall|k: u128| k != 0 implies #[trigger] count_of(m2, k) == metric_count(s.remove(i), f, k) by {
        lemma_count_remove(s, i, f, k);
        lemma_remove_one_count(m, v, k);
    }
    lemma_count_remove(s, i, f, 0);
    lemma_remove_one_count(m, v, 0);
}

proof fn lemma_nonzero_add(m: Map<u128, u32>, s: Entries, x: (u32, MeasurementStore), f: spec_fn(MeasurementStore) -> Option<u128>)
    requires
        counts_nonzero_exact(m, s, f),
        s.len() < u32::MAX,
        f(x.1) is Some,
    ensures
        counts_nonzero_exact(add_opt(m, f(x.1)), seq![x] + s, f),
        count_of(m, f(x.1).unwrap()) < u32::MAX,
{
    let m2 = add_opt(m, f(x.1));
    let v = f(x.1).unwrap();
    lemma_count_bound(s, f, v);
    if v != 0 {
        assert(count_of(m, v) == metric_count(s, f, v));
    }
    lemma_add_one_count(m, v, v);
    assert forall|k: u128| k != 0 implies #[trigger] count_of(m2, k) == metric_count(seq![x] + s, f, k) by {
        lemma_count_prepend(x, s, f, k);
        lemma_add_one_count(m, v, k);
    }
    lemma_count_prepend(x, s, f, 0);
    lemma_add_one_count(m, v, 0);
}

/// A fresh entry holds a byte total of zero, which is not counted.
proof fn lemma_nonzero_fresh(m: Map<u128, u32>, s: Entries, x: (u32, MeasurementStore), f: spec_fn(MeasurementStore) -> Option<u128>)
    requires
        counts_nonzero_exact(m, s, f),
        f(x.1) == Some(0u128),
    ensures
        counts_nonzero_exact(m, seq![x] + s, f),
{
    assert forall|k: u128| k != 0 implies #[trigger] count_of(m, k) == metric_count(seq![x] + s, f, k) by {
        lemma_count_prepend(x, s, f, k);
    }
    lemma_count_prepend(x, s, f, 0);
}

/// One step of a count map while an entry's store is replaced: either the
/// measurement is unchanged and so is the map, or the old value was uncounted
/// and the new one counted.
pub open spec fn metric_step<K>(m1: Map<K, u32>, m2: Map<K, u32>, old_v: Option<K>, new_v: Option<K>) -> bool {
    ||| (m2 == m1 && new_v == old_v)
    ||| m2 == add_opt(remove_opt(m1, old_v), new_v)
}

proof fn lemma_exact_move<K>(m: Map<K, u32>, s: Entries, i: int, x: (u32, MeasurementStore), f: spec_fn(MeasurementStore) -> Option<K>)
    requires
        counts_exact(m, s, f),
        0 <= i < s.len(),
        f(x.1) == f(s[i].1),
    ensures
        counts_exact(m, seq![x] + s.remove(i), f),
{
    assert forall|k: K| #[trigger] count_of(m, k) == metric_count(seq![x] + s.remove(i), f, k) by {
        lemma_count_remove(s, i, f, k);
        lemma_count_prepend(x, s.remove(i), f, k);
    }
}

proof fn lemma_exact_can_add<K>(m: Map<K, u32>, s: Entries, f: spec_fn(MeasurementStore) -> Option<K>, old_v: Option<K>, new_v: Option<K>)
    requires
        counts_exact(m, s, f),
        s.len() <= MAX_CAPACITY,
    ensures
        new_v matches Some(v) ==> count_of(remove_opt(m, old_v), v) < u32::MAX,
{
    if let Some(v) = new_v {
        lemma_count_bound(s, f, v);
        if let Some(o) = old_v {
            lemma_remove_one_count(m, o, v);
        }
    }
}

proof fn lemma_exact_step<K>(m1: Map<K, u32>, m2: Map<K, u32>, s: Entries, i: int, st2: MeasurementStore, f: spec_fn(MeasurementStore) -> Option<K>)
    requires
        counts_exact(m1, s, f),
        0 <= i < s.len(),
        s.len() <= MAX_CAPACITY,
        metric_step(m1, m2, f(s[i].1), f(st2)),
    ensures
        counts_exact(m2, seq![(s[i].0, st2)] + s.remove(i), f),
{
    if m2 == m1 && f(st2) == f(s[i].1) {
        lemma_exact_move(m1, s, i, (s[i].0, st2), f);
    } else {
        lemma_exact_remove(m1, s, i, f);
        lemma_exact_add(remove_opt(m1, f(s[i].1)), s.remove(i), (s[i].0, st2), f);
    }
}

proof fn lemma_nonzero_move(m: Map<u128, u32>, s: Entries, i: int, x: (u32, MeasurementStore), f: spec_fn(MeasurementStore) -> Option<u128>)
    requires
        counts_nonzero_exact(m, s, f),
        0 <= i < s.len(),
        f(x.1) == f(s[i].1),
    ensures
        counts_nonzero_exact(m, seq![x] + s.remove(i), f),
{
    assert forall|k: u128| k != 0 implies #[trigger] count_of(m, k) == metric_count(seq![x] + s.remove(i), f, k) by {
        lemma_count_remove(s, i, f, k);
        lemma_count_prepend(x, s.remove(i), f, k);
    }
    lemma_count_remove(s, i, f, 0);
    lemma_count_prepend(x, s.remove(i), f, 0);
}

proof fn lemma_nonzero_can_add(m: Map<u128, u32>, s: Entries, f: spec_fn(MeasurementStore) -> Option<u128>, old_v: u128, new_v: u128)
    requires
        counts_nonzero_exact(m, s, f),
        s.len() <= MAX_CAPACITY,
    ensures
        count_of(remove_one(m, old_v), new_v) < u32::MAX,
{
    lemma_count_bound(s, f, new_v);
    lemma_remove_one_count(m, old_v, new_v);
}

proof fn lemma_nonzero_step(m1: Map<u128, u32>, m2: Map<u128, u32>, s: Entries, i: int, st2: MeasurementStore, f: spec_fn(MeasurementStore) -> Option<u128>)
    requires
        counts_nonzero_exact(m1, s, f),
        0 <= i < s.len(),
        s.len() <= MAX_CAPACITY,
        f(s[i].1) is Some,
        f(st2) is Some,
        metric_step(m1, m2, f(s[i].1), f(st2)),
    ensures
        counts_nonzero_exact(m2, seq![(s[i].0, st2)] + s.remove(i), f),
{
    if m2 == m1 && f(st2) == f(s[i].1) {
        lemma_nonzero_move(m1, s, i, (s[i].0, st2), f);
    } else {
        lemma_nonzero_remove(m1, s, i, f);
        lemma_nonzero_add(remove_opt(m1, f(s[i].1)), s.remove(i), (s[i].0, st2), f);
    }
}

/// The summary statistics count the current measurements of the entries.
pub open spec fn summary_matches(ss: SummaryStatistics, s: Entries) -> bool {
    &&& counts_exact(ss.latency@, s, |st: MeasurementStore| latency_of(st))
    &&& counts_exact(ss.interactions@, s, |st: MeasurementStore| interactions_of(st))
    &&& counts_exact(ss.inbound_bandwidth@, s, |st: MeasurementStore| inbound_bandwidth_of(st))
    &&& counts_exact(ss.outbound_bandwidth@, s, |st: MeasurementStore| outbound_bandwidth_of(st))
    &&& counts_nonzero_exact(ss.bytes_received@, s, |st: MeasurementStore| bytes_received_of(st))
    &&& counts_nonzero_exact(ss.bytes_sent@, s, |st: MeasurementStore| bytes_sent_of(st))
    &&& counts_exact(ss.hops@, s, |st: MeasurementStore| hops_of(st))
}


/// Replacing the store of entry `i` by `st2` and moving it first keeps the
/// summary statistics exact when each count map takes the matching step.
proof fn lemma_summary_step(ss1: SummaryStatistics, ss2: SummaryStatistics, s: Entries, i: int, st2: MeasurementStore)
    requires
        summary_matches(ss1, s),
        0 <= i < s.len(),
        s.len() <= MAX_CAPACITY,
        metric_step(ss1.latency@, ss2.latency@, latency_of(s[i].1), latency_of(st2)),
        metric_step(ss1.interactions@, ss2.interactions@, interactions_of(s[i].1), interactions_of(st2)),
        metric_step(ss1.inbound_bandwidth@, ss2.inbound_bandwidth@, inbound_bandwidth_of(s[i].1), inbound_bandwidth_of(st2)),
        metric_step(ss1.outbound_bandwidth@, ss2.outbound_bandwidth@, outbound_bandwidth_of(s[i].1), outbound_bandwidth_of(st2)),
        metric_step(ss1.bytes_received@, ss2.bytes_received@, bytes_received_of(s[i].1), bytes_received_of(st2)),
        metric_step(ss1.bytes_sent@, ss2.bytes_sent@, bytes_sent_of(s[i].1), bytes_sent_of(st2)),
        metric_step(ss1.hops@, ss2.hops@, hops_of(s[i].1), hops_of(st2)),
    ensures
        summary_matches(ss2, seq![(s[i].0, st2)] + s.remove(i)),
{
    lemma_exact_step(ss1.latency@, ss2.latency@, s, i, st2, |st: MeasurementStore| latency_of(st));
    lemma_exact_step(ss1.interactions@, ss2.interactions@, s, i, st2, |st: MeasurementStore| interactions_of(st));
    lemma_exact_step(ss1.inbound_bandwidth@, ss2.inbound_bandwidth@, s, i, st2, |st: MeasurementStore| inbound_bandwidth_of(st));
    lemma_exact_step(ss1.outbound_bandwidth@, ss2.outbound_bandwidth@, s, i, st2, |st: MeasurementStore| outbound_bandwidth_of(st));
    lemma_nonzero_step(ss1.bytes_received@, ss2.bytes_received@, s, i, st2, |st: MeasurementStore| bytes_received_of(st));
    lemma_nonzero_step(ss1.bytes_sent@, ss2.bytes_sent@, s, i, st2, |st: MeasurementStore| bytes_sent_of(st));
    lemma_exact_step(ss1.hops@, ss2.hops@, s, i, st2, |st: MeasurementStore| hops_of(st));
}

/// A fresh, empty store put first adds nothing to the summary statistics.
proof fn lemma_summary_fresh(ss: SummaryStatistics, s: Entries, peer: u32)
    requires
        summary_matches(ss, s),
        s.len() < MAX_CAPACITY,
    ensures
        summary_matches(ss, seq![(peer, MeasurementStore::empty())] + s),
{
    let x = (peer, MeasurementStore::empty());
    lemma_exact_add(ss.latency@, s, x, |st: MeasurementStore| latency_of(st));
    lemma_exact_add(ss.interactions@, s, x, |st: MeasurementStore| interactions_of(st));
    lemma_exact_add(ss.inbound_bandwidth@, s, x, |st: MeasurementStore| inbound_bandwidth_of(st));
    lemma_exact_add(ss.outbound_bandwidth@, s, x, |st: MeasurementStore| outbound_bandwidth_of(st));
    lemma_nonzero_fresh(ss.bytes_received@, s, x, |st: MeasurementStore| bytes_received_of(st));
    lemma_nonzero_fresh(ss.bytes_sent@, s, x, |st: MeasurementStore| bytes_sent_of(st));
    lemma_exact_add(ss.hops@, s, x, |st: MeasurementStore| hops_of(st));
}

/// Dropping the last entry, uncounting its store, and putting a fresh store
/// first keeps the summary statistics exact.
proof fn lemma_summary_evict(ss1: SummaryStatistics, ss2: SummaryStatistics, s: Entries, peer: u32)
    requires
        summary_matches(ss1, s),
        1 <= s.len() <= MAX_CAPACITY,
        ss2.latency@ == remove_opt(ss1.latency@, latency_of(s.last().1)),
        ss2.interactions@ == remove_opt(ss1.interactions@, interactions_of(s.last().1)),
        ss2.inbound_bandwidth@ == remove_opt(ss1.inbound_bandwidth@, inbound_bandwidth_of(s.last().1)),
        ss2.outbound_bandwidth@ == remove_opt(ss1.outbound_bandwidth@, outbound_bandwidth_of(s.last().1)),
        ss2.bytes_received@ == remove_opt(ss1.bytes_received@, bytes_received_of(s.last().1)),
        ss2.bytes_sent@ == remove_opt(ss1.bytes_sent@, bytes_sent_of(s.last().1)),
        ss2.hops@ == remove_opt(ss1.hops@, hops_of(s.last().1)),
    ensures
        summary_matches(ss2, seq![(peer, MeasurementStore::empty())] + s.drop_last()),
{
    let x = (peer, MeasurementStore::empty());
    assert(s.remove(s.len() - 1) =~= s.drop_last());
    lemma_exact_remove(ss1.latency@, s, s.len() - 1, |st: MeasurementStore| latency_of(st));
    lemma_exact_add(ss2.latency@, s.drop_last(), x, |st: MeasurementStore| latency_of(st));
    lemma_exact_remove(ss1.interactions@, s, s.len() - 1, |st: MeasurementStore| interactions_of(st));
    lemma_exact_add(ss2.interactions@, s.drop_last(), x, |st: MeasurementStore| interactions_of(st));
    lemma_exact_remove(ss1.inbound_bandwidth@, s, s.len() - 1, |st: MeasurementStore| inbound_bandwidth_of(st));
    lemma_exact_add(ss2.inbound_bandwidth@, s.drop_last(), x, |st: MeasurementStore| inbound_bandwidth_of(st));
    lemma_exact_remove(ss1.outbound_bandwidth@, s, s.len() - 1, |st: MeasurementStore| outbound_bandwidth_of(st));
    lemma_exact_add(ss2.outbound_bandwidth@, s.drop_last(), x, |st: MeasurementStore| outbound_bandwidth_of(st));
    lemma_nonzero_remove(ss1.bytes_received@, s, s.len() - 1, |st: MeasurementStore| bytes_received_of(st));
    lemma_nonzero_fresh(ss2.bytes_received@, s.drop_last(), x, |st: MeasurementStore| bytes_received_of(st));
    lemma_nonzero_remove(ss1.bytes_sent@, s, s.len() - 1, |st: MeasurementStore| bytes_sent_of(st));
    lemma_nonzero_fresh(ss2.bytes_sent@, s.drop_last(), x, |st: MeasurementStore| bytes_sent_of(st));
    lemma_exact_remove(ss1.hops@, s, s.len() - 1, |st: MeasurementStore| hops_of(st));
    lemma_exact_add(ss2.hops@, s.drop_last(), x, |st: MeasurementStore| hops_of(st));
}


/// At most `MAX_CAPACITY` entries, one per peer, each well formed.
pub open spec fn entries_wf(s: Entries) -> bool {
    &&& s.len() <= MAX_CAPACITY
    &&& keys_distinct(s)
    &&& forall|i: int| 0 <= i < s.len() ==> (#[trigger] s[i]).1.wf()
}

/// The store of `peer`, or an empty one when it has none.
pub open spec fn store_of(s: Entries, peer: u32) -> MeasurementStore {
    if has_key(s, peer) {
        s[key_index(s, peer)].1
    } else {
        MeasurementStore::empty()
    }
}

/// The entries once `peer` has one: unchanged when it had one; otherwise an
/// empty store is put first and, in a full cache, the least recently used
/// entry is dropped.
pub open spec fn with_peer(s: Entries, peer: u32) -> Entries {
    if has_key(s, peer) {
        s
    } else if s.len() == MAX_CAPACITY {
        seq![(peer, MeasurementStore::empty())] + s.drop_last()
    } else {
        seq![(peer, MeasurementStore::empty())] + s
    }
}

/// A latency after one more sample: samples under a millisecond are ignored.
pub open spec fn registered_latency(l: Latency, latency: Duration) -> Latency {
    if latency.nanos / NANOS_PER_MILLI > 0 {
        Latency { sum: Duration { nanos: (l.sum.nanos + latency.nanos) as u128 }, count: (l.count + 1) as u32 }
    } else {
        l
    }
}

/// The peer whose entry is dropped to make room for `peer`, if any.
pub open spec fn evicted_peer(s: Entries, peer: u32) -> Option<u32> {
    if !has_key(s, peer) && s.len() == MAX_CAPACITY {
        Some(s.last().0)
    } else {
        None
    }
}

/// The entries after `peer`'s store becomes `st`; the entry of `peer` becomes
/// the most recently used.
pub open spec fn after_update(s: Entries, peer: u32, st: MeasurementStore) -> Entries {
    let s1 = with_peer(s, peer);
    seq![(peer, st)] + s1.remove(key_index(s1, peer))
}

proof fn lemma_key_index(s: Entries, i: int)
    requires
        keys_distinct(s),
        0 <= i < s.len(),
    ensures
        has_key(s, s[i].0),
        key_index(s, s[i].0) == i,
{
    assert(has_key(s, s[i].0));
}

proof fn lemma_with_peer(s: Entries, peer: u32)
    requires
        entries_wf(s),
    ensures
        entries_wf(with_peer(s, peer)),
        has_key(with_peer(s, peer), peer),
        with_peer(s, peer)[key_index(with_peer(s, peer), peer)].1 == store_of(s, peer),
        with_peer(s, peer)[key_index(with_peer(s, peer), peer)].0 == peer,
{
    let s1 = with_peer(s, peer);
    if has_key(s, peer) {
        let i = key_index(s, peer);
        lemma_key_index(s, i);
    } else {
        let x = (peer, MeasurementStore::empty());
        let rest = if s.len() == MAX_CAPACITY { s.drop_last() } else { s };
        assert(s1 =~= seq![x] + rest);
        assert forall|i: int, j: int| 0 <= i < j < s1.len() implies #[trigger] s1[i].0 != #[trigger] s1[j].0 by {
            if i == 0 {
                assert(s1[j] == rest[j - 1]);
                assert(s[j - 1] == rest[j - 1]);
            } else {
                assert(s1[i] == s[i - 1]);
                assert(s1[j] == s[j - 1]);
            }
        }
        assert forall|i: int| 0 <= i < s1.len() implies (#[trigger] s1[i]).1.wf() by {
            if i > 0 {
                assert(s1[i] == s[i - 1]);
            }
        }
        lemma_key_index(s1, 0);
    }
}

proof fn lemma_put_first(s: Entries, i: int, st: MeasurementStore)
    requires
        entries_wf(s),
        0 <= i < s.len(),
        st.wf(),
    ensures
        entries_wf(seq![(s[i].0, st)] + s.remove(i)),
{
    let s2 = seq![(s[i].0, st)] + s.remove(i);
    let r = s.remove(i);
    assert forall|a: int, b: int| 0 <= a < b < s2.len() implies #[trigger] s2[a].0 != #[trigger] s2[b].0 by {
        let ib = if b - 1 < i { b - 1 } else { b };
        assert(s2[b] == s[ib]);
        if a == 0 {
            assert(ib != i);
        } else {
            let ia = if a - 1 < i { a - 1 } else { a };
            assert(s2[a] == s[ia]);
        }
    }
    assert forall|a: int| 0 <= a < s2.len() implies (#[trigger] s2[a]).1.wf() by {
        if a > 0 {
            let ia = if a - 1 < i { a - 1 } else { a };
            assert(s2[a] == s[ia]);
        }
    }
}


/// A measurement with the smallest and largest value of that measurement
/// held by any peer: the bounds it is normalised against.
#[derive(Debug)]
pub struct Bounded<T> {
    pub value: T,
    pub min: T,
    pub max: T,
}

/// What a peer's reputation score is computed from.
#[derive(Debug)]
pub struct ScoreInputs {
    pub latency: Option<Bounded<Duration>>,
    pub interactions: Option<Bounded<i64>>,
    pub inbound_bandwidth: Option<Bounded<u128>>,
    pub outbound_bandwidth: Option<Bounded<u128>>,
    pub bytes_received: Option<Bounded<u128>>,
    pub bytes_sent: Option<Bounded<u128>>,
    pub uptime: Option<Pings>,
}

proof fn lemma_count_pos_exists<K>(s: Entries, f: spec_fn(MeasurementStore) -> Option<K>, k: K)
    requires
        metric_count(s, f, k) > 0,
    ensures
        exists|i: int| 0 <= i < s.len() && f((#[trigger] s[i]).1) == Some(k),
    decreases s.len(),
{
    if f(s.last().1) == Some(k) {
        assert(f(s[s.len() - 1].1) == Some(k));
    } else {
        lemma_count_pos_exists(s.drop_last(), f, k);
        let i = choose|i: int| 0 <= i < s.drop_last().len() && f((#[trigger] s.drop_last()[i]).1) == Some(k);
        assert(s[i] == s.drop_last()[i]);
    }
}

proof fn lemma_held_counted<K>(s: Entries, f: spec_fn(MeasurementStore) -> Option<K>, i: int, v: K)
    requires
        0 <= i < s.len(),
        f(s[i].1) == Some(v),
    ensures
        metric_count(s, f, v) >= 1,
{
    lemma_count_remove(s, i, f, v);
}

/// In an exact count map, the smallest and largest keys are values that
/// entries hold, and they bound every value held.
proof fn lemma_exact_bounds<K: Ord>(m: Map<K, u32>, s: Entries, f: spec_fn(MeasurementStore) -> Option<K>, lo: K, hi: K)
    requires
        counts_exact(m, s, f),
        is_min_key(m, lo),
        is_max_key(m, hi),
    ensures
        exists|i: int| 0 <= i < s.len() && f((#[trigger] s[i]).1) == Some(lo),
        exists|i: int| 0 <= i < s.len() && f((#[trigger] s[i]).1) == Some(hi),
        forall|i: int|
            0 <= i < s.len() && f((#[trigger] s[i]).1) is Some ==> !(lo.cmp_spec(&f(s[i].1).unwrap()) is Greater)
                && !(hi.cmp_spec(&f(s[i].1).unwrap()) is Less),
{
    assert(count_of(m, lo) == metric_count(s, f, lo));
    assert(count_of(m, hi) == metric_count(s, f, hi));
    lemma_count_pos_exists(s, f, lo);
    lemma_count_pos_exists(s, f, hi);
    assert forall|i: int| 0 <= i < s.len() && f((#[trigger] s[i]).1) is Some implies !(lo.cmp_spec(&f(s[i].1).unwrap()) is Greater)
        && !(hi.cmp_spec(&f(s[i].1).unwrap()) is Less) by {
        let v = f(s[i].1).unwrap();
        lemma_held_counted(s, f, i, v);
        assert(count_of(m, v) == metric_count(s, f, v));
        assert(m.contains_key(v));
    }
}

/// An exact count map is empty exactly when no entry holds a value.
proof fn lemma_exact_empty<K>(m: Map<K, u32>, s: Entries, f: spec_fn(MeasurementStore) -> Option<K>)
    requires
        counts_exact(m, s, f),
    ensures
        m.dom().is_empty() <==> forall|i: int| 0 <= i < s.len() ==> f((#[trigger] s[i]).1) is None,
{
    if !m.dom().is_empty() {
        let k = m.dom().choose();
        assert(m.contains_key(k));
        assert(count_of(m, k) == metric_count(s, f, k));
        lemma_count_pos_exists(s, f, k);
    }
    if exists|i: int| 0 <= i < s.len() && f((#[trigger] s[i]).1) is Some {
        let i = choose|i: int| 0 <= i < s.len() && f((#[trigger] s[i]).1) is Some;
        let v = f(s[i].1).unwrap();
        lemma_held_counted(s, f, i, v);
        assert(count_of(m, v) == metric_count(s, f, v));
        assert(m.contains_key(v));
    }
}

/// In a count map of byte totals, the smallest and largest keys are totals
/// that entries hold; the largest bounds every total and the smallest every
/// non-zero total.
proof fn lemma_nonzero_bounds(m: Map<u128, u32>, s: Entries, f: spec_fn(MeasurementStore) -> Option<u128>, lo: u128, hi: u128)
    requires
        counts_nonzero_exact(m, s, f),
        is_min_key(m, lo),
        is_max_key(m, hi),
    ensures
        exists|i: int| 0 <= i < s.len() && f((#[trigger] s[i]).1) == Some(lo),
        exists|i: int| 0 <= i < s.len() && f((#[trigger] s[i]).1) == Some(hi),
        forall|i: int|
            0 <= i < s.len() && f((#[trigger] s[i]).1) is Some ==> (f(s[i].1).unwrap() != 0 ==> lo <= f(s[i].1).unwrap())
                && f(s[i].1).unwrap() <= hi,
{
    assert(count_of(m, lo) <= metric_count(s, f, lo));
    assert(count_of(m, hi) <= metric_count(s, f, hi));
    lemma_count_pos_exists(s, f, lo);
    lemma_count_pos_exists(s, f, hi);
    assert forall|i: int| 0 <= i < s.len() && f((#[trigger] s[i]).1) is Some implies (f(s[i].1).unwrap() != 0
        ==> lo <= f(s[i].1).unwrap()) && f(s[i].1).unwrap() <= hi by {
        let v = f(s[i].1).unwrap();
        if v != 0 {
            lemma_held_counted(s, f, i, v);
            assert(count_of(m, v) == metric_count(s, f, v));
            assert(m.contains_key(v));
        }
    }
}

/// Manages the measurements for all the peers.
pub struct MeasurementManager {
    peers: LruCache<u32, MeasurementStore>,
    summary_stats: SummaryStatistics,
}

impl MeasurementManager {
    /// The peers and their measurements, from the most recently reported to
    /// the least.
    pub closed spec fn entries(&self) -> Entries {
        lru_entries(self.peers)
    }

    /// The summary statistics over the current measurements.
    pub closed spec fn summary(&self) -> SummaryStatistics {
        self.summary_stats
    }

    pub closed spec fn inv(&self) -> bool {
        &&& lru_cap(self.peers) == MAX_CAPACITY
        &&& entries_wf(self.entries())
        &&& self.summary_stats.wf()
        &&& summary_matches(self.summary_stats, self.entries())
    }

    pub fn new() -> (m: MeasurementManager)
        ensures
            m.inv(),
            m.entries() == Seq::<(u32, MeasurementStore)>::empty(),
    {
        let m = MeasurementManager { peers: lru_new(MAX_CAPACITY), summary_stats: SummaryStatistics::new() };
        proof {
            assert(summary_matches(m.summary_stats, m.entries()));
        }
        m
    }

    /// Forgets every peer and every count.
    pub fn clear_measurements(&mut self)
        requires
            old(self).inv(),
        ensures
            final(self).inv(),
            final(self).entries() == Seq::<(u32, MeasurementStore)>::empty(),
    {
        lru_clear(&mut self.peers);
        self.summary_stats.clear();
        proof {
            assert(summary_matches(self.summary_stats, self.entries()));
        }
    }

    /// The summary statistics over the current measurements.
    pub fn summary_stats(&self) -> (r: &SummaryStatistics)
        ensures
            *r == self.summary(),
    {
        &self.summary_stats
    }

    /// Makes sure `peer` has an entry; returns the peer whose entry was
    /// dropped to make room, if any.
    fn insert_if_not_exists(&mut self, peer: u32) -> (r: Option<u32>)
        requires
            old(self).inv(),
        ensures
            final(self).inv(),
            final(self).entries() == with_peer(old(self).entries(), peer),
            r == evicted_peer(old(self).entries(), peer),
    {
        let ghost s = self.entries();
        let ghost ss1 = self.summary_stats;
        if !lru_contains(&self.peers, peer) {
            let pushed = lru_push(&mut self.peers, peer, MeasurementStore::new());
            if let Some((k, st)) = pushed {
                self.summary_stats.remove(st);
                proof {
                    lemma_summary_evict(ss1, self.summary_stats, s, peer);
                    lemma_with_peer(s, peer);
                }
                return Some(k);
            }
            proof {
                lemma_summary_fresh(ss1, s, peer);
                lemma_with_peer(s, peer);
            }
        }
        None
    }
    fn report_interaction(&mut self, peer: u32, sat: bool, weight: Weight) -> (r: Option<u32>)
        requires
            old(self).inv(),
            store_of(old(self).entries(), peer).interactions.can_register(sat, weight),
        ensures
            final(self).inv(),
            final(self).entries() == after_update(
                old(self).entries(),
                peer,
                MeasurementStore {
                    interactions: Interactions {
                        sum: Some(
                            interactions_after(
                                store_of(old(self).entries(), peer).interactions.sum,
                                sat,
                                weight,
                            ) as i64,
                        ),
                    },
                    ..store_of(old(self).entries(), peer)
                },
            ),
            r == evicted_peer(old(self).entries(), peer),
    {
        let ghost s0 = self.entries();
        let evicted = self.insert_if_not_exists(peer);
        let ghost s1 = self.entries();
        proof {
            lemma_with_peer(s0, peer);
        }
        let ghost i = key_index(s1, peer);
        let mut st = match lru_peek(&self.peers, peer) {
            Some(st) => st,
            None => { return evicted; },
        };
        let (old_val, new_val) = st.register_interaction(sat, weight);
        let ghost ss1 = self.summary_stats;
        let _ = lru_push(&mut self.peers, peer, st);
        proof {
            lemma_exact_can_add(ss1.interactions@, s1, |x: MeasurementStore| interactions_of(x), old_val, new_val);
        }
        self.summary_stats.remove_interactions(old_val);
        self.summary_stats.add_interactions(new_val);
        proof {
            lemma_summary_step(ss1, self.summary_stats, s1, i, st);
            lemma_put_first(s1, i, st);
        }
        evicted
    }

    /// The measurements held for `peer`: those a report of it updates, an
    /// empty store when it has no entry. Callers check with it that a report
    /// will not overflow.
    pub fn store(&self, peer: u32) -> (r: MeasurementStore)
        requires
            self.inv(),
        ensures
            r == store_of(self.entries(), peer),
    {
        match lru_peek(&self.peers, peer) {
            Some(st) => st,
            None => MeasurementStore::new(),
        }
    }

    /// Records a satisfactory interaction with `peer`; returns the peer whose
    /// entry was dropped to make room, if any.
    pub fn report_sat(&mut self, peer: u32, weight: Weight) -> (r: Option<u32>)
        requires
            old(self).inv(),
            store_of(old(self).entries(), peer).interactions.can_register(true, weight),
        ensures
            final(self).inv(),
            final(self).entries() == after_update(
                old(self).entries(),
                peer,
                MeasurementStore {
                    interactions: Interactions {
                        sum: Some(
                            interactions_after(
                                store_of(old(self).entries(), peer).interactions.sum,
                                true,
                                weight,
                            ) as i64,
                        ),
                    },
                    ..store_of(old(self).entries(), peer)
                },
            ),
            r == evicted_peer(old(self).entries(), peer),
    {
        self.report_interaction(peer, true, weight)
    }

    /// Records an unsatisfactory interaction with `peer`; returns the peer
    /// whose entry was dropped to make room, if any.
    pub fn report_unsat(&mut self, peer: u32, weight: Weight) -> (r: Option<u32>)
        requires
            old(self).inv(),
            store_of(old(self).entries(), peer).interactions.can_register(false, weight),
        ensures
            final(self).inv(),
            final(self).entries() == after_update(
                old(self).entries(),
                peer,
                MeasurementStore {
                    interactions: Interactions {
                        sum: Some(
                            interactions_after(
                                store_of(old(self).entries(), peer).interactions.sum,
                                false,
                                weight,
                            ) as i64,
                        ),
                    },
                    ..store_of(old(self).entries(), peer)
                },
            ),
            r == evicted_peer(old(self).entries(), peer),
    {
        self.report_interaction(peer, false, weight)
    }
    /// Records a latency sample for `peer` (samples under a millisecond are
    /// ignored); returns the peer whose entry was dropped to make room, if any.
    pub fn report_latency(&mut self, peer: u32, latency: Duration) -> (r: Option<u32>)
        requires
            old(self).inv(),
            store_of(old(self).entries(), peer).latency.can_register(latency),
        ensures
            final(self).inv(),
            final(self).entries() == after_update(
                old(self).entries(),
                peer,
                MeasurementStore {
                    latency: registered_latency(store_of(old(self).entries(), peer).latency, latency),
                    ..store_of(old(self).entries(), peer)
                },
            ),
            r == evicted_peer(old(self).entries(), peer),
    {
        let ghost s0 = self.entries();
        let evicted = self.insert_if_not_exists(peer);
        let ghost s1 = self.entries();
        proof {
            lemma_with_peer(s0, peer);
        }
        let ghost i = key_index(s1, peer);
        let mut st = match lru_peek(&self.peers, peer) {
            Some(st) => st,
            None => { return evicted; },
        };
        let (old_val, new_val) = st.register_latency(latency);
        let ghost ss1 = self.summary_stats;
        let _ = lru_push(&mut self.peers, peer, st);
        proof {
            lemma_exact_can_add(ss1.latency@, s1, |x: MeasurementStore| latency_of(x), opt_key(old_val), opt_key(new_val));
        }
        self.summary_stats.remove_latency(old_val);
        self.summary_stats.add_latency(new_val);
        proof {
            lemma_summary_step(ss1, self.summary_stats, s1, i, st);
            lemma_put_first(s1, i, st);
        }
        evicted
    }

    /// Records `bytes` received from `peer` and, when the transfer was timed,
    /// the peer's new mean outbound bandwidth; returns the peer whose entry was
    /// dropped to make room, if any.
    pub fn report_bytes_received(&mut self, peer: u32, bytes: u64, outbound_bandwidth: Option<u128>) -> (r: Option<u32>)
        requires
            old(self).inv(),
            store_of(old(self).entries(), peer).bytes_received.bytes + bytes <= u128::MAX,
        ensures
            final(self).inv(),
            final(self).entries() == after_update(
                old(self).entries(),
                peer,
                MeasurementStore {
                    bytes_received: BytesTransferred {
                        bytes: (store_of(old(self).entries(), peer).bytes_received.bytes + bytes) as u128,
                    },
                    outbound_bandwidth: match outbound_bandwidth {
                        Some(b) => Some(b),
                        None => store_of(old(self).entries(), peer).outbound_bandwidth,
                    },
                    ..store_of(old(self).entries(), peer)
                },
            ),
            r == evicted_peer(old(self).entries(), peer),
    {
        let ghost s0 = self.entries();
        let evicted = self.insert_if_not_exists(peer);
        let ghost s1 = self.entries();
        proof {
            lemma_with_peer(s0, peer);
        }
        let ghost i = key_index(s1, peer);
        let mut st = match lru_peek(&self.peers, peer) {
            Some(st) => st,
            None => { return evicted; },
        };
        let ghost ss1 = self.summary_stats;
        let (old_val, new_val) = st.register_bytes_received(bytes);
        proof {
            lemma_nonzero_can_add(ss1.bytes_received@, s1, |x: MeasurementStore| bytes_received_of(x), old_val, new_val);
        }
        self.summary_stats.remove_bytes_received(old_val);
        self.summary_stats.add_bytes_received(new_val);
        if let Some(bandwidth) = outbound_bandwidth {
            let (old_bw, new_bw) = st.register_outbound_bandwidth(bandwidth);
            proof {
                lemma_exact_can_add(ss1.outbound_bandwidth@, s1, |x: MeasurementStore| outbound_bandwidth_of(x), old_bw, new_bw);
            }
            self.summary_stats.remove_outbound_bandwidth(old_bw);
            self.summary_stats.add_outbound_bandwidth(new_bw);
        }
        let _ = lru_push(&mut self.peers, peer, st);
        proof {
            lemma_summary_step(ss1, self.summary_stats, s1, i, st);
            lemma_put_first(s1, i, st);
        }
        evicted
    }

    /// Records `bytes` sent to `peer` and, when the transfer was timed, the
    /// peer's new mean inbound bandwidth; returns the peer whose entry was
    /// dropped to make room, if any.
    pub fn report_bytes_sent(&mut self, peer: u32, bytes: u64, inbound_bandwidth: Option<u128>) -> (r: Option<u32>)
        requires
            old(self).inv(),
            store_of(old(self).entries(), peer).bytes_sent.bytes + bytes <= u128::MAX,
        ensures
            final(self).inv(),
            final(self).entries() == after_update(
                old(self).entries(),
                peer,
                MeasurementStore {
                    bytes_sent: BytesTransferred {
                        bytes: (store_of(old(self).entries(), peer).bytes_sent.bytes + bytes) as u128,
                    },
                    inbound_bandwidth: match inbound_bandwidth {
                        Some(b) => Some(b),
                        None => store_of(old(self).entries(), peer).inbound_bandwidth,
                    },
                    ..store_of(old(self).entries(), peer)
                },
            ),
            r == evicted_peer(old(self).entries(), peer),
    {
        let ghost s0 = self.entries();
        let evicted = self.insert_if_not_exists(peer);
        let ghost s1 = self.entries();
        proof {
            lemma_with_peer(s0, peer);
        }
        let ghost i = key_index(s1, peer);
        let mut st = match lru_peek(&self.peers, peer) {
            Some(st) => st,
            None => { return evicted; },
        };
        let ghost ss1 = self.summary_stats;
        let (old_val, new_val) = st.register_bytes_sent(bytes);
        proof {
            lemma_nonzero_can_add(ss1.bytes_sent@, s1, |x: MeasurementStore| bytes_sent_of(x), old_val, new_val);
        }
        self.summary_stats.remove_bytes_sent(old_val);
        self.summary_stats.add_bytes_sent(new_val);
        if let Some(bandwidth) = inbound_bandwidth {
            let (old_bw, new_bw) = st.register_inbound_bandwidth(bandwidth);
            proof {
                lemma_exact_can_add(ss1.inbound_bandwidth@, s1, |x: MeasurementStore| inbound_bandwidth_of(x), old_bw, new_bw);
            }
            self.summary_stats.remove_inbound_bandwidth(old_bw);
            self.summary_stats.add_inbound_bandwidth(new_bw);
        }
        let _ = lru_push(&mut self.peers, peer, st);
        proof {
            lemma_summary_step(ss1, self.summary_stats, s1, i, st);
            lemma_put_first(s1, i, st);
        }
        evicted
    }

    /// Records a ping to `peer` and whether it was answered; returns the peer
    /// whose entry was dropped to make room, if any.
    pub fn report_ping(&mut self, peer: u32, responded: bool) -> (r: Option<u32>)
        requires
            old(self).inv(),
            store_of(old(self).entries(), peer).pings.num_pings < usize::MAX,
        ensures
            final(self).inv(),
            final(self).entries() == after_update(
                old(self).entries(),
                peer,
                MeasurementStore {
                    pings: Pings {
                        num_pings: (store_of(old(self).entries(), peer).pings.num_pings + 1) as usize,
                        num_pings_responded: (store_of(old(self).entries(), peer).pings.num_pings_responded
                            + (if responded { 1int } else { 0int })) as usize,
                    },
                    ..store_of(old(self).entries(), peer)
                },
            ),
            r == evicted_peer(old(self).entries(), peer),
    {
        let ghost s0 = self.entries();
        let evicted = self.insert_if_not_exists(peer);
        let ghost s1 = self.entries();
        proof {
            lemma_with_peer(s0, peer);
        }
        let ghost i = key_index(s1, peer);
        let mut st = match lru_peek(&self.peers, peer) {
            Some(st) => st,
            None => { return evicted; },
        };
        let ghost ss1 = self.summary_stats;
        st.register_ping(responded);
        let _ = lru_push(&mut self.peers, peer, st);
        proof {
            lemma_summary_step(ss1, self.summary_stats, s1, i, st);
            lemma_put_first(s1, i, st);
        }
        evicted
    }

    /// Records the hop count to `peer`; returns the peer whose entry was
    /// dropped to make room, if any.
    pub fn report_hops(&mut self, peer: u32, hops: u8) -> (r: Option<u32>)
        requires
            old(self).inv(),
        ensures
            final(self).inv(),
            final(self).entries() == after_update(
                old(self).entries(),
                peer,
                MeasurementStore { hops: Hops { hops: Some(hops) }, ..store_of(old(self).entries(), peer) },
            ),
            r == evicted_peer(old(self).entries(), peer),
    {
        let ghost s0 = self.entries();
        let evicted = self.insert_if_not_exists(peer);
        let ghost s1 = self.entries();
        proof {
            lemma_with_peer(s0, peer);
        }
        let ghost i = key_index(s1, peer);
        let mut st = match lru_peek(&self.peers, peer) {
            Some(st) => st,
            None => { return evicted; },
        };
        let (old_val, new_val) = st.register_hops(hops);
        let ghost ss1 = self.summary_stats;
        let _ = lru_push(&mut self.peers, peer, st);
        proof {
            lemma_exact_can_add(ss1.hops@, s1, |x: MeasurementStore| hops_of(x), old_val, new_val);
        }
        self.summary_stats.remove_hops(old_val);
        self.summary_stats.add_hops(new_val);
        proof {
            lemma_summary_step(ss1, self.summary_stats, s1, i, st);
            lemma_put_first(s1, i, st);
        }
        evicted
    }
    /// The measurements of every peer, by peer.
    pub fn get_measurements(&self) -> (r: BTreeMap<u32, ReputationMeasurements>)
        requires
            self.inv(),
        ensures
            forall|peer: u32| #[trigger] r@.contains_key(peer) <==> has_key(self.entries(), peer),
            forall|peer: u32|
                #[trigger] r@.contains_key(peer) ==> r@[peer] == store_of(self.entries(), peer).measurements(),
    {
        let v = lru_to_vec(&self.peers);
        let ghost s = self.entries();
        let mut r: BTreeMap<u32, ReputationMeasurements> = BTreeMap::new();
        let n = v.len();
        for i in 0..n
            invariant
                n == s.len(),
                v@ == s,
                entries_wf(s),
                forall|j: int| 0 <= j < i ==> #[trigger] r@.contains_key(s[j].0),
                forall|peer: u32| #[trigger] r@.contains_key(peer) ==> exists|j: int| 0 <= j < i && s[j].0 == peer,
                forall|j: int| 0 <= j < i ==> r@[#[trigger] s[j].0] == s[j].1.measurements(),
        {
            let (k, st) = v[i];
            proof {
                assert forall|j: int| 0 <= j < i implies s[j].0 != k by {}
            }
            r.insert(k, st.to_measurements());
        }
        proof {
            assert forall|peer: u32| #[trigger] r@.contains_key(peer) <==> has_key(s, peer) by {
                if has_key(s, peer) {
                    let j = key_index(s, peer);
                    assert(r@.contains_key(s[j].0));
                }
            }
            assert forall|peer: u32| #[trigger] r@.contains_key(peer) implies r@[peer] == store_of(s, peer).measurements() by {
                let j = choose|j: int| 0 <= j < n && s[j].0 == peer;
                lemma_key_index(s, j);
            }
        }
        r
    }
    /// What the reputation score of `peer` is computed from: for each
    /// measurement the peer holds, its value with the smallest and largest
    /// value held by any peer; and its ping counts. `None` when `peer` has no
    /// entry.
    pub fn score_inputs(&self, peer: u32) -> (r: Option<ScoreInputs>)
        requires
            self.inv(),
        ensures
            r is Some <==> has_key(self.entries(), peer),
            r matches Some(inputs) ==> (inputs.latency is Some <==> latency_of(store_of(self.entries(), peer)) is Some
                && !self.summary().latency@.dom().is_empty()),
            r matches Some(inputs) ==> (inputs.latency matches Some(b) ==> opt_key(Some(b.value)) == latency_of(store_of(self.entries(), peer))
                && is_min_key(self.summary().latency@, b.min.nanos) && is_max_key(self.summary().latency@, b.max.nanos)),
            r matches Some(inputs) ==> (inputs.interactions is Some <==> interactions_of(store_of(self.entries(), peer)) is Some
                && !self.summary().interactions@.dom().is_empty()),
            r matches Some(inputs) ==> (inputs.interactions matches Some(b) ==> Some(b.value) == interactions_of(store_of(self.entries(), peer))
                && is_min_key(self.summary().interactions@, b.min) && is_max_key(self.summary().interactions@, b.max)),
            r matches Some(inputs) ==> (inputs.inbound_bandwidth is Some <==> inbound_bandwidth_of(store_of(self.entries(), peer)) is Some
                && !self.summary().inbound_bandwidth@.dom().is_empty()),
            r matches Some(inputs) ==> (inputs.inbound_bandwidth matches Some(b) ==> Some(b.value) == inbound_bandwidth_of(store_of(self.entries(), peer))
                && is_min_key(self.summary().inbound_bandwidth@, b.min) && is_max_key(self.summary().inbound_bandwidth@, b.max)),
            r matches Some(inputs) ==> (inputs.outbound_bandwidth is Some <==> outbound_bandwidth_of(store_of(self.entries(), peer)) is Some
                && !self.summary().outbound_bandwidth@.dom().is_empty()),
            r matches Some(inputs) ==> (inputs.outbound_bandwidth matches Some(b) ==> Some(b.value) == outbound_bandwidth_of(store_of(self.entries(), peer))
                && is_min_key(self.summary().outbound_bandwidth@, b.min) && is_max_key(self.summary().outbound_bandwidth@, b.max)),
            r matches Some(inputs) ==> (inputs.bytes_received is Some <==> bytes_received_of(store_of(self.entries(), peer)) is Some
                && !self.summary().bytes_received@.dom().is_empty()),
            r matches Some(inputs) ==> (inputs.bytes_received matches Some(b) ==> Some(b.value) == bytes_received_of(store_of(self.entries(), peer))
                && is_min_key(self.summary().bytes_received@, b.min) && is_max_key(self.summary().bytes_received@, b.max)),
            r matches Some(inputs) ==> (inputs.bytes_sent is Some <==> bytes_sent_of(store_of(self.entries(), peer)) is Some
                && !self.summary().bytes_sent@.dom().is_empty()),
            r matches Some(inputs) ==> (inputs.bytes_sent matches Some(b) ==> Some(b.value) == bytes_sent_of(store_of(self.entries(), peer))
                && is_min_key(self.summary().bytes_sent@, b.min) && is_max_key(self.summary().bytes_sent@, b.max)),
            r matches Some(inputs) ==> inputs.uptime == store_of(self.entries(), peer).pings.value(),
    {
        let st = match lru_peek(&self.peers, peer) {
            Some(st) => st,
            None => { return None; },
        };
        proof {
            let i = key_index(self.entries(), peer);
            lemma_key_index(self.entries(), i);
        }
        let latency = match (st.latency.get(), self.summary_stats.min_latency(), self.summary_stats.max_latency()) {
            (Some(value), Some(min), Some(max)) => Some(Bounded { value, min, max }),
            _ => None,
        };
        let interactions = match (st.interactions.get(), self.summary_stats.min_interactions(), self.summary_stats.max_interactions()) {
            (Some(value), Some(min), Some(max)) => Some(Bounded { value, min, max }),
            _ => None,
        };
        let inbound_bandwidth = match (st.inbound_bandwidth, self.summary_stats.min_inbound_bandwidth(), self.summary_stats.max_inbound_bandwidth()) {
            (Some(value), Some(min), Some(max)) => Some(Bounded { value, min, max }),
            _ => None,
        };
        let outbound_bandwidth = match (st.outbound_bandwidth, self.summary_stats.min_outbound_bandwidth(), self.summary_stats.max_outbound_bandwidth()) {
            (Some(value), Some(min), Some(max)) => Some(Bounded { value, min, max }),
            _ => None,
        };
        let bytes_received = match (Some(st.bytes_received.get()), self.summary_stats.min_bytes_received(), self.summary_stats.max_bytes_received()) {
            (Some(value), Some(min), Some(max)) => Some(Bounded { value, min, max }),
            _ => None,
        };
        let bytes_sent = match (Some(st.bytes_sent.get()), self.summary_stats.min_bytes_sent(), self.summary_stats.max_bytes_sent()) {
            (Some(value), Some(min), Some(max)) => Some(Bounded { value, min, max }),
            _ => None,
        };
        Some(ScoreInputs {
            latency,
            interactions,
            inbound_bandwidth,
            outbound_bandwidth,
            bytes_received,
            bytes_sent,
            uptime: st.pings.get(),
        })
    }
}


/// A peer evicted to make room is forgotten: it has no entry afterwards, so
/// the summary statistics, which count exactly the cached peers (see
/// `law_summary_counts_exact`), no longer count its measurements.
pub proof fn law_evicted_peer_forgotten(s: Entries, peer: u32, st: MeasurementStore, e: u32)
    requires
        entries_wf(s),
        evicted_peer(s, peer) == Some(e),
    ensures
        !has_key(after_update(s, peer, st), e),
        has_key(after_update(s, peer, st), peer),
{
    lemma_with_peer(s, peer);
    let s1 = with_peer(s, peer);
    let rest = s.drop_last();
    assert(s1 =~= seq![(peer, MeasurementStore::empty())] + rest);
    assert(s1[0].0 == peer);
    lemma_key_index(s1, 0);
    assert(key_index(s1, peer) == 0);
    let r = after_update(s, peer, st);
    assert(r =~= seq![(peer, st)] + rest);
    assert(r[0].0 == peer);
    assert(e == s[s.len() - 1].0);
    if has_key(r, e) {
        let i = choose|i: int| 0 <= i < r.len() && #[trigger] r[i].0 == e;
        if i == 0 {
            assert(has_key(s, peer)) by {
                assert(s[s.len() - 1].0 == peer);
            }
        } else {
            assert(r[i] == s[i - 1]);
            assert(s[i - 1].0 != s[s.len() - 1].0);
        }
    }
}

/// The summary statistics count each measurement exactly: for every
/// latency, interaction balance, bandwidth and hop count, the number of
/// cached peers holding it (a key is absent when none does), and for byte
/// totals the number of peers holding each non-zero total. Every `report_*`,
/// including one that evicts the least recently reported peer, keeps this
/// (each keeps `inv`).
pub proof fn law_summary_counts_exact(m: MeasurementManager)
    requires
        m.inv(),
    ensures
        summary_matches(m.summary(), m.entries()),
{
}

/// The smallest and largest latency in the summary statistics are
/// values that some peer holds, and every peer's latency lies
/// between them; the summary holds none exactly when no peer holds one.
pub proof fn law_latency_bounds(m: MeasurementManager, lo: u128, hi: u128)
    requires
        m.inv(),
        is_min_key(m.summary().latency@, lo),
        is_max_key(m.summary().latency@, hi),
    ensures
        exists|i: int| 0 <= i < m.entries().len() && latency_of((#[trigger] m.entries()[i]).1) == Some(lo),
        exists|i: int| 0 <= i < m.entries().len() && latency_of((#[trigger] m.entries()[i]).1) == Some(hi),
        forall|i: int|
            0 <= i < m.entries().len() && latency_of((#[trigger] m.entries()[i]).1) is Some ==> lo <= latency_of(
                m.entries()[i].1,
            ).unwrap() <= hi,
{
    lemma_exact_bounds(m.summary().latency@, m.entries(), |st: MeasurementStore| latency_of(st), lo, hi);
}

/// The summary statistics hold no latency exactly when no peer
/// holds one.
pub proof fn law_latency_empty(m: MeasurementManager)
    requires
        m.inv(),
    ensures
        m.summary().latency@.dom().is_empty() <==> forall|i: int|
            0 <= i < m.entries().len() ==> latency_of((#[trigger] m.entries()[i]).1) is None,
{
    lemma_exact_empty(m.summary().latency@, m.entries(), |st: MeasurementStore| latency_of(st));
}

/// The smallest and largest interactions in the summary statistics are
/// values that some peer holds, and every peer's interactions lies
/// between them; the summary holds none exactly when no peer holds one.
pub proof fn law_interactions_bounds(m: MeasurementManager, lo: i64, hi: i64)
    requires
        m.inv(),
        is_min_key(m.summary().interactions@, lo),
        is_max_key(m.summary().interactions@, hi),
    ensures
        exists|i: int| 0 <= i < m.entries().len() && interactions_of((#[trigger] m.entries()[i]).1) == Some(lo),
        exists|i: int| 0 <= i < m.entries().len() && interactions_of((#[trigger] m.entries()[i]).1) == Some(hi),
        forall|i: int|
            0 <= i < m.entries().len() && interactions_of((#[trigger] m.entries()[i]).1) is Some ==> lo <= interactions_of(
                m.entries()[i].1,
            ).unwrap() <= hi,
{
    lemma_exact_bounds(m.summary().interactions@, m.entries(), |st: MeasurementStore| interactions_of(st), lo, hi);
}

/// The summary statistics hold no interactions exactly when no peer
/// holds one.
pub proof fn law_interactions_empty(m: MeasurementManager)
    requires
        m.inv(),
    ensures
        m.summary().interactions@.dom().is_empty() <==> forall|i: int|
            0 <= i < m.entries().len() ==> interactions_of((#[trigger] m.entries()[i]).1) is None,
{
    lemma_exact_empty(m.summary().interactions@, m.entries(), |st: MeasurementStore| interactions_of(st));
}

/// The smallest and largest inbound bandwidth in the summary statistics are
/// values that some peer holds, and every peer's inbound bandwidth lies
/// between them; the summary holds none exactly when no peer holds one.
pub proof fn law_inbound_bandwidth_bounds(m: MeasurementManager, lo: u128, hi: u128)
    requires
        m.inv(),
        is_min_key(m.summary().inbound_bandwidth@, lo),
        is_max_key(m.summary().inbound_bandwidth@, hi),
    ensures
        exists|i: int| 0 <= i < m.entries().len() && inbound_bandwidth_of((#[trigger] m.entries()[i]).1) == Some(lo),
        exists|i: int| 0 <= i < m.entries().len() && inbound_bandwidth_of((#[trigger] m.entries()[i]).1) == Some(hi),
        forall|i: int|
            0 <= i < m.entries().len() && inbound_bandwidth_of((#[trigger] m.entries()[i]).1) is Some ==> lo <= inbound_bandwidth_of(
                m.entries()[i].1,
            ).unwrap() <= hi,
{
    lemma_exact_bounds(m.summary().inbound_bandwidth@, m.entries(), |st: MeasurementStore| inbound_bandwidth_of(st), lo, hi);
}

/// The summary statistics hold no inbound bandwidth exactly when no peer
/// holds one.
pub proof fn law_inbound_bandwidth_empty(m: MeasurementManager)
    requires
        m.inv(),
    ensures
        m.summary().inbound_bandwidth@.dom().is_empty() <==> forall|i: int|
            0 <= i < m.entries().len() ==> inbound_bandwidth_of((#[trigger] m.entries()[i]).1) is None,
{
    lemma_exact_empty(m.summary().inbound_bandwidth@, m.entries(), |st: MeasurementStore| inbound_bandwidth_of(st));
}

/// The smallest and largest outbound bandwidth in the summary statistics are
/// values that some peer holds, and every peer's outbound bandwidth lies
/// between them; the summary holds none exactly when no peer holds one.
pub proof fn law_outbound_bandwidth_bounds(m: MeasurementManager, lo: u128, hi: u128)
    requires
        m.inv(),
        is_min_key(m.summary().outbound_bandwidth@, lo),
        is_max_key(m.summary().outbound_bandwidth@, hi),
    ensures
        exists|i: int| 0 <= i < m.entries().len() && outbound_bandwidth_of((#[trigger] m.entries()[i]).1) == Some(lo),
        exists|i: int| 0 <= i < m.entries().len() && outbound_bandwidth_of((#[trigger] m.entries()[i]).1) == Some(hi),
        forall|i: int|
            0 <= i < m.entries().len() && outbound_bandwidth_of((#[trigger] m.entries()[i]).1) is Some ==> lo <= outbound_bandwidth_of(
                m.entries()[i].1,
            ).unwrap() <= hi,
{
    lemma_exact_bounds(m.summary().outbound_bandwidth@, m.entries(), |st: MeasurementStore| outbound_bandwidth_of(st), lo, hi);
}

/// The summary statistics hold no outbound bandwidth exactly when no peer
/// holds one.
pub proof fn law_outbound_bandwidth_empty(m: MeasurementManager)
    requires
        m.inv(),
    ensures
        m.summary().outbound_bandwidth@.dom().is_empty() <==> forall|i: int|
            0 <= i < m.entries().len() ==> outbound_bandwidth_of((#[trigger] m.entries()[i]).1) is None,
{
    lemma_exact_empty(m.summary().outbound_bandwidth@, m.entries(), |st: MeasurementStore| outbound_bandwidth_of(st));
}

/// The smallest and largest hops in the summary statistics are
/// values that some peer holds, and every peer's hops lies
/// between them; the summary holds none exactly when no peer holds one.
pub proof fn law_hops_bounds(m: MeasurementManager, lo: u8, hi: u8)
    requires
        m.inv(),
        is_min_key(m.summary().hops@, lo),
        is_max_key(m.summary().hops@, hi),
    ensures
        exists|i: int| 0 <= i < m.entries().len() && hops_of((#[trigger] m.entries()[i]).1) == Some(lo),
        exists|i: int| 0 <= i < m.entries().len() && hops_of((#[trigger] m.entries()[i]).1) == Some(hi),
        forall|i: int|
            0 <= i < m.entries().len() && hops_of((#[trigger] m.entries()[i]).1) is Some ==> lo <= hops_of(
                m.entries()[i].1,
            ).unwrap() <= hi,
{
    lemma_exact_bounds(m.summary().hops@, m.entries(), |st: MeasurementStore| hops_of(st), lo, hi);
}

/// The summary statistics hold no hops exactly when no peer
/// holds one.
pub proof fn law_hops_empty(m: MeasurementManager)
    requires
        m.inv(),
    ensures
        m.summary().hops@.dom().is_empty() <==> forall|i: int|
            0 <= i < m.entries().len() ==> hops_of((#[trigger] m.entries()[i]).1) is None,
{
    lemma_exact_empty(m.summary().hops@, m.entries(), |st: MeasurementStore| hops_of(st));
}

/// The smallest and largest bytes received totals in the summary
/// statistics are totals that some peer holds; the largest bounds every
/// peer's total and the smallest every non-zero total (a peer whose total was
/// never reported holds zero and is not counted).
pub proof fn law_bytes_received_bounds(m: MeasurementManager, lo: u128, hi: u128)
    requires
        m.inv(),
        is_min_key(m.summary().bytes_received@, lo),
        is_max_key(m.summary().bytes_received@, hi),
    ensures
        exists|i: int| 0 <= i < m.entries().len() && bytes_received_of((#[trigger] m.entries()[i]).1) == Some(lo),
        exists|i: int| 0 <= i < m.entries().len() && bytes_received_of((#[trigger] m.entries()[i]).1) == Some(hi),
        forall|i: int|
            0 <= i < m.entries().len() ==> ((#[trigger] m.entries()[i]).1.bytes_received.bytes != 0 ==> lo
                <= m.entries()[i].1.bytes_received.bytes) && m.entries()[i].1.bytes_received.bytes <= hi,
{
    lemma_nonzero_bounds(m.summary().bytes_received@, m.entries(), |st: MeasurementStore| bytes_received_of(st), lo, hi);
}

/// The smallest and largest bytes sent totals in the summary
/// statistics are totals that some peer holds; the largest bounds every
/// peer's total and the smallest every non-zero total (a peer whose total was
/// never reported holds zero and is not counted).
pub proof fn law_bytes_sent_bounds(m: MeasurementManager, lo: u128, hi: u128)
    requires
        m.inv(),
        is_min_key(m.summary().bytes_sent@, lo),
        is_max_key(m.summary().bytes_sent@, hi),
    ensures
        exists|i: int| 0 <= i < m.entries().len() && bytes_sent_of((#[trigger] m.entries()[i]).1) == Some(lo),
        exists|i: int| 0 <= i < m.entries().len() && bytes_sent_of((#[trigger] m.entries()[i]).1) == Some(hi),
        forall|i: int|
            0 <= i < m.entries().len() ==> ((#[trigger] m.entries()[i]).1.bytes_sent.bytes != 0 ==> lo
                <= m.entries()[i].1.bytes_sent.bytes) && m.entries()[i].1.bytes_sent.bytes <= hi,
{
    lemma_nonzero_bounds(m.summary().bytes_sent@, m.entries(), |st: MeasurementStore| bytes_sent_of(st), lo, hi);
}

} // verus!
