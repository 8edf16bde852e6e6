//! Submitting the collected measurements: a transaction carries at most a
//! given number of them.
use vstd::prelude::*;
use std::collections::BTreeMap;
use vstd::std_specs::btree::{increasing_seq, spec_btree_map_iter};
use vstd::std_specs::cmp::OrdSpec;
use vstd::std_specs::iter::IteratorSpec;
use crate::measurements::ReputationMeasurements;

verus! {

broadcast use vstd::std_specs::btree::group_btree_axioms;

proof fn lemma_increasing_keys(s: Seq<u32>)
    requires
        increasing_seq(s),
    ensures
        forall|i: int, j: int| 0 <= i < j < s.len() ==> s[i] < s[j],
{
    broadcast use vstd::laws_cmp::group_laws_cmp;
    assert forall|i: int, j: int| 0 <= i < j < s.len() implies s[i] < s[j] by {
        assert(s[i].cmp_spec(&s[j]) is Less);
    }
}

/// Node indices are totally ordered, as a `BTreeMap` keyed by them needs.
proof fn lemma_keys_ordered()
    ensures
        vstd::std_specs::btree::key_obeys_cmp_spec::<u32>(),
{
    broadcast use vstd::laws_cmp::group_laws_cmp;
}

/// The node indices of `m` in increasing order.
fn sorted_keys(m: &BTreeMap<u32, ReputationMeasurements>) -> (keys: Vec<u32>)
    ensures
        keys@.to_set() == m@.dom(),
        forall|i: int, j: int| 0 <= i < j < keys@.len() ==> keys@[i] < keys@[j],
{
    proof {
        lemma_keys_ordered();
    }
    let in_order = m.iter();
    proof {
        lemma_increasing_keys(spec_btree_map_iter(m).remaining().map_values(|kv: (&u32, &ReputationMeasurements)| *kv.0));
    }
    let mut keys: Vec<u32> = Vec::new();
    for kv in it: m.iter()
        invariant
            keys@ == it.seq().take(it.index() as int).map_values(|kv: (&u32, &ReputationMeasurements)| *kv.0),
    {
        keys.push(*kv.0);
    }
    proof {
        let seq = spec_btree_map_iter(m).remaining();
        assert(keys@ =~= seq.map_values(|kv: (&u32, &ReputationMeasurements)| *kv.0));
        assert forall|k: u32| keys@.to_set().contains(k) <==> m@.dom().contains(k) by {
            if m@.contains_key(k) {
                assert(seq.contains((&k, &m@[k])));
                let j = choose|j: int| 0 <= j < seq.len() && seq[j] == (&k, &m@[k]);
                assert(keys@[j] == k);
            }
            if keys@.to_set().contains(k) {
                let j = choose|j: int| 0 <= j < keys@.len() && keys@[j] == k;
                assert(m@.contains_key(*seq[j].0));
            }
        }
        assert(keys@.to_set() =~= m@.dom());
    }
    keys
}

/// The measurements of `m` of the nodes in `ks`.
pub open spec fn batch_of(m: Map<u32, ReputationMeasurements>, ks: Seq<u32>) -> Map<u32, ReputationMeasurements> {
    m.restrict(ks.to_set())
}

/// `ks` are the node indices of `m`, in increasing order.
pub open spec fn sorted_keys_of(m: Map<u32, ReputationMeasurements>, ks: Seq<u32>) -> bool {
    &&& ks.to_set() == m.dom()
    &&& forall|i: int, j: int| 0 <= i < j < ks.len() ==> ks[i] < ks[j]
}

fn batch(m: &BTreeMap<u32, ReputationMeasurements>, keys: &Vec<u32>, lo: usize, hi: usize) -> (b: BTreeMap<
    u32,
    ReputationMeasurements,
>)
    requires
        lo <= hi <= keys@.len(),
        keys@.to_set() == m@.dom(),
    ensures
        b@ == batch_of(m@, keys@.subrange(lo as int, hi as int)),
{
    let mut b: BTreeMap<u32, ReputationMeasurements> = BTreeMap::new();
    let mut i = lo;
    while i < hi
        invariant
            lo <= i <= hi <= keys@.len(),
            keys@.to_set() == m@.dom(),
            b@ == batch_of(m@, keys@.subrange(lo as int, i as int)),
        decreases hi - i,
    {
        let k = keys[i];
        proof {
            assert(keys@.to_set().contains(k));
        }
        match m.get(&k) {
            Some(v) => {
                b.insert(k, *v);
            },
            None => {
                proof {
                    assert(false);
                }
            },
        }
        proof {
            let before = keys@.subrange(lo as int, i as int);
            let after = keys@.subrange(lo as int, i + 1);
            assert(after =~= before.push(k));
            assert forall|x: u32| after.to_set().contains(x) <==> before.to_set().contains(x) || x == k by {
                if after.to_set().contains(x) {
                    let j = choose|j: int| 0 <= j < after.len() && after[j] == x;
                    if j < before.len() {
                        assert(before[j] == x);
                    }
                }
                if before.to_set().contains(x) {
                    let j = choose|j: int| 0 <= j < before.len() && before[j] == x;
                    assert(after[j] == x);
                }
                if x == k {
                    assert(after[after.len() - 1] == x);
                }
            }
            assert(b@ =~= batch_of(m@, after));
        }
        i = i + 1;
    }
    b
}

/// The measurements to submit, one map per transaction of at most
/// `max_per_tx` of them: none when there are none; all in one when they fit;
/// otherwise the `max_per_tx` lowest node indices in one and the next
/// `max_per_tx` in another, the rest left out.
pub fn split_submissions(measurements: &BTreeMap<u32, ReputationMeasurements>, max_per_tx: usize) -> (r: Vec<
    BTreeMap<u32, ReputationMeasurements>,
>)
    ensures
        exists|ks: Seq<u32>|
            {
                &&& #[trigger] sorted_keys_of(measurements@, ks)
                &&& ks.len() == 0 ==> r@.len() == 0
                &&& 0 < ks.len() <= max_per_tx ==> r@.len() == 1 && r@[0]@ == measurements@
                &&& ks.len() > max_per_tx ==> {
                    &&& r@.len() == 2
                    &&& r@[0]@ == batch_of(measurements@, ks.take(max_per_tx as int))
                    &&& r@[1]@ == batch_of(
                        measurements@,
                        ks.subrange(
                            max_per_tx as int,
                            if ks.len() < 2 * max_per_tx { ks.len() as int } else { 2 * max_per_tx },
                        ),
                    )
                }
            },
{
    let keys = sorted_keys(measurements);
    let n = keys.len();
    let mut r: Vec<BTreeMap<u32, ReputationMeasurements>> = Vec::new();
    if n == 0 {
        assert(sorted_keys_of(measurements@, keys@));
        return r;
    }
    if n <= max_per_tx {
        let all = batch(measurements, &keys, 0, n);
        proof {
            assert(keys@.subrange(0, n as int) =~= keys@);
            assert(all@ =~= measurements@);
        }
        r.push(all);
        assert(sorted_keys_of(measurements@, keys@));
        return r;
    }
    let first = batch(measurements, &keys, 0, max_per_tx);
    let end = if n - max_per_tx < max_per_tx { n } else { 2 * max_per_tx };
    let second = batch(measurements, &keys, max_per_tx, end);
    proof {
        assert(keys@.subrange(0, max_per_tx as int) =~= keys@.take(max_per_tx as int));
    }
    r.push(first);
    r.push(second);
    assert(sorted_keys_of(measurements@, keys@));
    r
}

/// There is one increasing sequence of the node indices of a map, so the
/// batches `split_submissions` returns are determined.
pub proof fn law_sorted_keys_unique(m: Map<u32, ReputationMeasurements>, a: Seq<u32>, b: Seq<u32>)
    requires
        sorted_keys_of(m, a),
        sorted_keys_of(m, b),
    ensures
        a == b,
{
    lemma_increasing_same_set(a, b);
}

proof fn lemma_increasing_same_set(a: Seq<u32>, b: Seq<u32>)
    requires
        a.to_set() == b.to_set(),
        forall|i: int, j: int| 0 <= i < j < a.len() ==> a[i] < a[j],
        forall|i: int, j: int| 0 <= i < j < b.len() ==> b[i] < b[j],
    ensures
        a == b,
    decreases a.len(),
{
    if a.len() == 0 {
        if b.len() > 0 {
            assert(b.to_set().contains(b[0]));
        }
        assert(b.len() == 0);
    } else {
        assert(a.to_set().contains(a[0]));
        assert(b.len() > 0);
        assert(b.to_set().contains(b[0]));
        let ja = choose|j: int| 0 <= j < b.len() && b[j] == a[0];
        let jb = choose|j: int| 0 <= j < a.len() && a[j] == b[0];
        assert(a[0] == b[0]) by {
            if ja > 0 {
                assert(b[0] < b[ja]);
            }
            if jb > 0 {
                assert(a[0] < a[jb]);
            }
        }
        let a1 = a.drop_first();
        let b1 = b.drop_first();
        assert forall|x: u32| a1.to_set().contains(x) <==> b1.to_set().contains(x) by {
            if a1.to_set().contains(x) {
                let i = choose|i: int| 0 <= i < a1.len() && a1[i] == x;
                assert(a[i + 1] == x);
                assert(a[0] < x);
                assert(a.to_set().contains(x));
                let j = choose|j: int| 0 <= j < b.len() && b[j] == x;
                assert(j != 0);
                assert(b1[j - 1] == x);
            }
            if b1.to_set().contains(x) {
                let i = choose|i: int| 0 <= i < b1.len() && b1[i] == x;
                assert(b[i + 1] == x);
                assert(b[0] < x);
                assert(b.to_set().contains(x));
                let j = choose|j: int| 0 <= j < a.len() && a[j] == x;
                assert(j != 0);
                assert(a1[j - 1] == x);
            }
        }
        assert(a1.to_set() =~= b1.to_set());
        lemma_increasing_same_set(a1, b1);
        assert(a =~= b1.insert(0, b[0]));
        assert(b =~= b1.insert(0, b[0]));
    }
}

} // verus!
