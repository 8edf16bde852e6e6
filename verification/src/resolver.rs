//! The resolver's records: which node saw an immutable pointer resolve to a
//! content hash. A node publishes one record per pointer it resolved, and
//! keeps, under each hash, the records of the distinct pointers that lead to
//! it. Signing, the store on disk and the pub-sub topic stay with the node.
use vstd::prelude::*;

verus! {

/// Finds the origins that serve a piece of content, by its hash.
pub struct OriginFinder {}

/// A node's record that `pointer` resolved to the content `hash`.
pub struct ResolvedRecord {
    /// The immutable pointer, encoded.
    pub pointer: Vec<u8>,
    /// The blake3 hash of the content.
    pub hash: [u8; 32],
    /// The index of the node that resolved it.
    pub originator: u32,
    /// The originator's signature.
    pub signature: [u8; 64],
}

/// Whether two encoded pointers are the same.
fn same_bytes(a: &Vec<u8>, b: &Vec<u8>) -> (r: bool)
    ensures
        r == (a@ == b@),
{
    if a.len() != b.len() {
        return false;
    }
    let mut i: usize = 0;
    while i < a.len()
        invariant
            i <= a.len(),
            a.len() == b.len(),
            forall|j: int| 0 <= j < i ==> a@[j] == b@[j],
        decreases a.len() - i,
    {
        if a[i] != b[i] {
            return false;
        }
        i = i + 1;
    }
    assert(a@ =~= b@);
    true
}

/// A copy of `b`.
fn copy_bytes(b: &Vec<u8>) -> (r: Vec<u8>)
    ensures
        r@ == b@,
{
    let mut r: Vec<u8> = Vec::new();
    let mut i: usize = 0;
    while i < b.len()
        invariant
            i <= b.len(),
            r@ == b@.take(i as int),
        decreases b.len() - i,
    {
        r.push(b[i]);
        proof {
            assert(b@.take(i + 1) =~= b@.take(i as int).push(b@[i as int]));
        }
        i = i + 1;
    }
    assert(b@.take(i as int) =~= b@);
    r
}

/// Whether a record of `pointer` is among `records`.
pub open spec fn has_pointer(records: Seq<ResolvedRecord>, pointer: Seq<u8>) -> bool {
    exists|i: int| 0 <= i < records.len() && #[trigger] records[i].pointer@ == pointer
}

/// Adds `record` to the records kept under its hash, unless a record of the
/// same pointer is there already.
pub fn record_origin(records: Vec<ResolvedRecord>, record: ResolvedRecord) -> (r: Vec<ResolvedRecord>)
    ensures
        has_pointer(records@, record.pointer@) ==> r@ == records@,
        !has_pointer(records@, record.pointer@) ==> r@ == records@.push(record),
{
    let mut i: usize = 0;
    while i < records.len()
        invariant
            i <= records.len(),
            forall|j: int| 0 <= j < i ==> records@[j].pointer@ != record.pointer@,
        decreases records.len() - i,
    {
        if same_bytes(&records[i].pointer, &record.pointer) {
            return records;
        }
        i = i + 1;
    }
    let mut records = records;
    records.push(record);
    records
}

/// The records a node publishes on resolving `hash` through `pointers`, one
/// per pointer in order, all with the signature made for the first one;
/// the first is the one the node keeps itself. None when there are no
/// pointers.
pub fn publish_records(hash: [u8; 32], originator: u32, signature: [u8; 64], pointers: &Vec<Vec<u8>>) -> (r: Vec<
    ResolvedRecord,
>)
    ensures
        r@.len() == pointers@.len(),
        forall|i: int|
            0 <= i < r@.len() ==> {
                &&& (#[trigger] r@[i]).pointer@ == pointers@[i]@
                &&& r@[i].hash == hash
                &&& r@[i].originator == originator
                &&& r@[i].signature == signature
            },
{
    let mut r: Vec<ResolvedRecord> = Vec::new();
    let mut i: usize = 0;
    while i < pointers.len()
        invariant
            i <= pointers.len(),
            r@.len() == i,
            forall|j: int|
                0 <= j < i ==> {
                    &&& (#[trigger] r@[j]).pointer@ == pointers@[j]@
                    &&& r@[j].hash == hash
                    &&& r@[j].originator == originator
                    &&& r@[j].signature == signature
                },
        decreases pointers.len() - i,
    {
        let pointer = copy_bytes(&pointers[i]);
        r.push(ResolvedRecord { pointer, hash, originator, signature });
        i = i + 1;
    }
    r
}

} // verus!
