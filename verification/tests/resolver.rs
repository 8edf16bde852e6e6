use lightning_core::resolver::{publish_records, record_origin, ResolvedRecord};

fn record(pointer: &[u8], originator: u32) -> ResolvedRecord {
    ResolvedRecord { pointer: pointer.to_vec(), hash: [7; 32], originator, signature: [1; 64] }
}

#[test]
fn a_pointer_is_kept_once_under_its_hash() {
    let kept = record_origin(Vec::new(), record(b"ipfs/a", 1));
    assert_eq!(kept.len(), 1);
    let kept = record_origin(kept, record(b"http/b", 2));
    assert_eq!(kept.len(), 2);
    // The same pointer from another node adds nothing.
    let kept = record_origin(kept, record(b"ipfs/a", 3));
    assert_eq!(kept.len(), 2);
    assert_eq!(kept[0].originator, 1);
    assert_eq!(kept[1].pointer, b"http/b".to_vec());
}

#[test]
fn one_record_per_pointer_with_one_signature() {
    let pointers = vec![b"ipfs/a".to_vec(), b"http/b".to_vec(), b"http/c".to_vec()];
    let records = publish_records([9; 32], 4, [2; 64], &pointers);
    assert_eq!(records.len(), 3);
    for (r, p) in records.iter().zip(pointers.iter()) {
        assert_eq!(&r.pointer, p);
        assert_eq!(r.hash, [9; 32]);
        assert_eq!(r.originator, 4);
        assert_eq!(r.signature, [2; 64]);
    }
    assert!(publish_records([9; 32], 4, [2; 64], &Vec::new()).is_empty());
}
