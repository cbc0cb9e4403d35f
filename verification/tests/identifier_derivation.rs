use memo_store::hashing::fnv1a_bytes;
use memo_store::hashing::pseudo_data_compute;
use memo_store::hashing::u64_le_bytes;
use memo_store::hashing::FNV_OFFSET_BASIS;
use memo_store::store::DataId;
use memo_store::store::Store;

#[test]
fn fnv1a_known_digests() {
    // The empty input leaves the running digest at the offset basis.
    assert_eq!(fnv1a_bytes(FNV_OFFSET_BASIS, b""), FNV_OFFSET_BASIS);
    // Published FNV-1a 64-bit test vectors.
    assert_eq!(fnv1a_bytes(FNV_OFFSET_BASIS, b"a"), 0xaf63dc4c8601ec8c);
    assert_eq!(fnv1a_bytes(FNV_OFFSET_BASIS, b"foobar"), 0x85944171f73967e8);
}

#[test]
fn u64_le_bytes_layout() {
    assert_eq!(u64_le_bytes(0x0102030405060708), vec![8, 7, 6, 5, 4, 3, 2, 1]);
    assert_eq!(u64_le_bytes(0), vec![0; 8]);
}

#[test]
fn data_id_new_matches_store_data() {
    let mut store = Store::new();
    let stored = store.store_data(b"content");
    assert_eq!(DataId::new(b"content"), stored);
}

#[test]
fn data_ids_are_tagged() {
    // The blob identifier is not the bare digest of the content: the
    // derivation kind is mixed in.
    assert!(DataId::new(b"a").0 != fnv1a_bytes(FNV_OFFSET_BASIS, b"a"));
}

#[test]
fn identifier_kinds_do_not_coincide() {
    // The blob identifier of eight bytes ending in a tag-valued byte and
    // the leaf identifier of a tag-valued blob id digest different
    // streams: each kind folds its own tag byte first.
    assert!(DataId::new(&[0, 0, 0, 0, 0, 0, 0, 0x44]).0 != memo_store::hashing::leaf_id_hash(0x44));
    // A blob, the leaf wrapping it, and the composite over that leaf all
    // carry identifiers of distinct kinds.
    let mut store = Store::new();
    let d = store.store_data(b"a");
    let leaf = store.store_expr(&memo_store::store::Expr::DataId(d)).unwrap();
    let comp = store
        .store_expr(&memo_store::store::Expr::Compute(vec![memo_store::store::Expr::DataId(d)]))
        .unwrap();
    assert!(leaf.0 != d.0);
    assert!(comp.0 != leaf.0 && comp.0 != d.0);
}

#[test]
fn reduction_is_deterministic_and_order_sensitive() {
    let a: Vec<u8> = b"alpha".to_vec();
    let b: Vec<u8> = b"beta".to_vec();
    let ab: Vec<&Vec<u8>> = vec![&a, &b];
    let ab2: Vec<&Vec<u8>> = vec![&a, &b];
    let ba: Vec<&Vec<u8>> = vec![&b, &a];
    assert_eq!(pseudo_data_compute(&ab), pseudo_data_compute(&ab2));
    assert!(pseudo_data_compute(&ab) != pseudo_data_compute(&ba));
    // The reduction always produces an eight-byte digest.
    let none: Vec<&Vec<u8>> = vec![];
    assert_eq!(pseudo_data_compute(&none).len(), 8);
}
