use memo_store::hashing::pseudo_data_compute;
use memo_store::one_to_many_map::EquivalenceConflict;
use memo_store::one_to_many_map::OneToManyMap;
use memo_store::store::DataId;
use memo_store::store::Expr;
use memo_store::store::ExprId;
use memo_store::store::Store;

fn composite_fx() -> (Expr, DataId, DataId) {
    let mut probe = Store::new();
    let f = probe.store_data(b"f");
    let x = probe.store_data(b"x");
    let expr = Expr::Compute(vec![Expr::DataId(f), Expr::DataId(x)]);
    (expr, f, x)
}

#[test]
fn data_id_determinism_across_stores() {
    let mut s1 = Store::new();
    let mut s2 = Store::new();
    let id1 = s1.store_data(b"some blob content");
    let id2 = s2.store_data(b"some blob content");
    assert_eq!(id1, id2);
    let other = s1.store_data(b"different content");
    assert!(id1 != other);
}

#[test]
fn expr_id_determinism_across_stores() {
    let (expr, _, _) = composite_fx();
    let mut s1 = Store::new();
    let mut s2 = Store::new();
    let id1 = s1.store_expr(&expr).unwrap();
    let id2 = s2.store_expr(&expr).unwrap();
    assert_eq!(id1, id2);
}

#[test]
fn permuting_children_changes_identifier() {
    let mut store = Store::new();
    let f = store.store_data(b"f");
    let x = store.store_data(b"x");
    let fx = Expr::Compute(vec![Expr::DataId(f), Expr::DataId(x)]);
    let xf = Expr::Compute(vec![Expr::DataId(x), Expr::DataId(f)]);
    let id_fx = store.store_expr(&fx).unwrap();
    let id_xf = store.store_expr(&xf).unwrap();
    assert!(id_fx != id_xf);
}

#[test]
fn store_data_idempotent() {
    let mut store = Store::new();
    let id1 = store.store_data(b"payload");
    let before: Vec<u8> = store.data_id_to_data(&id1).unwrap().clone();
    let id2 = store.store_data(b"payload");
    assert_eq!(id1, id2);
    assert_eq!(store.data_id_to_data(&id1).unwrap(), &before);
}

#[test]
fn store_expr_idempotent() {
    let (expr, f, _) = composite_fx();
    let mut store = Store::new();
    store.store_data(b"f");
    store.store_data(b"x");
    let id1 = store.store_expr(&expr).unwrap();
    let exprs_before = store.data_to_expr(&f).unwrap().clone();
    let id2 = store.store_expr(&expr).unwrap();
    assert_eq!(id1, id2);
    assert_eq!(store.data_to_expr(&f).unwrap(), &exprs_before);
}

#[test]
fn compute_is_memoized() {
    let (expr, _, _) = composite_fx();
    let mut store = Store::new();
    store.store_data(b"f");
    store.store_data(b"x");
    let expr_id = store.store_expr(&expr).unwrap();
    let first = store.compute_data(&expr_id).unwrap();
    // The result is now cached: the evaluator answers from the
    // equivalence relation without touching anything else.
    assert_eq!(store.expr_to_data(&expr_id), Some(first));
    let second = store.compute_data(&expr_id).unwrap();
    assert_eq!(first, second);
    assert_eq!(store.expr_to_data(&expr_id), Some(first));
}

#[test]
fn unresolved_expr_fails_with_its_identifier() {
    let mut store = Store::new();
    let unknown = ExprId(0x1234_5678_9abc_def0);
    assert_eq!(store.compute_data(&unknown), Err(unknown));
}

#[test]
fn unresolved_child_propagates_unchanged() {
    let mut store = Store::new();
    let f = store.store_data(b"f");
    // A composite over a leaf and a reference to an identifier that was
    // never stored: evaluation fails with exactly the missing child's
    // identifier, not the composite's.
    let missing = ExprId(42);
    let expr = Expr::Compute(vec![Expr::DataId(f), Expr::ExprId(missing)]);
    let expr_id = store.store_expr(&expr).unwrap();
    assert!(expr_id != missing);
    assert_eq!(store.compute_data(&expr_id), Err(missing));
}

#[test]
fn fail_fast_reports_first_missing_child() {
    let mut store = Store::new();
    let first = ExprId(1000);
    let second = ExprId(2000);
    let expr = Expr::Compute(vec![Expr::ExprId(first), Expr::ExprId(second)]);
    let expr_id = store.store_expr(&expr).unwrap();
    // Children are resolved in order and the first failure wins.
    assert_eq!(store.compute_data(&expr_id), Err(first));
}

#[test]
fn data_round_trip() {
    let mut store = Store::new();
    let id = store.store_data(b"round trip bytes");
    let bytes = store.data_id_to_data(&id).unwrap();
    assert_eq!(bytes.as_slice(), b"round trip bytes");
}

#[test]
fn conflict_detected_not_crash() {
    let mut map = OneToManyMap::new();
    assert_eq!(map.insert(10, 7), Ok(true));
    assert_eq!(map.insert(10, 7), Ok(false));
    let err = map.insert(11, 7).unwrap_err();
    assert_eq!(err, EquivalenceConflict { key: 7, existing: 10, proposed: 11 });
    // The failed assertion changed nothing.
    assert_eq!(map.get_one(&7), Some(10));
}

#[test]
fn one_to_many_map_basics() {
    let mut map = OneToManyMap::new();
    assert!(map.get_one(&1).is_none());
    assert!(map.get_many(&2).is_none());
    assert_eq!(map.insert(2, 1), Ok(true));
    assert_eq!(map.insert(2, 5), Ok(true));
    assert_eq!(map.get_one(&1), Some(2));
    assert_eq!(map.get_one(&5), Some(2));
    let many = map.get_many(&2).unwrap();
    assert_eq!(many.len(), 2);
    assert!(many.contains(&1) && many.contains(&5));
}

#[test]
fn end_to_end_composite_evaluation() {
    let mut store = Store::new();
    let f = store.store_data(b"f");
    let x = store.store_data(b"x");
    let expr = Expr::Compute(vec![Expr::DataId(f), Expr::DataId(x)]);
    let expr_id = store.store_expr(&expr).unwrap();
    // Not yet computed: absent from the cache.
    assert!(store.expr_to_data(&expr_id).is_none());
    let result = store.compute_data(&expr_id).unwrap();
    let f_bytes: Vec<u8> = b"f".to_vec();
    let x_bytes: Vec<u8> = b"x".to_vec();
    let inputs: Vec<&Vec<u8>> = vec![&f_bytes, &x_bytes];
    let expected = pseudo_data_compute(&inputs);
    assert_eq!(store.data_id_to_data(&result).unwrap(), &expected);
    assert_eq!(store.expr_to_data(&expr_id), Some(result));
}

#[test]
fn leaf_store_records_equivalence() {
    let mut store = Store::new();
    let d = store.store_data(b"leaf blob");
    let leaf_id = store.store_expr(&Expr::DataId(d)).unwrap();
    assert_eq!(store.expr_to_data(&leaf_id), Some(d));
    let exprs = store.data_to_expr(&d).unwrap();
    assert_eq!(exprs.len(), 1);
    assert!(exprs.contains(&leaf_id.0));
    // A leaf's value is known without computation.
    assert_eq!(store.compute_data(&leaf_id), Ok(d));
}

#[test]
fn reference_expr_returns_identifier_unchanged() {
    let mut store = Store::new();
    let id = ExprId(0xdead_beef);
    assert_eq!(store.store_expr(&Expr::ExprId(id)), Ok(id));
    // No derivation, no recording: the identifier stays unknown.
    assert!(store.expr_to_data(&id).is_none());
}

#[test]
fn remove_data_evicts_content_only() {
    let mut store = Store::new();
    let d = store.store_data(b"to be evicted");
    let leaf_id = store.store_expr(&Expr::DataId(d)).unwrap();
    let removed = store.remove_data(&d).unwrap();
    assert_eq!(removed.as_slice(), b"to be evicted");
    assert!(store.data_id_to_data(&d).is_none());
    assert!(store.remove_data(&d).is_none());
    // Equivalence records are deliberately not cascaded.
    assert_eq!(store.expr_to_data(&leaf_id), Some(d));
    assert!(store.data_to_expr(&d).is_some());
}

#[test]
fn nested_composites_evaluate_depth_first() {
    let mut store = Store::new();
    let f = store.store_data(b"f");
    let g = store.store_data(b"g");
    let x = store.store_data(b"x");
    let inner = Expr::Compute(vec![Expr::DataId(g), Expr::DataId(x)]);
    let inner_id = store.store_expr(&inner).unwrap();
    let outer = Expr::Compute(vec![
        Expr::DataId(f),
        Expr::Compute(vec![Expr::DataId(g), Expr::DataId(x)]),
    ]);
    let outer_id = store.store_expr(&outer).unwrap();
    let outer_result = store.compute_data(&outer_id).unwrap();
    // Evaluating the outer composite resolved and cached the inner one too.
    let inner_result = store.expr_to_data(&inner_id).unwrap();
    let g_bytes: Vec<u8> = b"g".to_vec();
    let x_bytes: Vec<u8> = b"x".to_vec();
    let inner_inputs: Vec<&Vec<u8>> = vec![&g_bytes, &x_bytes];
    let expected_inner = pseudo_data_compute(&inner_inputs);
    assert_eq!(store.data_id_to_data(&inner_result).unwrap(), &expected_inner);
    let f_bytes: Vec<u8> = b"f".to_vec();
    let outer_inputs: Vec<&Vec<u8>> = vec![&f_bytes, &expected_inner];
    let expected_outer = pseudo_data_compute(&outer_inputs);
    assert_eq!(store.data_id_to_data(&outer_result).unwrap(), &expected_outer);
}

#[test]
fn shared_subexpression_computed_once() {
    let mut store = Store::new();
    let f = store.store_data(b"f");
    let x = store.store_data(b"x");
    let shared = Expr::Compute(vec![Expr::DataId(f), Expr::DataId(x)]);
    let shared_id = store.store_expr(&shared).unwrap();
    let outer = Expr::Compute(vec![Expr::ExprId(shared_id), Expr::ExprId(shared_id)]);
    let outer_id = store.store_expr(&outer).unwrap();
    let result = store.compute_data(&outer_id).unwrap();
    assert!(store.data_id_to_data(&result).is_some());
    assert_eq!(store.expr_to_data(&outer_id), Some(result));
}
