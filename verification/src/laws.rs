//! Laws of the store's transitions.
//!
//! Storing is idempotent — repeating `store_data` or `store_expr` with equal
//! input changes nothing and yields the same identifier — and storing
//! followed by lookup returns the stored content.

use crate::hashing::spec_composite_id_hash;
use crate::hashing::spec_data_id_hash;
use crate::hashing::spec_leaf_id_hash;
use crate::store::expr_ids_of;
use crate::store::expr_ok;
use crate::store::list_ok;
use crate::store::store_data_m;
use crate::store::store_expr_m;
use crate::store::store_list_m;
use crate::store::Expr;
use crate::store::StoreModel;
use vstd::prelude::*;

verus! {

/// Storing the same bytes twice never changes stored content: the second
/// store is a no-op, and both stores return the identical identifier, since
/// the identifier is derived from the bytes alone.
pub proof fn lemma_store_data_idempotent(m: StoreModel, bytes: Seq<u8>)
    ensures
        store_data_m(store_data_m(m, bytes), bytes) == store_data_m(m, bytes),
{
}

/// After storing bytes, looking the derived identifier up yields those very
/// bytes — provided the store did not already hold different content under
/// that identifier (identifier derivation is trusted collision-free).
pub proof fn lemma_store_data_round_trip(m: StoreModel, bytes: Seq<u8>)
    requires
        m.data.dom().contains(spec_data_id_hash(bytes)) ==> m.data[spec_data_id_hash(bytes)]
            == bytes,
    ensures
        store_data_m(m, bytes).data.dom().contains(spec_data_id_hash(bytes)),
        store_data_m(m, bytes).data[spec_data_id_hash(bytes)] == bytes,
{
}

/// Everything the expression records is already present in the store, with
/// the recorded values: each leaf's identifier resolves to its blob, and
/// each composite's dependency list is recorded.
pub open spec fn recorded(m: StoreModel, e: Expr) -> bool
    decreases e,
{
    match e {
        Expr::ExprId(_) => true,
        Expr::DataId(d) => m.one.dom().contains(spec_leaf_id_hash(d.0)) && m.one[spec_leaf_id_hash(
            d.0,
        )] == d.0,
        Expr::Compute(v) => recorded_list(m, v@) && m.deps.dom().contains(
            spec_composite_id_hash(expr_ids_of(v@)),
        ),
    }
}

/// Everything each expression of the sequence records is already present.
pub open spec fn recorded_list(m: StoreModel, es: Seq<Expr>) -> bool
    decreases es,
{
    es.len() == 0 || (recorded_list(m, es.drop_last()) && recorded(m, es.last()))
}

/// `m2` holds every resolution and dependency list `m1` holds, unchanged.
spec fn grows(m2: StoreModel, m1: StoreModel) -> bool {
    &&& forall|k: u64| #[trigger]
        m1.one.dom().contains(k) ==> m2.one.dom().contains(k) && m2.one[k] == m1.one[k]
    &&& forall|k: u64| #[trigger]
        m1.deps.dom().contains(k) ==> m2.deps.dom().contains(k) && m2.deps[k] == m1.deps[k]
}

/// Storing an expression only adds resolutions and dependency lists; it
/// never changes an existing one.
proof fn lemma_store_expr_grows(m: StoreModel, e: Expr)
    ensures
        grows(store_expr_m(m, e), m),
    decreases e,
{
    match e {
        Expr::ExprId(_) => {},
        Expr::DataId(_) => {},
        Expr::Compute(v) => {
            lemma_store_list_grows(m, v@);
        },
    }
}

/// Storing a sequence of expressions only adds; it never changes.
proof fn lemma_store_list_grows(m: StoreModel, es: Seq<Expr>)
    ensures
        grows(store_list_m(m, es), m),
    decreases es,
{
    if es.len() != 0 {
        lemma_store_list_grows(m, es.drop_last());
        lemma_store_expr_grows(store_list_m(m, es.drop_last()), es.last());
    }
}

/// What an expression records stays recorded as the store grows.
proof fn lemma_recorded_grows(m1: StoreModel, m2: StoreModel, e: Expr)
    requires
        recorded(m1, e),
        grows(m2, m1),
    ensures
        recorded(m2, e),
    decreases e,
{
    match e {
        Expr::ExprId(_) => {},
        Expr::DataId(_) => {},
        Expr::Compute(v) => {
            lemma_recorded_list_grows(m1, m2, v@);
        },
    }
}

/// What a sequence of expressions records stays recorded as the store
/// grows.
proof fn lemma_recorded_list_grows(m1: StoreModel, m2: StoreModel, es: Seq<Expr>)
    requires
        recorded_list(m1, es),
        grows(m2, m1),
    ensures
        recorded_list(m2, es),
    decreases es,
{
    if es.len() != 0 {
        lemma_recorded_list_grows(m1, m2, es.drop_last());
        lemma_recorded_grows(m1, m2, es.last());
    }
}

/// After a conflict-free store of an expression, everything the expression
/// records is present in the resulting store.
proof fn lemma_store_expr_records(m: StoreModel, e: Expr)
    requires
        expr_ok(m.one, e),
    ensures
        recorded(store_expr_m(m, e), e),
    decreases e,
{
    crate::store::lemma_store_expr_m_parts(m, e);
    match e {
        Expr::ExprId(_) => {},
        Expr::DataId(_) => {},
        Expr::Compute(v) => {
            lemma_store_list_records(m, v@);
            let m1 = store_list_m(m, v@);
            let cid = spec_composite_id_hash(expr_ids_of(v@));
            if m1.deps.dom().contains(cid) {
                assert(grows(store_expr_m(m, e), m1));
            } else {
                assert(grows(store_expr_m(m, e), m1));
            }
            lemma_recorded_list_grows(m1, store_expr_m(m, e), v@);
        },
    }
}

/// After a conflict-free store of a sequence of expressions, everything the
/// sequence records is present in the resulting store.
proof fn lemma_store_list_records(m: StoreModel, es: Seq<Expr>)
    requires
        list_ok(m.one, es),
    ensures
        recorded_list(store_list_m(m, es), es),
    decreases es,
{
    if es.len() != 0 {
        let m1 = store_list_m(m, es.drop_last());
        lemma_store_list_records(m, es.drop_last());
        crate::store::lemma_store_list_m_parts(m, es.drop_last());
        assert(expr_ok(m1.one, es.last()));
        lemma_store_expr_records(m1, es.last());
        lemma_store_expr_grows(m1, es.last());
        lemma_recorded_list_grows(m1, store_expr_m(m1, es.last()), es.drop_last());
    }
}

/// Storing an expression whose records are all present already is a no-op,
/// and raises no conflict.
proof fn lemma_store_recorded_noop(m: StoreModel, e: Expr)
    requires
        recorded(m, e),
    ensures
        store_expr_m(m, e) == m,
        expr_ok(m.one, e),
    decreases e,
{
    match e {
        Expr::ExprId(_) => {},
        Expr::DataId(_) => {},
        Expr::Compute(v) => {
            lemma_store_list_recorded_noop(m, v@);
        },
    }
}

/// Storing a sequence of expressions whose records are all present already
/// is a no-op, and raises no conflict.
proof fn lemma_store_list_recorded_noop(m: StoreModel, es: Seq<Expr>)
    requires
        recorded_list(m, es),
    ensures
        store_list_m(m, es) == m,
        list_ok(m.one, es),
    decreases es,
{
    if es.len() != 0 {
        lemma_store_list_recorded_noop(m, es.drop_last());
        lemma_store_recorded_noop(m, es.last());
        crate::store::lemma_store_list_m_parts(m, es.drop_last());
    }
}

/// Storing the same expression tree twice never changes stored content:
/// once the tree is stored, storing it again raises no conflict and is a
/// no-op — and both stores return the identical identifier, since the
/// identifier is derived from the tree's shape alone.
pub proof fn lemma_store_expr_idempotent(m: StoreModel, e: Expr)
    requires
        expr_ok(m.one, e),
    ensures
        expr_ok(store_expr_m(m, e).one, e),
        store_expr_m(store_expr_m(m, e), e) == store_expr_m(m, e),
{
    lemma_store_expr_records(m, e);
    lemma_store_recorded_noop(store_expr_m(m, e), e);
}

} // verus!
