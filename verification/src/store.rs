//! The content-addressable memoization store.
//!
//! The store owns three write-once structures: a deduplicating blob store
//! from blob identifier to byte content, a dependency graph from composite
//! expression identifier to its ordered child expression identifiers, and
//! the equivalence relation recording which expression identifiers are known
//! to evaluate to which blob identifier. A memoized evaluator resolves an
//! expression identifier to the blob identifier of its result.

use crate::hashing::composite_id_hash;
use crate::hashing::data_id_hash;
use crate::hashing::leaf_id_hash;
use crate::hashing::pseudo_data_compute;
use crate::hashing::spec_composite_id_hash;
use crate::hashing::spec_data_id_hash;
use crate::hashing::spec_leaf_id_hash;
use crate::hashing::spec_reduce_bytes;
use crate::one_to_many_map::EquivalenceConflict;
use crate::one_to_many_map::OneToManyMap;
use std::collections::HashMap;
use std::collections::HashSet;
use vstd::prelude::*;

verus! {

/// Identifies a stored byte blob; derived deterministically from the exact
/// byte content of the blob.
#[derive(Clone, Copy, PartialEq, Eq, Hash, Structural, Debug)]
pub struct DataId(pub u64);

/// Identifies a stored expression; derived deterministically from the
/// expression's structure.
#[derive(Clone, Copy, PartialEq, Eq, Hash, Structural, Debug)]
pub struct ExprId(pub u64);

/// A tree describing either a direct reference to stored data or a
/// composite application of child expressions to each other.
pub enum Expr {
    /// An expression equivalent to the one already stored under this
    /// identifier.
    ExprId(ExprId),
    /// An expression that evaluates to the data stored under this
    /// identifier.
    DataId(DataId),
    /// A composite evaluated by applying the first child to the remaining
    /// children, in order.
    Compute(Vec<Expr>),
}

/// The mathematical content of a [`Store`]: the blob store, the dependency
/// graph, and both directions of the equivalence relation.
#[verifier::ext_equal]
pub struct StoreModel {
    /// Byte content by blob identifier.
    pub data: Map<u64, Seq<u8>>,
    /// Ordered child expression identifiers by composite expression
    /// identifier.
    pub deps: Map<u64, Seq<u64>>,
    /// The blob identifier each expression identifier resolves to.
    pub one: Map<u64, u64>,
    /// The expression identifiers known to resolve to each blob identifier.
    pub many: Map<u64, Set<u64>>,
}

/// The model of a freshly created store.
pub open spec fn empty_model() -> StoreModel {
    StoreModel {
        data: Map::<u64, Seq<u8>>::empty(),
        deps: Map::<u64, Seq<u64>>::empty(),
        one: Map::<u64, u64>::empty(),
        many: Map::<u64, Set<u64>>::empty(),
    }
}

/// The model after storing blob content: the content is recorded under its
/// derived identifier if that identifier is absent, and existing content is
/// never overwritten.
pub open spec fn store_data_m(m: StoreModel, bytes: Seq<u8>) -> StoreModel {
    let id = spec_data_id_hash(bytes);
    if m.data.dom().contains(id) {
        m
    } else {
        StoreModel { data: m.data.insert(id, bytes), ..m }
    }
}

/// The expression identifier of an expression tree, derived from its shape
/// alone: a reference to an existing identifier is returned unchanged, a
/// leaf's identifier is derived from the blob identifier it wraps, and a
/// composite's identifier is derived from the ordered sequence of its
/// children's identifiers.
pub open spec fn expr_id_of(e: Expr) -> u64
    decreases e,
{
    match e {
        Expr::ExprId(i) => i.0,
        Expr::DataId(d) => spec_leaf_id_hash(d.0),
        Expr::Compute(v) => spec_composite_id_hash(expr_ids_of(v@)),
    }
}

/// The expression identifiers of an ordered sequence of expression trees.
pub open spec fn expr_ids_of(es: Seq<Expr>) -> Seq<u64>
    decreases es,
{
    if es.len() == 0 {
        Seq::<u64>::empty()
    } else {
        expr_ids_of(es.drop_last()).push(expr_id_of(es.last()))
    }
}

/// The resolution map after recording that the leaf of blob `d` resolves to
/// `d`: a no-op when the leaf's identifier is already bound.
pub open spec fn leaf_insert_one(one: Map<u64, u64>, d: u64) -> Map<u64, u64> {
    let lid = spec_leaf_id_hash(d);
    if one.dom().contains(lid) {
        one
    } else {
        one.insert(lid, d)
    }
}

/// The resolution map after storing an expression tree: leaves record their
/// blob mapping, in depth-first order; references and composites add none.
pub open spec fn one_after(one: Map<u64, u64>, e: Expr) -> Map<u64, u64>
    decreases e,
{
    match e {
        Expr::ExprId(_) => one,
        Expr::DataId(d) => leaf_insert_one(one, d.0),
        Expr::Compute(v) => one_after_list(one, v@),
    }
}

/// The resolution map after storing a sequence of expression trees in
/// order.
pub open spec fn one_after_list(one: Map<u64, u64>, es: Seq<Expr>) -> Map<u64, u64>
    decreases es,
{
    if es.len() == 0 {
        one
    } else {
        one_after(one_after_list(one, es.drop_last()), es.last())
    }
}

/// Storing the expression raises no equivalence conflict: every leaf whose
/// identifier is already bound — in the store, or by an earlier leaf of the
/// same tree — is bound to the very blob identifier the leaf wraps.
pub open spec fn expr_ok(one: Map<u64, u64>, e: Expr) -> bool
    decreases e,
{
    match e {
        Expr::ExprId(_) => true,
        Expr::DataId(d) => one.dom().contains(spec_leaf_id_hash(d.0)) ==> one[spec_leaf_id_hash(
            d.0,
        )] == d.0,
        Expr::Compute(v) => list_ok(one, v@),
    }
}

/// Storing the sequence of expression trees in order raises no equivalence
/// conflict.
pub open spec fn list_ok(one: Map<u64, u64>, es: Seq<Expr>) -> bool
    decreases es,
{
    es.len() == 0 || (list_ok(one, es.drop_last()) && expr_ok(
        one_after_list(one, es.drop_last()),
        es.last(),
    ))
}

/// The first equivalence conflict that storing the expression would raise,
/// in depth-first leaf order: the offending leaf's identifier, the binding
/// in force at that point (recorded in the store, or proposed by an
/// earlier leaf of the same tree), and the blob identifier the offending
/// leaf proposes. `None` exactly when storing is conflict-free.
pub open spec fn first_conflict(one: Map<u64, u64>, e: Expr) -> Option<EquivalenceConflict>
    decreases e,
{
    match e {
        Expr::ExprId(_) => None,
        Expr::DataId(d) => {
            let lid = spec_leaf_id_hash(d.0);
            if one.dom().contains(lid) && one[lid] != d.0 {
                Some(EquivalenceConflict { key: lid, existing: one[lid], proposed: d.0 })
            } else {
                None
            }
        },
        Expr::Compute(v) => first_conflict_list(one, v@),
    }
}

/// The first conflict over the sequence of expression trees, threading the
/// leaf bindings that earlier trees propose.
pub open spec fn first_conflict_list(one: Map<u64, u64>, es: Seq<Expr>) -> Option<
    EquivalenceConflict,
>
    decreases es,
{
    if es.len() == 0 {
        None
    } else {
        match first_conflict(one, es.first()) {
            Some(c) => Some(c),
            None => first_conflict_list(one_after(one, es.first()), es.drop_first()),
        }
    }
}

/// The model after recording in the equivalence relation that expression
/// `b` resolves to blob `a`: a no-op when `b` is already bound.
pub open spec fn equiv_insert_m(m: StoreModel, a: u64, b: u64) -> StoreModel {
    if m.one.dom().contains(b) {
        m
    } else {
        StoreModel {
            one: m.one.insert(b, a),
            many: m.many.insert(
                a,
                (if m.many.dom().contains(a) {
                    m.many[a]
                } else {
                    Set::<u64>::empty()
                }).insert(b),
            ),
            ..m
        }
    }
}

/// The model after storing an expression tree, children before parents:
/// each leaf records its equivalence mapping, and each composite records
/// its ordered dependency list if absent (first insertion wins).
pub open spec fn store_expr_m(m: StoreModel, e: Expr) -> StoreModel
    decreases e,
{
    match e {
        Expr::ExprId(_) => m,
        Expr::DataId(d) => equiv_insert_m(m, d.0, spec_leaf_id_hash(d.0)),
        Expr::Compute(v) => {
            let m1 = store_list_m(m, v@);
            let cid = spec_composite_id_hash(expr_ids_of(v@));
            if m1.deps.dom().contains(cid) {
                m1
            } else {
                StoreModel { deps: m1.deps.insert(cid, expr_ids_of(v@)), ..m1 }
            }
        },
    }
}

/// The model after storing a sequence of expression trees in order.
pub open spec fn store_list_m(m: StoreModel, es: Seq<Expr>) -> StoreModel
    decreases es,
{
    if es.len() == 0 {
        m
    } else {
        store_expr_m(store_list_m(m, es.drop_last()), es.last())
    }
}

/// Storing an expression changes the resolution map exactly as
/// [`one_after`] says, and never touches the blob store.
pub proof fn lemma_store_expr_m_parts(m: StoreModel, e: Expr)
    ensures
        store_expr_m(m, e).one == one_after(m.one, e),
        store_expr_m(m, e).data == m.data,
    decreases e,
{
    match e {
        Expr::ExprId(_) => {},
        Expr::DataId(_) => {},
        Expr::Compute(v) => {
            lemma_store_list_m_parts(m, v@);
        },
    }
}

/// Storing a sequence of expressions changes the resolution map exactly as
/// [`one_after_list`] says, and never touches the blob store.
pub proof fn lemma_store_list_m_parts(m: StoreModel, es: Seq<Expr>)
    ensures
        store_list_m(m, es).one == one_after_list(m.one, es),
        store_list_m(m, es).data == m.data,
    decreases es,
{
    if es.len() == 0 {
    } else {
        lemma_store_list_m_parts(m, es.drop_last());
        lemma_store_expr_m_parts(store_list_m(m, es.drop_last()), es.last());
    }
}

/// A conflict-free sequence stays conflict-free when truncated.
pub proof fn lemma_list_ok_prefix(one: Map<u64, u64>, es: Seq<Expr>, i: int)
    requires
        0 <= i <= es.len(),
        list_ok(one, es),
    ensures
        list_ok(one, es.take(i)),
    decreases es.len() - i,
{
    if i == es.len() {
        assert(es.take(i) =~= es);
    } else {
        assert(es.drop_last().take(i) =~= es.take(i));
        lemma_list_ok_prefix(one, es.drop_last(), i);
    }
}

/// Every expression identifier with a recorded resolution has the byte
/// content of its blob present in the blob store. Holds of any store whose
/// resolved blobs have not been evicted with [`Store::remove_data`].
pub open spec fn resolved_have_bytes(m: StoreModel) -> bool {
    forall|e: u64| #[trigger] m.one.dom().contains(e) ==> m.data.dom().contains(m.one[e])
}

/// `p` steps through the dependency graph: each element's successor is one
/// of its recorded children.
pub open spec fn is_path(deps: Map<u64, Seq<u64>>, p: Seq<u64>) -> bool {
    forall|i: int|
        0 <= i < p.len() - 1 ==> deps.dom().contains(#[trigger] p[i]) && deps[p[i]].contains(
            p[i + 1],
        )
}

/// `to` lies on some dependency path out of `from` (reflexively).
pub open spec fn reaches(deps: Map<u64, Seq<u64>>, from: u64, to: u64) -> bool {
    exists|p: Seq<u64>|
        p.len() >= 1 && p.first() == from && p.last() == to && is_path(deps, p)
}

/// Every node reaches itself.
pub proof fn lemma_reaches_self(deps: Map<u64, Seq<u64>>, x: u64)
    ensures
        reaches(deps, x, x),
{
    let p: Seq<u64> = seq![x];
    assert(p.len() >= 1 && p.first() == x && p.last() == x && is_path(deps, p));
}

/// Reachability extends backwards across one dependency edge.
pub proof fn lemma_reaches_step(deps: Map<u64, Seq<u64>>, e: u64, c: u64, to: u64)
    requires
        deps.dom().contains(e),
        deps[e].contains(c),
        reaches(deps, c, to),
    ensures
        reaches(deps, e, to),
{
    let p = choose|p: Seq<u64>|
        p.len() >= 1 && p.first() == c && p.last() == to && is_path(deps, p);
    let q = seq![e] + p;
    assert(is_path(deps, q)) by {
        assert forall|i: int| 0 <= i < q.len() - 1 implies deps.dom().contains(#[trigger] q[i])
            && deps[q[i]].contains(q[i + 1]) by {
            if i == 0 {
                assert(q[0] == e && q[1] == p[0]);
            } else {
                assert(q[i] == p[i - 1] && q[i + 1] == p[i]);
            }
        }
    }
    assert(q.len() >= 1 && q.first() == e && q.last() == to && is_path(deps, q));
}

/// `rank` witnesses that the dependency graph is acyclic: each recorded
/// child ranks strictly below its parent.
pub open spec fn rank_ok(deps: Map<u64, Seq<u64>>, rank: Map<u64, nat>) -> bool {
    forall|e: u64, i: int|
        deps.dom().contains(e) && 0 <= i < deps[e].len() ==> rank[#[trigger] deps[e][i]] < rank[e]
}

/// The dependency graph admits a rank witness, hence holds no cycle. True
/// of every graph built by structural identifier derivation, where a
/// composite's identifier is derived from its children's identifiers.
pub open spec fn graph_ranked(deps: Map<u64, Seq<u64>>) -> bool {
    exists|rank: Map<u64, nat>| rank_ok(deps, rank)
}

/// Along any dependency path the rank never increases.
proof fn lemma_path_rank(deps: Map<u64, Seq<u64>>, rank: Map<u64, nat>, p: Seq<u64>)
    requires
        rank_ok(deps, rank),
        is_path(deps, p),
        p.len() >= 1,
    ensures
        rank[p.last()] <= rank[p.first()],
    decreases p.len(),
{
    if p.len() > 1 {
        assert(is_path(deps, p.drop_first())) by {
            assert forall|i: int|
                0 <= i < p.drop_first().len() - 1 implies deps.dom().contains(
                #[trigger] p.drop_first()[i],
            ) && deps[p.drop_first()[i]].contains(p.drop_first()[i + 1]) by {
                assert(p.drop_first()[i] == p[i + 1] && p.drop_first()[i + 1] == p[i + 2]);
            }
        }
        lemma_path_rank(deps, rank, p.drop_first());
        let c = p[1];
        assert(deps.dom().contains(p[0]) && deps[p[0]].contains(c));
        let i = choose|i: int| 0 <= i < deps[p[0]].len() && deps[p[0]][i] == c;
        assert(rank[deps[p[0]][i]] < rank[p[0]]);
        assert(p.drop_first().first() == c && p.drop_first().last() == p.last());
    }
}

/// A reachable node never ranks above its ancestor; in particular no node
/// both reaches and is a recorded child of the same node.
pub proof fn lemma_reaches_rank(deps: Map<u64, Seq<u64>>, rank: Map<u64, nat>, a: u64, b: u64)
    requires
        rank_ok(deps, rank),
        reaches(deps, a, b),
    ensures
        rank[b] <= rank[a],
{
    let p = choose|p: Seq<u64>|
        p.len() >= 1 && p.first() == a && p.last() == b && is_path(deps, p);
    lemma_path_rank(deps, rank, p);
}

/// The first unresolvable node that depth-first evaluation of `e` reaches,
/// scanning each node's recorded children in order and skipping resolved
/// nodes: `None` exactly when evaluation of `e` succeeds. Specified for
/// acyclic dependency graphs, through the rank witness.
pub open spec fn first_fail(m: StoreModel, rank: Map<u64, nat>, e: u64) -> Option<u64>
    decreases rank[e], m.deps[e].len() + 1,
        when rank_ok(m.deps, rank)
{
    if m.one.dom().contains(e) {
        None
    } else if !m.deps.dom().contains(e) {
        Some(e)
    } else {
        first_fail_from(m, rank, e, 0)
    }
}

/// The first unresolvable node reached by evaluating the children of `e`
/// from position `i` on, in order.
pub open spec fn first_fail_from(m: StoreModel, rank: Map<u64, nat>, e: u64, i: int) -> Option<u64>
    decreases rank[e], m.deps[e].len() - i,
        when rank_ok(m.deps, rank) && m.deps.dom().contains(e) && 0 <= i
{
    if i >= m.deps[e].len() {
        None
    } else {
        match first_fail(m, rank, m.deps[e][i]) {
            Some(x) => Some(x),
            None => first_fail_from(m, rank, e, i + 1),
        }
    }
}

/// The first failure does not depend on which rank witness measures the
/// graph.
pub proof fn lemma_first_fail_rank_indep(m: StoreModel, rk1: Map<u64, nat>, rk2: Map<u64, nat>, e: u64)
    requires
        rank_ok(m.deps, rk1),
        rank_ok(m.deps, rk2),
    ensures
        first_fail(m, rk2, e) == first_fail(m, rk1, e),
    decreases rk1[e], m.deps[e].len() + 1,
{
    if !m.one.dom().contains(e) && m.deps.dom().contains(e) {
        lemma_first_fail_from_rank_indep(m, rk1, rk2, e, 0);
    }
}

/// The first failure among the children from position `i` on does not
/// depend on the rank witness.
proof fn lemma_first_fail_from_rank_indep(
    m: StoreModel,
    rk1: Map<u64, nat>,
    rk2: Map<u64, nat>,
    e: u64,
    i: int,
)
    requires
        rank_ok(m.deps, rk1),
        rank_ok(m.deps, rk2),
        m.deps.dom().contains(e),
        0 <= i,
    ensures
        first_fail_from(m, rk2, e, i) == first_fail_from(m, rk1, e, i),
    decreases rk1[e], m.deps[e].len() - i,
{
    if i < m.deps[e].len() {
        assert(rk1[m.deps[e][i]] < rk1[e]);
        lemma_first_fail_rank_indep(m, rk1, rk2, m.deps[e][i]);
        if first_fail(m, rk1, m.deps[e][i]) is None {
            lemma_first_fail_from_rank_indep(m, rk1, rk2, e, i + 1);
        }
    }
}

/// Resolving nodes whose evaluation succeeds anyway never changes which
/// node fails first: evaluation against the grown store reaches the same
/// first unresolvable node as evaluation against the store it grew from.
pub proof fn lemma_first_fail_mono(m1: StoreModel, m2: StoreModel, rank: Map<u64, nat>, e: u64)
    requires
        rank_ok(m1.deps, rank),
        m2.deps == m1.deps,
        forall|k: u64| #[trigger] m1.one.dom().contains(k) ==> m2.one.dom().contains(k),
        forall|k: u64| #[trigger]
            m2.one.dom().contains(k) && !m1.one.dom().contains(k) ==> first_fail(
                m1,
                rank,
                k,
            ) is None,
    ensures
        first_fail(m2, rank, e) == first_fail(m1, rank, e),
    decreases rank[e], m1.deps[e].len() + 1,
{
    if !m2.one.dom().contains(e) && m1.deps.dom().contains(e) {
        lemma_first_fail_from_mono(m1, m2, rank, e, 0);
    }
}

/// The children's first failure, from position `i` on, is unchanged by
/// resolving nodes whose evaluation succeeds anyway.
proof fn lemma_first_fail_from_mono(
    m1: StoreModel,
    m2: StoreModel,
    rank: Map<u64, nat>,
    e: u64,
    i: int,
)
    requires
        rank_ok(m1.deps, rank),
        m2.deps == m1.deps,
        forall|k: u64| #[trigger] m1.one.dom().contains(k) ==> m2.one.dom().contains(k),
        forall|k: u64| #[trigger]
            m2.one.dom().contains(k) && !m1.one.dom().contains(k) ==> first_fail(
                m1,
                rank,
                k,
            ) is None,
        m1.deps.dom().contains(e),
        0 <= i,
    ensures
        first_fail_from(m2, rank, e, i) == first_fail_from(m1, rank, e, i),
    decreases rank[e], m1.deps[e].len() - i,
{
    if i < m1.deps[e].len() {
        assert(rank[m1.deps[e][i]] < rank[e]);
        lemma_first_fail_mono(m1, m2, rank, m1.deps[e][i]);
        if first_fail(m1, rank, m1.deps[e][i]) is None {
            lemma_first_fail_from_mono(m1, m2, rank, e, i + 1);
        }
    }
}

/// When the children before position `j` all evaluate, and the child at
/// `j` fails at node `x`, the scan from any position up to `j` reports
/// `x`.
proof fn lemma_scan_hits(m: StoreModel, rank: Map<u64, nat>, e: u64, i: int, j: int, x: u64)
    requires
        rank_ok(m.deps, rank),
        m.deps.dom().contains(e),
        0 <= i <= j < m.deps[e].len(),
        forall|k: int| i <= k < j ==> first_fail(m, rank, #[trigger] m.deps[e][k]) is None,
        first_fail(m, rank, m.deps[e][j]) == Some(x),
    ensures
        first_fail_from(m, rank, e, i) == Some(x),
    decreases j - i,
{
    if i < j {
        lemma_scan_hits(m, rank, e, i + 1, j, x);
    }
}

/// When every child from position `i` on evaluates, the scan reports no
/// failure.
proof fn lemma_scan_clear(m: StoreModel, rank: Map<u64, nat>, e: u64, i: int)
    requires
        rank_ok(m.deps, rank),
        m.deps.dom().contains(e),
        0 <= i <= m.deps[e].len(),
        forall|k: int| i <= k < m.deps[e].len() ==> first_fail(m, rank, #[trigger] m.deps[e][k]) is None,
    ensures
        first_fail_from(m, rank, e, i) is None,
    decreases m.deps[e].len() - i,
{
    if i < m.deps[e].len() {
        lemma_scan_clear(m, rank, e, i + 1);
    }
}

/// `m2` holds everything `m1` holds: the blob store and the equivalence
/// relation have only grown, and the dependency graph is unchanged.
pub open spec fn model_extends(m2: StoreModel, m1: StoreModel) -> bool {
    &&& forall|k: u64| #[trigger]
        m1.data.dom().contains(k) ==> m2.data.dom().contains(k) && m2.data[k] == m1.data[k]
    &&& forall|k: u64| #[trigger]
        m1.one.dom().contains(k) ==> m2.one.dom().contains(k) && m2.one[k] == m1.one[k]
    &&& m2.deps == m1.deps
    &&& forall|a: u64| #[trigger] m1.many.dom().contains(a) ==> m2.many.dom().contains(a)
    &&& forall|a: u64, b: u64|
        m1.many.dom().contains(a) && #[trigger] m1.many[a].contains(b) ==> m2.many[a].contains(b)
}

/// Extension is transitive.
pub proof fn lemma_extends_trans(m3: StoreModel, m2: StoreModel, m1: StoreModel)
    requires
        model_extends(m3, m2),
        model_extends(m2, m1),
    ensures
        model_extends(m3, m1),
{
}

/// The ordered byte contents of the blobs that the given expression
/// identifiers resolve to.
pub open spec fn child_blobs(m: StoreModel, ds: Seq<u64>) -> Seq<Seq<u8>> {
    ds.map(|i: int, c: u64| m.data[m.one[c]])
}

/// The recorded resolution of `e` is exactly what the evaluator's
/// specification demands: all recorded children of `e` are resolved with
/// their blob content present, and `e` resolves to the blob identifier
/// derived from reducing those contents in order, with that blob present.
pub open spec fn entry_justified(m: StoreModel, e: u64) -> bool {
    &&& m.deps.dom().contains(e)
    &&& forall|j: int|
        0 <= j < m.deps[e].len() ==> m.one.dom().contains(#[trigger] m.deps[e][j])
            && m.data.dom().contains(m.one[m.deps[e][j]])
    &&& m.one.dom().contains(e)
    &&& m.one[e] == spec_data_id_hash(spec_reduce_bytes(child_blobs(m, m.deps[e])))
    &&& m.data.dom().contains(m.one[e])
    &&& spec_data_id_hash(m.data[m.one[e]]) == m.one[e]
}

/// The bytes recorded under a justified entry's result identifier are the
/// reduction output itself — unless a different byte sequence with the
/// same derived identifier already occupied the blob store, a collision
/// that identifier derivation is trusted to exclude (stated as the
/// hypothesis below, exactly the trust the blob store's deduplication
/// already places in the derivation).
pub proof fn lemma_justified_content(m: StoreModel, e: u64)
    requires
        entry_justified(m, e),
        m.data[m.one[e]] != spec_reduce_bytes(child_blobs(m, m.deps[e]))
            ==> spec_data_id_hash(m.data[m.one[e]]) != spec_data_id_hash(
            spec_reduce_bytes(child_blobs(m, m.deps[e])),
        ),
    ensures
        m.data[m.one[e]] == spec_reduce_bytes(child_blobs(m, m.deps[e])),
{
}

/// A justified resolution stays justified as the store grows.
pub proof fn lemma_justified_monotone(m1: StoreModel, m2: StoreModel, e: u64)
    requires
        entry_justified(m1, e),
        model_extends(m2, m1),
    ensures
        entry_justified(m2, e),
{
    let ds = m1.deps[e];
    assert(m2.deps[e] == ds);
    assert forall|j: int| 0 <= j < ds.len() implies m2.one.dom().contains(#[trigger] ds[j])
        && m2.data.dom().contains(m2.one[ds[j]]) && m2.data[m2.one[ds[j]]] == m1.data[m1.one[
        ds[j]]] by {
        assert(m1.one.dom().contains(ds[j]));
        assert(m2.one[ds[j]] == m1.one[ds[j]]);
        assert(m1.data.dom().contains(m1.one[ds[j]]));
    }
    assert(child_blobs(m2, ds) =~= child_blobs(m1, ds));
}

/// A content-addressable memoization store.
pub struct Store {
    data: HashMap<u64, Vec<u8>>,
    depends_on: HashMap<u64, Vec<u64>>,
    data_classes: OneToManyMap,
}

impl View for Store {
    type V = StoreModel;

    closed spec fn view(&self) -> StoreModel {
        StoreModel {
            data: self.data@.map_values(|v: Vec<u8>| v@),
            deps: self.depends_on@.map_values(|v: Vec<u64>| v@),
            one: self.data_classes.one(),
            many: self.data_classes.many(),
        }
    }
}

impl Store {
    /// The store's internal consistency: the two directions of the
    /// equivalence relation index the same relation, and every stored blob
    /// sits under the identifier derived from its own content.
    pub closed spec fn wf(self) -> bool {
        &&& self.data_classes.wf()
        &&& forall|k: u64| #[trigger]
            self@.data.dom().contains(k) ==> spec_data_id_hash(self@.data[k]) == k
    }

    /// An empty store.
    pub fn new() -> (r: Store)
        ensures
            r.wf(),
            r@ == empty_model(),
    {
        let r = Store {
            data: HashMap::new(),
            depends_on: HashMap::new(),
            data_classes: OneToManyMap::new(),
        };
        proof {
            assert(r@ =~= empty_model());
        }
        r
    }

    /// Computes the blob identifier of `data`, records the owned content
    /// under it if absent, and returns the identifier. Idempotent: existing
    /// content is never overwritten.
    pub fn store_data(&mut self, data: &[u8]) -> (id: DataId)
        requires
            old(self).wf(),
        ensures
            final(self).wf(),
            id.0 == spec_data_id_hash(data@),
            final(self)@ == store_data_m(old(self)@, data@),
    {
        let h = data_id_hash(data);
        if !self.data.contains_key(&h) {
            let mut owned: Vec<u8> = Vec::new();
            let mut i: usize = 0;
            while i < data.len()
                invariant
                    i <= data@.len(),
                    owned@ == data@.take(i as int),
                decreases data@.len() - i,
            {
                owned.push(data[i]);
                proof {
                    assert(owned@ =~= data@.take(i + 1 as int));
                }
                i = i + 1;
            }
            proof {
                assert(owned@ =~= data@);
            }
            self.data.insert(h, owned);
            proof {
                assert(self@ =~= store_data_m(old(self)@, data@));
            }
        } else {
            proof {
                assert(self@ =~= store_data_m(old(self)@, data@));
            }
        }
        DataId(h)
    }

    /// Decides whether storing `e` would raise an equivalence conflict,
    /// against the store's bindings overlaid with the proposed leaf
    /// bindings accumulated in `scratch`; on success, extends `scratch`
    /// with the leaf bindings `e` itself proposes.
    #[verifier::loop_isolation(false)]
    fn expr_ok_rec(&self, e: &Expr, scratch: &mut HashMap<u64, u64>) -> (r: Result<
        (),
        EquivalenceConflict,
    >)
        ensures
            match r {
                Ok(_) => {
                    &&& expr_ok(self@.one.union_prefer_right(old(scratch)@), *e)
                    &&& first_conflict(self@.one.union_prefer_right(old(scratch)@), *e) is None
                    &&& self@.one.union_prefer_right(final(scratch)@) == one_after(
                        self@.one.union_prefer_right(old(scratch)@),
                        *e,
                    )
                },
                Err(c) => {
                    &&& !expr_ok(self@.one.union_prefer_right(old(scratch)@), *e)
                    &&& first_conflict(self@.one.union_prefer_right(old(scratch)@), *e) == Some(c)
                },
            },
        decreases *e,
    {
        match e {
            Expr::ExprId(_) => Ok(()),
            Expr::DataId(d) => {
                let lid = leaf_id_hash(d.0);
                let cur: Option<u64> = match scratch.get(&lid) {
                    Some(p) => Some(*p),
                    None => match self.data_classes.get_one(&lid) {
                        Some(a) => Some(a),
                        None => None,
                    },
                };
                match cur {
                    Some(prior) => {
                        if prior == d.0 {
                            Ok(())
                        } else {
                            Err(EquivalenceConflict { key: lid, existing: prior, proposed: d.0 })
                        }
                    },
                    None => {
                        scratch.insert(lid, d.0);
                        proof {
                            assert(self@.one.union_prefer_right(scratch@) =~= self@.one.union_prefer_right(
                                old(scratch)@,
                            ).insert(lid, d.0));
                        }
                        Ok(())
                    },
                }
            },
            Expr::Compute(v) => {
                let ghost base = self@.one.union_prefer_right(scratch@);
                proof {
                    assert(v@.skip(0) =~= v@);
                }
                let mut i: usize = 0;
                while i < v.len()
                    invariant
                        i <= v@.len(),
                        list_ok(base, v@.take(i as int)),
                        self@.one.union_prefer_right(scratch@) == one_after_list(
                            base,
                            v@.take(i as int),
                        ),
                        first_conflict_list(base, v@) == first_conflict_list(
                            self@.one.union_prefer_right(scratch@),
                            v@.skip(i as int),
                        ),
                    decreases v@.len() - i,
                {
                    proof {
                        assert(decreases_to!(*e => *v));
                        assert(decreases_to!(*v => v@));
                        assert(decreases_to!(v@ => v@[i as int]));
                    }
                    let ghost cur = self@.one.union_prefer_right(scratch@);
                    let step = self.expr_ok_rec(&v[i], scratch);
                    proof {
                        assert(v@.take(i + 1 as int).drop_last() =~= v@.take(i as int));
                        assert(v@.take(i + 1 as int).last() == v@[i as int]);
                        assert(v@.skip(i as int).first() == v@[i as int]);
                        assert(v@.skip(i as int).drop_first() =~= v@.skip(i + 1 as int));
                    }
                    match step {
                        Ok(_) => {},
                        Err(c) => {
                            proof {
                                if list_ok(base, v@) {
                                    lemma_list_ok_prefix(base, v@, i + 1 as int);
                                }
                                assert(first_conflict_list(cur, v@.skip(i as int)) == Some(c));
                            }
                            return Err(c);
                        },
                    }
                    i = i + 1;
                }
                proof {
                    assert(v@.take(v@.len() as int) =~= v@);
                    assert(v@.skip(v@.len() as int).len() == 0);
                }
                Ok(())
            },
        }
    }

    /// Recursively inserts a conflict-free expression tree, children before
    /// parents, and returns the root's identifier.
    #[verifier::loop_isolation(false)]
    fn store_expr_rec(&mut self, e: &Expr) -> (id: ExprId)
        requires
            old(self).wf(),
            expr_ok(old(self)@.one, *e),
        ensures
            final(self).wf(),
            id.0 == expr_id_of(*e),
            final(self)@ == store_expr_m(old(self)@, *e),
        decreases *e,
    {
        match e {
            Expr::ExprId(i) => *i,
            Expr::DataId(d) => {
                let lid = leaf_id_hash(d.0);
                let res = self.data_classes.insert(d.0, lid);
                match res {
                    Ok(_) => {},
                    Err(_) => {
                        proof {
                            assert(false);
                        }
                    },
                }
                proof {
                    assert(self@ =~= store_expr_m(old(self)@, *e));
                }
                ExprId(lid)
            },
            Expr::Compute(v) => {
                let mut ids: Vec<u64> = Vec::new();
                let mut i: usize = 0;
                while i < v.len()
                    invariant
                        i <= v@.len(),
                        self.wf(),
                        ids@ == expr_ids_of(v@.take(i as int)),
                        self@ == store_list_m(old(self)@, v@.take(i as int)),
                        list_ok(old(self)@.one, v@),
                    decreases v@.len() - i,
                {
                    proof {
                        assert(decreases_to!(*e => *v));
                        assert(decreases_to!(*v => v@));
                        assert(decreases_to!(v@ => v@[i as int]));
                        lemma_list_ok_prefix(old(self)@.one, v@, i + 1 as int);
                        assert(v@.take(i + 1 as int).drop_last() =~= v@.take(i as int));
                        assert(v@.take(i + 1 as int).last() == v@[i as int]);
                        lemma_store_list_m_parts(old(self)@, v@.take(i as int));
                    }
                    let cid = self.store_expr_rec(&v[i]);
                    ids.push(cid.0);
                    i = i + 1;
                }
                proof {
                    assert(v@.take(v@.len() as int) =~= v@);
                }
                let cid = composite_id_hash(&ids);
                if !self.depends_on.contains_key(&cid) {
                    self.depends_on.insert(cid, ids);
                }
                proof {
                    assert(self@ =~= store_expr_m(old(self)@, *e));
                }
                ExprId(cid)
            },
        }
    }

    /// Recursively inserts an expression tree and returns the root's
    /// identifier. Each leaf also records its equivalence mapping — a
    /// leaf's value is known without computation — and each composite
    /// records its ordered dependency list. When any leaf's identifier is
    /// already bound to a different blob identifier the whole insertion is
    /// refused with an [`EquivalenceConflict`] and the store is unchanged.
    pub fn store_expr(&mut self, expr: &Expr) -> (r: Result<ExprId, EquivalenceConflict>)
        requires
            old(self).wf(),
        ensures
            final(self).wf(),
            match r {
                Ok(id) => {
                    &&& expr_ok(old(self)@.one, *expr)
                    &&& id.0 == expr_id_of(*expr)
                    &&& final(self)@ == store_expr_m(old(self)@, *expr)
                },
                Err(c) => {
                    &&& !expr_ok(old(self)@.one, *expr)
                    &&& *final(self) == *old(self)
                    &&& first_conflict(old(self)@.one, *expr) == Some(c)
                },
            },
    {
        let mut scratch: HashMap<u64, u64> = HashMap::new();
        proof {
            assert(self@.one.union_prefer_right(scratch@) =~= self@.one);
        }
        match self.expr_ok_rec(expr, &mut scratch) {
            Ok(_) => Ok(self.store_expr_rec(expr)),
            Err(c) => Err(c),
        }
    }

    /// Resolves expression `expr_id` depth-first: returns its cached blob
    /// identifier if one is recorded, otherwise resolves the recorded
    /// children in order (failing fast on the first unresolvable node),
    /// reduces their byte contents, stores the resulting blob, and records
    /// the new equivalence. `rank` witnesses that the dependency graph is
    /// acyclic, which bounds the recursion.
    #[verifier::loop_isolation(false)]
    fn compute_rec(&mut self, expr_id: u64, Ghost(rank): Ghost<Map<u64, nat>>) -> (r: Result<
        u64,
        u64,
    >)
        requires
            old(self).wf(),
            resolved_have_bytes(old(self)@),
            rank_ok(old(self)@.deps, rank),
        ensures
            final(self).wf(),
            resolved_have_bytes(final(self)@),
            model_extends(final(self)@, old(self)@),
            forall|x: u64|
                #[trigger] final(self)@.one.dom().contains(x) && !old(self)@.one.dom().contains(x)
                    ==> entry_justified(final(self)@, x) && reaches(old(self)@.deps, expr_id, x)
                    && first_fail(old(self)@, rank, x) is None,
            old(self)@.one.dom().contains(expr_id) ==> *final(self) == *old(self) && r == Ok::<
                u64,
                u64,
            >(old(self)@.one[expr_id]),
            !old(self)@.one.dom().contains(expr_id) && !old(self)@.deps.dom().contains(expr_id)
                ==> r == Err::<u64, u64>(expr_id) && *final(self) == *old(self),
            match r {
                Ok(d) => final(self)@.one.dom().contains(expr_id) && final(self)@.one[expr_id] == d
                    && final(self)@.data.dom().contains(d) && first_fail(
                    old(self)@,
                    rank,
                    expr_id,
                ) is None,
                Err(x) => {
                    &&& !final(self)@.one.dom().contains(x)
                    &&& !final(self)@.deps.dom().contains(x)
                    &&& reaches(old(self)@.deps, expr_id, x)
                    &&& first_fail(old(self)@, rank, expr_id) == Some(x)
                },
            },
        decreases rank[expr_id],
    {
        let cached: Option<u64> = self.data_classes.get_one(&expr_id);
        match cached {
            Some(d) => {
                return Ok(d);
            },
            None => {},
        }
        let ds: Vec<u64>;
        match self.depends_on.get(&expr_id) {
            None => {
                proof {
                    lemma_reaches_self(old(self)@.deps, expr_id);
                }
                return Err(expr_id);
            },
            Some(dv) => {
                proof {
                    assert(self@.deps[expr_id] == dv@);
                }
                let mut tmp: Vec<u64> = Vec::new();
                let mut t: usize = 0;
                while t < dv.len()
                    invariant
                        t <= dv@.len(),
                        tmp@ == dv@.take(t as int),
                    decreases dv@.len() - t,
                {
                    tmp.push(dv[t]);
                    proof {
                        assert(tmp@ =~= dv@.take(t + 1 as int));
                    }
                    t = t + 1;
                }
                proof {
                    assert(dv@.take(dv@.len() as int) =~= dv@);
                }
                ds = tmp;
            },
        }
        proof {
            assert(ds@ == old(self)@.deps[expr_id]);
        }
        // Resolve each child in order, failing fast.
        let mut child_ids: Vec<u64> = Vec::new();
        let mut j: usize = 0;
        while j < ds.len()
            invariant
                j <= ds@.len(),
                child_ids@.len() == j as int,
                self.wf(),
                resolved_have_bytes(self@),
                model_extends(self@, old(self)@),
                forall|x: u64|
                    #[trigger] self@.one.dom().contains(x) && !old(self)@.one.dom().contains(x)
                        ==> entry_justified(self@, x) && reaches(old(self)@.deps, expr_id, x)
                        && first_fail(old(self)@, rank, x) is None,
                !self@.one.dom().contains(expr_id),
                forall|k: int|
                    0 <= k < j ==> self@.one.dom().contains(#[trigger] ds@[k]) && child_ids@[k]
                        == self@.one[ds@[k]],
                forall|k: int|
                    0 <= k < j ==> first_fail(old(self)@, rank, #[trigger] ds@[k]) is None,
            decreases ds@.len() - j,
        {
            let ghost mid = self@;
            proof {
                assert(old(self)@.deps[expr_id][j as int] == ds@[j as int]);
                assert(rank[ds@[j as int]] < rank[expr_id]);
            }
            let res = self.compute_rec(ds[j], Ghost(rank));
            proof {
                lemma_extends_trans(self@, mid, old(self)@);
                assert(old(self)@.deps[expr_id].contains(ds@[j as int]));
                lemma_first_fail_mono(old(self)@, mid, rank, ds@[j as int]);
                assert forall|x: u64|
                    self@.one.dom().contains(x) && !old(self)@.one.dom().contains(
                        x,
                    ) implies entry_justified(self@, x) && reaches(old(self)@.deps, expr_id, x)
                    && first_fail(old(self)@, rank, x) is None by {
                    if mid.one.dom().contains(x) {
                        lemma_justified_monotone(mid, self@, x);
                    } else {
                        lemma_reaches_step(old(self)@.deps, expr_id, ds@[j as int], x);
                        lemma_first_fail_mono(old(self)@, mid, rank, x);
                    }
                }
                if self@.one.dom().contains(expr_id) {
                    assert(reaches(old(self)@.deps, ds@[j as int], expr_id));
                    lemma_reaches_rank(old(self)@.deps, rank, ds@[j as int], expr_id);
                    assert(false);
                }
            }
            match res {
                Ok(d) => {
                    child_ids.push(d);
                },
                Err(x) => {
                    proof {
                        lemma_reaches_step(old(self)@.deps, expr_id, ds@[j as int], x);
                        assert(first_fail(old(self)@, rank, ds@[j as int]) == Some(x));
                        lemma_scan_hits(old(self)@, rank, expr_id, 0, j as int, x);
                    }
                    return Err(x);
                },
            }
            proof {
                assert forall|k: int|
                    0 <= k < j + 1 implies self@.one.dom().contains(#[trigger] ds@[k])
                    && child_ids@[k] == self@.one[ds@[k]] by {
                    if k < j {
                        assert(mid.one.dom().contains(ds@[k]));
                    }
                }
                assert forall|k: int| 0 <= k < j + 1 implies first_fail(
                    old(self)@,
                    rank,
                    #[trigger] ds@[k],
                ) is None by {}
            }
            j = j + 1;
        }
        // Fetch the resolved children's byte contents; every resolved blob
        // identifier has its bytes present.
        let ghost pre = self@;
        let mut child_bytes: Vec<&Vec<u8>> = Vec::new();
        let mut k: usize = 0;
        while k < child_ids.len()
            invariant
                k <= child_ids@.len(),
                child_bytes@.len() == k as int,
                forall|t: int|
                    0 <= t < k ==> (#[trigger] child_bytes@[t])@ == self@.data[child_ids@[t]],
            decreases child_ids@.len() - k,
        {
            proof {
                assert(self@.one.dom().contains(ds@[k as int]));
            }
            let b: &Vec<u8> = match self.data.get(&child_ids[k]) {
                Some(b) => b,
                None => {
                    proof {
                        assert(false);
                    }
                    return Err(expr_id);
                },
            };
            child_bytes.push(b);
            k = k + 1;
        }
        proof {
            assert forall|t: int| 0 <= t < ds@.len() implies child_bytes.deep_view()[t]
                == child_blobs(self@, ds@)[t] by {
                assert(child_bytes.deep_view()[t] == child_bytes@[t]@);
            }
            assert(child_bytes.deep_view() =~= child_blobs(self@, ds@));
        }
        // Reduce, store the result blob (never overwriting existing
        // content), and record the new equivalence.
        let out: Vec<u8> = pseudo_data_compute(&child_bytes);
        let d = data_id_hash(out.as_slice());
        proof {
            assert(out@ == spec_reduce_bytes(child_blobs(pre, ds@)));
        }
        if !self.data.contains_key(&d) {
            self.data.insert(d, out);
            proof {
                assert(self@.data =~= pre.data.insert(d, spec_reduce_bytes(
                    child_blobs(pre, ds@),
                )));
            }
        }
        let ghost withblob = self@;
        proof {
            assert(withblob.one == pre.one && withblob.deps == pre.deps && withblob.many
                == pre.many);
            assert(withblob.data.dom().contains(d));
            assert(child_blobs(withblob, ds@) =~= child_blobs(pre, ds@));
        }
        let ins = self.data_classes.insert(d, expr_id);
        match ins {
            Ok(_) => {},
            Err(_) => {
                proof {
                    assert(false);
                }
                return Err(expr_id);
            },
        }
        proof {
            assert(self@.one == withblob.one.insert(expr_id, d));
            assert(self@.data == withblob.data && self@.deps == withblob.deps);
            lemma_reaches_self(old(self)@.deps, expr_id);
            assert forall|t: int| 0 <= t < ds@.len() implies self@.one.dom().contains(
                #[trigger] ds@[t],
            ) && self@.one[ds@[t]] == withblob.one[ds@[t]] by {
                assert(rank[ds@[t]] < rank[expr_id]);
                assert(old(self)@.deps[expr_id][t] == ds@[t]);
            }
            assert(child_blobs(self@, ds@) =~= child_blobs(withblob, ds@));
            assert(entry_justified(self@, expr_id));
            assert(model_extends(withblob, pre));
            assert(model_extends(self@, withblob));
            lemma_scan_clear(old(self)@, rank, expr_id, 0);
            assert forall|x: u64|
                #[trigger] self@.one.dom().contains(x) && !old(self)@.one.dom().contains(
                    x,
                ) implies entry_justified(self@, x) && reaches(old(self)@.deps, expr_id, x)
                && first_fail(old(self)@, rank, x) is None by {
                if x != expr_id {
                    assert(pre.one.dom().contains(x));
                    assert(entry_justified(pre, x));
                    lemma_justified_monotone(pre, withblob, x);
                    lemma_justified_monotone(withblob, self@, x);
                }
            }
            lemma_extends_trans(self@, withblob, old(self)@);
        }
        Ok(d)
    }

    /// Resolves `expr_id` to the blob identifier of its evaluated result,
    /// returning the cached identifier when one is recorded, recursively
    /// resolving and reducing otherwise, and failing with the exact
    /// identifier of the first unresolvable node reached.
    pub fn compute_data(&mut self, expr_id: &ExprId) -> (r: Result<DataId, ExprId>)
        requires
            old(self).wf(),
            resolved_have_bytes(old(self)@),
            graph_ranked(old(self)@.deps),
        ensures
            final(self).wf(),
            resolved_have_bytes(final(self)@),
            model_extends(final(self)@, old(self)@),
            forall|x: u64| #![auto]
                final(self)@.one.dom().contains(x) && !old(self)@.one.dom().contains(x)
                    ==> entry_justified(final(self)@, x),
            old(self)@.one.dom().contains(expr_id.0) ==> *final(self) == *old(self) && r == Ok::<
                DataId,
                ExprId,
            >(DataId(old(self)@.one[expr_id.0])),
            !old(self)@.one.dom().contains(expr_id.0) && !old(self)@.deps.dom().contains(expr_id.0)
                ==> r == Err::<DataId, ExprId>(*expr_id) && *final(self) == *old(self),
            match r {
                Ok(d) => final(self)@.one.dom().contains(expr_id.0) && final(self)@.one[expr_id.0]
                    == d.0 && final(self)@.data.dom().contains(d.0),
                Err(x) => {
                    &&& !final(self)@.one.dom().contains(x.0)
                    &&& !final(self)@.deps.dom().contains(x.0)
                    &&& reaches(old(self)@.deps, expr_id.0, x.0)
                },
            },
            (forall|x: u64|
                reaches(old(self)@.deps, expr_id.0, x) ==> old(self)@.one.dom().contains(x) || old(
                    self,
                )@.deps.dom().contains(x)) ==> r is Ok,
            forall|rk: Map<u64, nat>| #[trigger]
                rank_ok(old(self)@.deps, rk) ==> match r {
                    Ok(_) => first_fail(old(self)@, rk, expr_id.0) is None,
                    Err(x) => first_fail(old(self)@, rk, expr_id.0) == Some(x.0),
                },
    {
        let ghost rank = choose|rank: Map<u64, nat>| rank_ok(old(self)@.deps, rank);
        let res = self.compute_rec(expr_id.0, Ghost(rank));
        proof {
            assert forall|rk: Map<u64, nat>| #[trigger] rank_ok(old(self)@.deps, rk) implies match res {
                Ok(_) => first_fail(old(self)@, rk, expr_id.0) is None,
                Err(x) => first_fail(old(self)@, rk, expr_id.0) == Some(x),
            } by {
                lemma_first_fail_rank_indep(old(self)@, rank, rk, expr_id.0);
            }
        }
        match res {
            Ok(d) => Ok(DataId(d)),
            Err(x) => Err(ExprId(x)),
        }
    }

    /// The byte content stored under `data_id`, if any.
    pub fn data_id_to_data(&self, data_id: &DataId) -> (r: Option<&Vec<u8>>)
        ensures
            match r {
                Some(bytes) => self@.data.dom().contains(data_id.0) && bytes@ == self@.data[
                    data_id.0],
                None => !self@.data.dom().contains(data_id.0),
            },
    {
        self.data.get(&data_id.0)
    }

    /// The blob identifier that `expr_id` is known to resolve to, if any;
    /// a cache lookup with no side effect.
    pub fn expr_to_data(&self, expr_id: &ExprId) -> (r: Option<DataId>)
        ensures
            match r {
                Some(d) => self@.one.dom().contains(expr_id.0) && self@.one[expr_id.0] == d.0,
                None => !self@.one.dom().contains(expr_id.0),
            },
    {
        match self.data_classes.get_one(&expr_id.0) {
            Some(a) => Some(DataId(a)),
            None => None,
        }
    }

    /// The set of expression identifiers known to resolve to `data_id`, if
    /// any have been recorded.
    pub fn data_to_expr(&self, data_id: &DataId) -> (r: Option<&HashSet<u64>>)
        ensures
            match r {
                Some(s) => self@.many.dom().contains(data_id.0) && s@ == self@.many[data_id.0],
                None => !self@.many.dom().contains(data_id.0),
            },
    {
        self.data_classes.get_many(&data_id.0)
    }

    /// Removes and returns the byte content stored under `data_id`, if
    /// present. The equivalence relation and the dependency graph are
    /// deliberately not cascaded: identifiers remain valid, but lookups of
    /// the evicted content fail.
    pub fn remove_data(&mut self, data_id: &DataId) -> (r: Option<Vec<u8>>)
        requires
            old(self).wf(),
        ensures
            final(self).wf(),
            final(self)@.data == old(self)@.data.remove(data_id.0),
            final(self)@.deps == old(self)@.deps,
            final(self)@.one == old(self)@.one,
            final(self)@.many == old(self)@.many,
            match r {
                Some(bytes) => old(self)@.data.dom().contains(data_id.0) && bytes@ == old(
                    self,
                )@.data[data_id.0],
                None => !old(self)@.data.dom().contains(data_id.0),
            },
    {
        let r = self.data.remove(&data_id.0);
        proof {
            assert(self@.data =~= old(self)@.data.remove(data_id.0));
        }
        r
    }
}

/// In a well-formed store the two directions of the equivalence relation
/// agree: expression `e` resolves to blob `d` exactly when `e` is a member
/// of `d`'s recorded expression set. This couples what
/// [`Store::expr_to_data`] reports with what [`Store::data_to_expr`]
/// reports.
pub proof fn lemma_resolution_directions_agree(s: Store, d: u64, e: u64)
    requires
        s.wf(),
    ensures
        (s@.one.dom().contains(e) && s@.one[e] == d) <==> (s@.many.dom().contains(d)
            && s@.many[d].contains(e)),
{
    crate::one_to_many_map::lemma_directions_agree(s.data_classes, d, e);
}

/// In a well-formed store every stored blob sits under the identifier
/// derived from its own content: the blob store never lies about identity.
pub proof fn lemma_stored_blob_coherent(s: Store, id: u64)
    requires
        s.wf(),
        s@.data.dom().contains(id),
    ensures
        spec_data_id_hash(s@.data[id]) == id,
{
}

impl DataId {
    /// The blob identifier derived from the exact byte content of `data`.
    pub fn new(data: &[u8]) -> (r: DataId)
        ensures
            r.0 == spec_data_id_hash(data@),
    {
        DataId(data_id_hash(data))
    }
}

impl Default for Store {
    fn default() -> (r: Store)
        ensures
            r.wf(),
            r@ == empty_model(),
    {
        Store::new()
    }
}

} // verus!
