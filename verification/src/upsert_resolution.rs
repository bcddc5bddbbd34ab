//! The upsert-resolution fixed-point engine.  A [`Generation`] collects the
//! placeholder-bearing terms of one transaction into populations at a single
//! evolutionary step; repeated evolution against per-round binding maps
//! resolves every placeholder into an upsert, a chained resolution, or a
//! pending fresh allocation.

use vstd::prelude::*;
use crate::assoc::{lemma_filter_empty, lemma_filter_push, lemma_map_values_push,
    lemma_subrange_all, lemma_subrange_push, lemma_subrange_zero};
use crate::errors::{DbError, DbErrorView};
use crate::internal_types::{concrete_terms_view, terms_view, EntityPlace, EntityPlaceView, OpType,
    TempIdMap, TermWithTempIds, TermWithTempIdsView, TermWithoutTempIds, TermWithoutTempIdsView,
    ValuePlace, ValuePlaceView};
use crate::types::{AVPair, Attribute, Entid, Schema, TempId, TypedValue, TypedValueView};

verus! {

/// A simple upsert candidate `[Add TEMPID a v]`, where `a` is
/// unique-identity: attribute and value are concrete, the entity is pending.
struct UpsertE {
    t: TempId,
    a: Entid,
    v: TypedValue,
}

/// A complex upsert candidate `[Add TEMPID a OTHERID]`, where `a` is
/// unique-identity and the value place is itself a placeholder.
struct UpsertEV {
    t1: TempId,
    a: Entid,
    t2: TempId,
}

/// The mathematical shape of a simple upsert candidate.
#[verifier::ext_equal]
pub struct UpsertEView {
    pub t: Seq<char>,
    pub a: Entid,
    pub v: TypedValueView,
}

/// The mathematical shape of a complex upsert candidate.
#[verifier::ext_equal]
pub struct UpsertEVView {
    pub t1: Seq<char>,
    pub a: Entid,
    pub t2: Seq<char>,
}

impl View for UpsertE {
    type V = UpsertEView;

    closed spec fn view(&self) -> UpsertEView {
        UpsertEView { t: self.t@, a: self.a, v: self.v@ }
    }
}

impl View for UpsertEV {
    type V = UpsertEVView;

    closed spec fn view(&self) -> UpsertEVView {
        UpsertEVView { t1: self.t1@, a: self.a, t2: self.t2@ }
    }
}

spec fn upserts_e_view(s: Seq<UpsertE>) -> Seq<UpsertEView> {
    s.map_values(|u: UpsertE| u@)
}

spec fn upserts_ev_view(s: Seq<UpsertEV>) -> Seq<UpsertEVView> {
    s.map_values(|u: UpsertEV| u@)
}

/// The complete working state of the fixed-point loop at one round,
/// partitioned into populations.
pub struct Generation {
    /// Simple upsert candidates.
    upserts_e: Vec<UpsertE>,
    /// Complex upsert candidates.
    upserts_ev: Vec<UpsertEV>,
    /// Terms that still reference at least one placeholder but are no longer
    /// eligible for the upsert-lookup fast path.
    allocations: Vec<TermWithTempIds>,
    /// Terms whose entity placeholder matched an existing store entity.
    /// These assertions are guaranteed to be in the store already.
    upserted: Vec<TermWithoutTempIds>,
    /// Terms whose placeholders were bound purely by chaining through other
    /// upserts.  These assertions may or may not be in the store.
    resolved: Vec<TermWithoutTempIds>,
}

/// The mathematical shape of a [`Generation`]: its five populations.
#[verifier::ext_equal]
pub struct GenerationView {
    pub upserts_e: Seq<UpsertEView>,
    pub upserts_ev: Seq<UpsertEVView>,
    pub allocations: Seq<TermWithTempIdsView>,
    pub upserted: Seq<TermWithoutTempIdsView>,
    pub resolved: Seq<TermWithoutTempIdsView>,
}

impl View for Generation {
    type V = GenerationView;

    closed spec fn view(&self) -> GenerationView {
        GenerationView {
            upserts_e: upserts_e_view(self.upserts_e@),
            upserts_ev: upserts_ev_view(self.upserts_ev@),
            allocations: terms_view(self.allocations@),
            upserted: concrete_terms_view(self.upserted@),
            resolved: concrete_terms_view(self.resolved@),
        }
    }
}

impl GenerationView {
    /// Whether the generation can evolve further: at least one simple or
    /// complex upsert candidate remains.
    pub open spec fn can_evolve(self) -> bool {
        self.upserts_e.len() > 0 || self.upserts_ev.len() > 0
    }
}

/// Terminal, placeholder-free output, ready to be persisted as one atomic
/// write.
#[derive(Debug, PartialEq)]
pub struct FinalPopulations {
    /// Upserts that upserted.
    pub upserted: Vec<TermWithoutTempIds>,
    /// Allocations that resolved due to other upserts.
    pub resolved: Vec<TermWithoutTempIds>,
    /// Allocations that required new entid allocations.
    pub allocated: Vec<TermWithoutTempIds>,
}

/// A term with no placeholder in either place is inert: it passes through
/// untouched and never enters any generation population.
pub open spec fn term_is_inert(t: TermWithTempIdsView) -> bool {
    t.e is Entid && t.v is Value
}

/// Whether the schema knows the attribute and flags it unique-identity.
pub open spec fn attr_is_unique_identity(a: Entid, schema: Map<Entid, Attribute>) -> bool {
    schema.contains_key(a) && schema[a].unique_identity
}

/// At the split, a term becomes a simple upsert candidate: an assertion with
/// a pending entity, a concrete value, and a unique-identity attribute.
pub open spec fn is_simple_upsert(t: TermWithTempIdsView, schema: Map<Entid, Attribute>) -> bool {
    t.op == OpType::Add && t.e is TempId && t.v is Value && attr_is_unique_identity(t.a, schema)
}

/// At the split, a term becomes a complex upsert candidate: an assertion
/// with both places pending and a unique-identity attribute.
pub open spec fn is_complex_upsert(t: TermWithTempIdsView, schema: Map<Entid, Attribute>) -> bool {
    t.op == OpType::Add && t.e is TempId && t.v is TempId && attr_is_unique_identity(t.a, schema)
}

/// At the split, every other placeholder-bearing term is a pending
/// allocation.  Retractions never become upsert candidates: retraction never
/// creates or discovers identity.
pub open spec fn is_pending_allocation(
    t: TermWithTempIdsView,
    schema: Map<Entid, Attribute>,
) -> bool {
    !term_is_inert(t) && !is_simple_upsert(t, schema) && !is_complex_upsert(t, schema)
}

/// The inertness test, as a function value.
pub open spec fn inert_pred() -> spec_fn(TermWithTempIdsView) -> bool {
    |t: TermWithTempIdsView| term_is_inert(t)
}

/// The simple-upsert test against a schema, as a function value.
pub open spec fn simple_pred(schema: Map<Entid, Attribute>) -> spec_fn(TermWithTempIdsView) -> bool {
    |t: TermWithTempIdsView| is_simple_upsert(t, schema)
}

/// The complex-upsert test against a schema, as a function value.
pub open spec fn complex_pred(schema: Map<Entid, Attribute>) -> spec_fn(
    TermWithTempIdsView,
) -> bool {
    |t: TermWithTempIdsView| is_complex_upsert(t, schema)
}

/// The pending-allocation test against a schema, as a function value.
pub open spec fn alloc_pred(schema: Map<Entid, Attribute>) -> spec_fn(TermWithTempIdsView) -> bool {
    |t: TermWithTempIdsView| is_pending_allocation(t, schema)
}

/// The split consults the schema only for assertions whose entity place is
/// pending; it succeeds exactly when every such attribute is known.
pub open spec fn split_ok(ts: Seq<TermWithTempIdsView>, schema: Map<Entid, Attribute>) -> bool {
    forall|i: int|
        0 <= i < ts.len() ==> (ts[i].op == OpType::Add && ts[i].e is TempId
            ==> schema.contains_key(ts[i].a))
}

/// Whether the split rejects this term: an assertion with a pending entity
/// place whose attribute the schema does not know.
pub open spec fn split_rejects(t: TermWithTempIdsView, schema: Map<Entid, Attribute>) -> bool {
    t.op == OpType::Add && t.e is TempId && !schema.contains_key(t.a)
}

/// The simple upsert candidate extracted from a term of that shape.
pub open spec fn upsert_e_of(t: TermWithTempIdsView) -> UpsertEView {
    UpsertEView { t: t.e->TempId_0, a: t.a, v: t.v->Value_0 }
}

/// The complex upsert candidate extracted from a term of that shape.
pub open spec fn upsert_ev_of(t: TermWithTempIdsView) -> UpsertEVView {
    UpsertEVView { t1: t.e->TempId_0, a: t.a, t2: t.v->TempId_0 }
}

/// The extraction of simple upsert candidates, as a function value.
pub open spec fn upsert_e_fn() -> spec_fn(TermWithTempIdsView) -> UpsertEView {
    |t: TermWithTempIdsView| upsert_e_of(t)
}

/// The extraction of complex upsert candidates, as a function value.
pub open spec fn upsert_ev_fn() -> spec_fn(TermWithTempIdsView) -> UpsertEVView {
    |t: TermWithTempIdsView| upsert_ev_of(t)
}

/// An entity place with any resolved placeholder substituted.
pub open spec fn subst_entity_place(
    e: EntityPlaceView,
    m: Map<Seq<char>, Entid>,
) -> EntityPlaceView {
    match e {
        EntityPlaceView::Entid(_) => e,
        EntityPlaceView::TempId(t) => if m.contains_key(t) {
            EntityPlaceView::Entid(m[t])
        } else {
            e
        },
    }
}

/// A value place with any resolved placeholder substituted: a placeholder in
/// the value place resolves to a reference to the bound entity.
pub open spec fn subst_value_place(v: ValuePlaceView, m: Map<Seq<char>, Entid>) -> ValuePlaceView {
    match v {
        ValuePlaceView::Value(_) => v,
        ValuePlaceView::TempId(t) => if m.contains_key(t) {
            ValuePlaceView::Value(TypedValueView::Ref(m[t]))
        } else {
            v
        },
    }
}

/// A term with every resolved placeholder substituted.
pub open spec fn subst_term(t: TermWithTempIdsView, m: Map<Seq<char>, Entid>) -> TermWithTempIdsView {
    TermWithTempIdsView {
        op: t.op,
        e: subst_entity_place(t.e, m),
        a: t.a,
        v: subst_value_place(t.v, m),
    }
}

/// The concrete term denoted by an inert term.
pub open spec fn to_concrete(t: TermWithTempIdsView) -> TermWithoutTempIdsView {
    TermWithoutTempIdsView { op: t.op, e: t.e->Entid_0, a: t.a, v: t.v->Value_0 }
}

/// A simple candidate whose placeholder resolved this round: the upserted
/// term, bound to the existing entity.
pub open spec fn upserted_of(u: UpsertEView, m: Map<Seq<char>, Entid>) -> TermWithoutTempIdsView {
    TermWithoutTempIdsView { op: OpType::Add, e: m[u.t], a: u.a, v: u.v }
}

/// A simple candidate whose placeholder did not resolve: downgraded to a
/// pending allocation.
pub open spec fn downgraded_of(u: UpsertEView) -> TermWithTempIdsView {
    TermWithTempIdsView {
        op: OpType::Add,
        e: EntityPlaceView::TempId(u.t),
        a: u.a,
        v: ValuePlaceView::Value(u.v),
    }
}

/// A complex candidate with both placeholders resolved: a chained
/// resolution, the value becoming a reference.
pub open spec fn ev_resolved_of(u: UpsertEVView, m: Map<Seq<char>, Entid>) -> TermWithoutTempIdsView {
    TermWithoutTempIdsView {
        op: OpType::Add,
        e: m[u.t1],
        a: u.a,
        v: TypedValueView::Ref(m[u.t2]),
    }
}

/// A complex candidate whose value placeholder alone resolved: a fresh
/// simple candidate for the next round.
pub open spec fn ev_to_simple_of(u: UpsertEVView, m: Map<Seq<char>, Entid>) -> UpsertEView {
    UpsertEView { t: u.t1, a: u.a, v: TypedValueView::Ref(m[u.t2]) }
}

/// A complex candidate whose value placeholder did not resolve: downgraded
/// to a pending allocation, its entity place substituted if it resolved.
pub open spec fn ev_alloc_of(u: UpsertEVView, m: Map<Seq<char>, Entid>) -> TermWithTempIdsView {
    TermWithTempIdsView {
        op: OpType::Add,
        e: if m.contains_key(u.t1) {
            EntityPlaceView::Entid(m[u.t1])
        } else {
            EntityPlaceView::TempId(u.t1)
        },
        a: u.a,
        v: ValuePlaceView::TempId(u.t2),
    }
}

/// Simple candidates whose placeholder resolved, as a function value.
pub open spec fn e_hit_pred(m: Map<Seq<char>, Entid>) -> spec_fn(UpsertEView) -> bool {
    |u: UpsertEView| m.contains_key(u.t)
}

/// Simple candidates whose placeholder did not resolve, as a function value.
pub open spec fn e_miss_pred(m: Map<Seq<char>, Entid>) -> spec_fn(UpsertEView) -> bool {
    |u: UpsertEView| !m.contains_key(u.t)
}

/// Complex candidates with both placeholders resolved, as a function value.
pub open spec fn ev_both_pred(m: Map<Seq<char>, Entid>) -> spec_fn(UpsertEVView) -> bool {
    |u: UpsertEVView| m.contains_key(u.t1) && m.contains_key(u.t2)
}

/// Complex candidates with only the value placeholder resolved, as a
/// function value.
pub open spec fn ev_chain_pred(m: Map<Seq<char>, Entid>) -> spec_fn(UpsertEVView) -> bool {
    |u: UpsertEVView| !m.contains_key(u.t1) && m.contains_key(u.t2)
}

/// Complex candidates whose value placeholder did not resolve, as a
/// function value.
pub open spec fn ev_alloc_pred(m: Map<Seq<char>, Entid>) -> spec_fn(UpsertEVView) -> bool {
    |u: UpsertEVView| !m.contains_key(u.t2)
}

/// Pending allocations that become fully concrete under the round's
/// bindings, as a function value.
pub open spec fn alloc_resolves_pred(m: Map<Seq<char>, Entid>) -> spec_fn(
    TermWithTempIdsView,
) -> bool {
    |t: TermWithTempIdsView| term_is_inert(subst_term(t, m))
}

/// Pending allocations that keep at least one placeholder under the round's
/// bindings, as a function value.
pub open spec fn alloc_stays_pred(m: Map<Seq<char>, Entid>) -> spec_fn(
    TermWithTempIdsView,
) -> bool {
    |t: TermWithTempIdsView| !term_is_inert(subst_term(t, m))
}

/// The upsert of a simple candidate, as a function value.
pub open spec fn upserted_fn(m: Map<Seq<char>, Entid>) -> spec_fn(
    UpsertEView,
) -> TermWithoutTempIdsView {
    |u: UpsertEView| upserted_of(u, m)
}

/// The downgrade of a simple candidate, as a function value.
pub open spec fn downgraded_fn() -> spec_fn(UpsertEView) -> TermWithTempIdsView {
    |u: UpsertEView| downgraded_of(u)
}

/// The chained resolution of a complex candidate, as a function value.
pub open spec fn ev_resolved_fn(m: Map<Seq<char>, Entid>) -> spec_fn(
    UpsertEVView,
) -> TermWithoutTempIdsView {
    |u: UpsertEVView| ev_resolved_of(u, m)
}

/// The re-classification of a complex candidate, as a function value.
pub open spec fn ev_to_simple_fn(m: Map<Seq<char>, Entid>) -> spec_fn(UpsertEVView) -> UpsertEView {
    |u: UpsertEVView| ev_to_simple_of(u, m)
}

/// The downgrade of a complex candidate, as a function value.
pub open spec fn ev_alloc_fn(m: Map<Seq<char>, Entid>) -> spec_fn(
    UpsertEVView,
) -> TermWithTempIdsView {
    |u: UpsertEVView| ev_alloc_of(u, m)
}

/// Substitution over a pending allocation, as a function value.
pub open spec fn subst_fn(m: Map<Seq<char>, Entid>) -> spec_fn(
    TermWithTempIdsView,
) -> TermWithTempIdsView {
    |t: TermWithTempIdsView| subst_term(t, m)
}

/// Substitution then conversion to a concrete term, as a function value.
pub open spec fn subst_concrete_fn(m: Map<Seq<char>, Entid>) -> spec_fn(
    TermWithTempIdsView,
) -> TermWithoutTempIdsView {
    |t: TermWithTempIdsView| to_concrete(subst_term(t, m))
}

/// One evolution step: the generation that results from rewriting every
/// population under this round's placeholder bindings.
///
/// - A simple candidate whose placeholder resolved moves to `upserted`; one
///   whose placeholder did not resolve is downgraded to a pending
///   allocation.
/// - A complex candidate moves to `resolved` when both placeholders
///   resolved, becomes a fresh simple candidate when only its value
///   placeholder resolved, and is downgraded to a pending allocation
///   otherwise.
/// - A pending allocation has every resolved placeholder substituted; it
///   moves to `resolved` when that leaves it fully concrete.
/// - Terms already upserted or resolved in earlier rounds are kept.
#[verifier::opaque]
pub open spec fn evolved(g: GenerationView, m: Map<Seq<char>, Entid>) -> GenerationView {
    GenerationView {
        upserts_e: g.upserts_ev.filter(ev_chain_pred(m)).map_values(ev_to_simple_fn(m)),
        upserts_ev: Seq::empty(),
        allocations: g.upserts_e.filter(e_miss_pred(m)).map_values(downgraded_fn())
            + g.upserts_ev.filter(ev_alloc_pred(m)).map_values(ev_alloc_fn(m))
            + g.allocations.filter(alloc_stays_pred(m)).map_values(subst_fn(m)),
        upserted: g.upserted + g.upserts_e.filter(e_hit_pred(m)).map_values(upserted_fn(m)),
        resolved: g.resolved + g.upserts_ev.filter(ev_both_pred(m)).map_values(ev_resolved_fn(m))
            + g.allocations.filter(alloc_resolves_pred(m)).map_values(subst_concrete_fn(m)),
    }
}

/// The generation the split yields: candidates and pending allocations drawn
/// from the placeholder-bearing terms, nothing upserted or resolved yet.
pub open spec fn split_generation(
    ts: Seq<TermWithTempIdsView>,
    schema: Map<Entid, Attribute>,
) -> GenerationView {
    GenerationView {
        upserts_e: ts.filter(simple_pred(schema)).map_values(upsert_e_fn()),
        upserts_ev: ts.filter(complex_pred(schema)).map_values(upsert_ev_fn()),
        allocations: ts.filter(alloc_pred(schema)),
        upserted: Seq::empty(),
        resolved: Seq::empty(),
    }
}

/// Law: splitting is blind to inert terms.  A term with no placeholders on
/// either side always appears, unchanged, at the end of the inert
/// population, and leaves every population of the generation exactly as it
/// was.
pub proof fn lemma_inert_split_idempotent(
    ts: Seq<TermWithTempIdsView>,
    t: TermWithTempIdsView,
    schema: Map<Entid, Attribute>,
)
    requires
        term_is_inert(t),
    ensures
        split_generation(ts.push(t), schema) == split_generation(ts, schema),
        ts.push(t).filter(inert_pred()) == ts.filter(inert_pred()).push(t),
{
    lemma_filter_push(ts, t, simple_pred(schema));
    lemma_filter_push(ts, t, complex_pred(schema));
    lemma_filter_push(ts, t, alloc_pred(schema));
    lemma_filter_push(ts, t, inert_pred());
    assert(split_generation(ts.push(t), schema) =~= split_generation(ts, schema));
}

/// A retraction some of whose placeholders are outside the allocation set:
/// they never became known, so the retraction cannot be applied.
pub open spec fn retract_unresolvable(t: TermWithTempIdsView, dom: Set<Seq<char>>) -> bool {
    t.op == OpType::Retract && ((t.e is TempId && !dom.contains(t.e->TempId_0)) || (t.v is TempId
        && !dom.contains(t.v->TempId_0)))
}

/// The placeholder reported for such a retraction: the entity-place one if
/// that is outside the set, the value-place one otherwise.
pub open spec fn offending_tempid_in(t: TermWithTempIdsView, dom: Set<Seq<char>>) -> Seq<char> {
    if t.e is TempId && !dom.contains(t.e->TempId_0) {
        t.e->TempId_0
    } else {
        t.v->TempId_0
    }
}

/// The lookup key a simple candidate contributes: its placeholder and its
/// attribute/value pair.
pub open spec fn av_of(u: UpsertEView) -> (Seq<char>, (Entid, TypedValueView)) {
    (u.t, (u.a, u.v))
}

/// The lookup key of a simple candidate, as a function value.
pub open spec fn av_fn() -> spec_fn(UpsertEView) -> (Seq<char>, (Entid, TypedValueView)) {
    |u: UpsertEView| av_of(u)
}

/// The views of a sequence of placeholder/lookup-pair entries.
pub open spec fn avs_view(s: Seq<(TempId, AVPair)>) -> Seq<(Seq<char>, (Entid, TypedValueView))> {
    s.map_values(|p: (TempId, AVPair)| (p.0@, (p.1.0, p.1.1@)))
}

/// The views of a sequence of placeholders.
pub open spec fn tempids_view(s: Seq<TempId>) -> Seq<Seq<char>> {
    s.map_values(|t: TempId| t@)
}

/// Whether an assertion pending allocation mentions this placeholder in
/// either place.  Retractions never allocate: they have to resolve through
/// other upserts or fail the transaction.
pub open spec fn mentions_for_alloc(t: TermWithTempIdsView, x: Seq<char>) -> bool {
    t.op == OpType::Add && (t.e == EntityPlaceView::TempId(x) || t.v == ValuePlaceView::TempId(x))
}

/// The set of placeholders that still require fresh entid allocation.
pub open spec fn alloc_tempids(s: Seq<TermWithTempIdsView>) -> Set<Seq<char>> {
    Set::new(|x: Seq<char>| exists|i: int| 0 <= i < s.len() && mentions_for_alloc(s[i], x))
}

/// The sequence extended by the placeholder, unless it is already present.
pub open spec fn push_unique(xs: Seq<Seq<char>>, x: Seq<char>) -> Seq<Seq<char>> {
    if xs.contains(x) {
        xs
    } else {
        xs.push(x)
    }
}

/// The placeholders a term contributes to the allocation list: for an
/// assertion, its pending entity place then its pending value place, each
/// only on first occurrence.
pub open spec fn collect_alloc_tempids(
    xs: Seq<Seq<char>>,
    t: TermWithTempIdsView,
) -> Seq<Seq<char>> {
    let xs1 = if t.op == OpType::Add && t.e is TempId {
        push_unique(xs, t.e->TempId_0)
    } else {
        xs
    };
    if t.op == OpType::Add && t.v is TempId {
        push_unique(xs1, t.v->TempId_0)
    } else {
        xs1
    }
}

/// The distinct placeholders that still require fresh allocation, in order
/// of first occurrence.
pub open spec fn alloc_tempid_seq(s: Seq<TermWithTempIdsView>) -> Seq<Seq<char>>
    decreases s.len(),
{
    if s.len() == 0 {
        Seq::empty()
    } else {
        collect_alloc_tempids(alloc_tempid_seq(s.drop_last()), s.last())
    }
}

/// The allocation placeholder list never repeats a placeholder.
pub proof fn lemma_alloc_tempid_seq_distinct(s: Seq<TermWithTempIdsView>)
    ensures
        forall|i: int, j: int|
            0 <= i < j < alloc_tempid_seq(s).len() ==> alloc_tempid_seq(s)[i]
                != alloc_tempid_seq(s)[j],
    decreases s.len(),
{
    if s.len() > 0 {
        lemma_alloc_tempid_seq_distinct(s.drop_last());
        let xs = alloc_tempid_seq(s.drop_last());
        lemma_push_unique_distinct(xs, s.last().e->TempId_0);
        lemma_push_unique_distinct(push_unique(xs, s.last().e->TempId_0), s.last().v->TempId_0);
        lemma_push_unique_distinct(xs, s.last().v->TempId_0);
    }
}

/// Adding a fresh placeholder keeps the entries pairwise distinct.
proof fn lemma_push_unique_distinct(xs: Seq<Seq<char>>, x: Seq<char>)
    requires
        forall|i: int, j: int| 0 <= i < j < xs.len() ==> xs[i] != xs[j],
    ensures
        forall|i: int, j: int|
            0 <= i < j < push_unique(xs, x).len() ==> push_unique(xs, x)[i] != push_unique(
                xs,
                x,
            )[j],
{
    if !xs.contains(x) {
        assert forall|i: int, j: int|
            0 <= i < j < xs.push(x).len() implies xs.push(x)[i] != xs.push(x)[j] by {
            if j == xs.len() {
                assert(!(exists|k: int| 0 <= k < xs.len() && xs[k] == x));
                assert(xs[i] != x);
            }
        }
    }
}

/// A placeholder is in the allocation list exactly when some assertion
/// pending allocation mentions it.
pub proof fn lemma_alloc_tempid_seq_set(s: Seq<TermWithTempIdsView>)
    ensures
        forall|x: Seq<char>|
            alloc_tempid_seq(s).contains(x) <==> alloc_tempids(s).contains(x),
    decreases s.len(),
{
    if s.len() == 0 {
        assert forall|x: Seq<char>| !alloc_tempid_seq(s).contains(x) by {
        }
        assert forall|x: Seq<char>| !alloc_tempids(s).contains(x) by {
        }
    } else {
        let d = s.drop_last();
        let t = s.last();
        lemma_alloc_tempid_seq_set(d);
        let xs = alloc_tempid_seq(d);
        assert forall|x: Seq<char>|
            alloc_tempid_seq(s).contains(x) implies alloc_tempids(s).contains(x) by {
            lemma_push_unique_contains(xs, t.e->TempId_0, x);
            lemma_push_unique_contains(xs, t.v->TempId_0, x);
            lemma_push_unique_contains(push_unique(xs, t.e->TempId_0), t.v->TempId_0, x);
            if xs.contains(x) {
                assert(alloc_tempids(d).contains(x));
                let i = choose|i: int| 0 <= i < d.len() && mentions_for_alloc(d[i], x);
                assert(mentions_for_alloc(s[i], x));
            } else {
                assert(mentions_for_alloc(t, x));
                assert(mentions_for_alloc(s[s.len() - 1], x));
            }
        }
        assert forall|x: Seq<char>|
            alloc_tempids(s).contains(x) implies alloc_tempid_seq(s).contains(x) by {
            lemma_push_unique_contains(xs, t.e->TempId_0, x);
            lemma_push_unique_contains(xs, t.v->TempId_0, x);
            lemma_push_unique_contains(push_unique(xs, t.e->TempId_0), t.v->TempId_0, x);
            let i = choose|i: int| 0 <= i < s.len() && mentions_for_alloc(s[i], x);
            if i < s.len() - 1 {
                assert(d[i] == s[i]);
                assert(alloc_tempids(d).contains(x));
                assert(xs.contains(x));
            } else {
                assert(mentions_for_alloc(t, x));
            }
        }
    }
}

/// Membership in a conditionally extended list.
proof fn lemma_push_unique_contains(xs: Seq<Seq<char>>, y: Seq<char>, x: Seq<char>)
    ensures
        push_unique(xs, y).contains(x) <==> (xs.contains(x) || x == y),
{
    if xs.contains(x) {
        let i = choose|i: int| 0 <= i < xs.len() && xs[i] == x;
        if !xs.contains(y) {
            assert(xs.push(y)[i] == x);
        }
    }
    if !xs.contains(y) {
        assert(xs.push(y)[xs.len() as int] == y);
        if push_unique(xs, y).contains(x) && x != y {
            let i = choose|i: int| 0 <= i < xs.push(y).len() && xs.push(y)[i] == x;
            assert(xs[i] == x);
        }
    }
}

/// Every placeholder an assertion pending allocation mentions is bound by
/// the map.
pub open spec fn add_tempids_bound(s: Seq<TermWithTempIdsView>, m: Map<Seq<char>, Entid>) -> bool {
    forall|x: Seq<char>| alloc_tempids(s).contains(x) ==> m.contains_key(x)
}

/// A retraction some of whose placeholders stay unbound under the map:
/// retracting a fact about an entity that was never established.
pub open spec fn retract_unbound(t: TermWithTempIdsView, m: Map<Seq<char>, Entid>) -> bool {
    t.op == OpType::Retract && !term_is_inert(subst_term(t, m))
}

/// The placeholder reported for an offending retraction: the entity-place
/// one if that is unbound, the value-place one otherwise.
pub open spec fn offending_tempid(t: TermWithTempIdsView, m: Map<Seq<char>, Entid>) -> Seq<char> {
    if t.e is TempId && !m.contains_key(t.e->TempId_0) {
        t.e->TempId_0
    } else {
        t.v->TempId_0
    }
}

impl Default for Generation {
    /// The generation with every population empty.
    fn default() -> (d: Generation)
        ensures
            d@.upserts_e == Seq::<UpsertEView>::empty(),
            d@.upserts_ev == Seq::<UpsertEVView>::empty(),
            d@.allocations == Seq::<TermWithTempIdsView>::empty(),
            d@.upserted == Seq::<TermWithoutTempIdsView>::empty(),
            d@.resolved == Seq::<TermWithoutTempIdsView>::empty(),
    {
        let d = Generation {
            upserts_e: Vec::new(),
            upserts_ev: Vec::new(),
            allocations: Vec::new(),
            upserted: Vec::new(),
            resolved: Vec::new(),
        };
        proof {
            assert(d@.upserts_e =~= Seq::<UpsertEView>::empty());
            assert(d@.upserts_ev =~= Seq::<UpsertEVView>::empty());
            assert(d@.allocations =~= Seq::<TermWithTempIdsView>::empty());
            assert(d@.upserted =~= Seq::<TermWithoutTempIdsView>::empty());
            assert(d@.resolved =~= Seq::<TermWithoutTempIdsView>::empty());
        }
        d
    }
}

/// Whether this placeholder already occurs in the collected sequence.
#[verifier::loop_isolation(false)]
fn tempid_vec_contains(v: &Vec<TempId>, t: &TempId) -> (r: bool)
    ensures
        r == tempids_view(v@).contains(t@),
{
    let n = v.len();
    let mut i: usize = 0;
    while i < n
        invariant
            i <= n,
            forall|j: int| 0 <= j < i ==> tempids_view(v@)[j] != t@,
        decreases n - i,
    {
        if v[i].eq(t) {
            proof {
                assert(tempids_view(v@)[i as int] == t@);
            }
            return true;
        }
        i += 1;
    }
    false
}

impl Generation {
    /// Split terms into a generation of populations that need to evolve to
    /// have their placeholders resolved or allocated, and a population of
    /// inert terms that do not reference placeholders.  Fails exactly when
    /// an assertion with a pending entity place carries an attribute the
    /// schema does not know; the error names the first such attribute.
    #[verifier::loop_isolation(false)]
    pub fn from(terms: Vec<TermWithTempIds>, schema: &Schema) -> (r: Result<
        (Generation, Vec<TermWithTempIds>),
        DbError,
    >)
        requires
            schema.wf(),
        ensures
            match r {
                Ok(p) => {
                    &&& split_ok(terms_view(terms@), schema@)
                    &&& p.0@ == split_generation(terms_view(terms@), schema@)
                    &&& p.0@.upserts_e == terms_view(terms@).filter(
                        simple_pred(schema@),
                    ).map_values(upsert_e_fn())
                    &&& p.0@.upserts_ev == terms_view(terms@).filter(
                        complex_pred(schema@),
                    ).map_values(upsert_ev_fn())
                    &&& p.0@.allocations == terms_view(terms@).filter(alloc_pred(schema@))
                    &&& p.0@.upserted == Seq::<TermWithoutTempIdsView>::empty()
                    &&& p.0@.resolved == Seq::<TermWithoutTempIdsView>::empty()
                    &&& terms_view(p.1@) == terms_view(terms@).filter(inert_pred())
                },
                Err(e) => {
                    &&& !split_ok(terms_view(terms@), schema@)
                    &&& exists|i: int|
                        {
                            &&& 0 <= i < terms_view(terms@).len()
                            &&& split_rejects(terms_view(terms@)[i], schema@)
                            &&& (forall|j: int|
                                0 <= j < i ==> !split_rejects(terms_view(terms@)[j], schema@))
                            &&& e@ == DbErrorView::UnknownAttribute(terms_view(terms@)[i].a)
                        }
                },
            },
    {
        let ghost tv = terms_view(terms@);
        let mut upserts_e: Vec<UpsertE> = Vec::new();
        let mut upserts_ev: Vec<UpsertEV> = Vec::new();
        let mut allocations: Vec<TermWithTempIds> = Vec::new();
        let mut inert: Vec<TermWithTempIds> = Vec::new();

        let n = terms.len();
        let mut i: usize = 0;
        while i < n
            invariant
                i <= n,
                upserts_e_view(upserts_e@) == tv.subrange(0, i as int).filter(
                    simple_pred(schema@),
                ).map_values(upsert_e_fn()),
                upserts_ev_view(upserts_ev@) == tv.subrange(0, i as int).filter(
                    complex_pred(schema@),
                ).map_values(upsert_ev_fn()),
                terms_view(allocations@) == tv.subrange(0, i as int).filter(alloc_pred(schema@)),
                terms_view(inert@) == tv.subrange(0, i as int).filter(inert_pred()),
                forall|j: int| 0 <= j < i ==> !split_rejects(tv[j], schema@),
            decreases n - i,
        {
            let term = terms[i].clone();
            proof {
                assert(tv[i as int] == terms@[i as int]@);
                assert(term@ == tv[i as int]);
                let prefix = tv.subrange(0, i as int);
                lemma_subrange_push(tv, i as int);
                lemma_filter_push(prefix, tv[i as int], simple_pred(schema@));
                lemma_filter_push(prefix, tv[i as int], complex_pred(schema@));
                lemma_filter_push(prefix, tv[i as int], alloc_pred(schema@));
                lemma_filter_push(prefix, tv[i as int], inert_pred());
                lemma_map_values_push(
                    prefix.filter(simple_pred(schema@)),
                    tv[i as int],
                    upsert_e_fn(),
                );
                lemma_map_values_push(
                    prefix.filter(complex_pred(schema@)),
                    tv[i as int],
                    upsert_ev_fn(),
                );
            }
            let is_entity_pending = matches!(term.e, EntityPlace::TempId(_));
            if is_entity_pending && matches!(term.op, OpType::Add) {
                // Only assertions with a pending entity place consult the schema.
                let unique = match schema.attribute_for_entid(term.a) {
                    Some(attribute) => attribute.unique_identity,
                    None => {
                        return Err(DbError::UnknownAttribute(term.a));
                    },
                };
                let a = term.a;
                if unique {
                    match (term.e, term.v) {
                        (EntityPlace::TempId(t), ValuePlace::Value(v)) => {
                            let u = UpsertE { t, a, v };
                            proof {
                                assert(u@ == upsert_e_of(tv[i as int]));
                            }
                            upserts_e.push(u);
                            proof {
                                assert(upserts_e_view(upserts_e@) =~= upserts_e_view(
                                    upserts_e@.drop_last(),
                                ).push(upserts_e@.last()@));
                            }
                        },
                        (EntityPlace::TempId(t1), ValuePlace::TempId(t2)) => {
                            let u = UpsertEV { t1, a, t2 };
                            proof {
                                assert(u@ == upsert_ev_of(tv[i as int]));
                            }
                            upserts_ev.push(u);
                            proof {
                                assert(upserts_ev_view(upserts_ev@) =~= upserts_ev_view(
                                    upserts_ev@.drop_last(),
                                ).push(upserts_ev@.last()@));
                            }
                        },
                        _ => {
                            proof {
                                assert(false);
                            }
                        },
                    }
                } else {
                    proof {
                        assert(is_pending_allocation(tv[i as int], schema@));
                    }
                    allocations.push(term);
                    proof {
                        assert(terms_view(allocations@) =~= terms_view(allocations@.drop_last()).push(
                            allocations@.last()@,
                        ));
                    }
                }
            } else if is_entity_pending {
                // A retraction with a pending entity place: never a candidate.
                allocations.push(term);
                proof {
                    assert(terms_view(allocations@) =~= terms_view(allocations@.drop_last()).push(
                        allocations@.last()@,
                    ));
                }
            } else {
                match term.v {
                    ValuePlace::TempId(_) => {
                        allocations.push(term);
                        proof {
                            assert(terms_view(allocations@) =~= terms_view(
                                allocations@.drop_last(),
                            ).push(allocations@.last()@));
                        }
                    },
                    ValuePlace::Value(_) => {
                        inert.push(term);
                        proof {
                            assert(terms_view(inert@) =~= terms_view(inert@.drop_last()).push(
                                inert@.last()@,
                            ));
                        }
                    },
                }
            }
            i += 1;
        }
        proof {
            lemma_subrange_all(tv);
            assert(concrete_terms_view(Seq::<TermWithoutTempIds>::empty())
                =~= Seq::<TermWithoutTempIdsView>::empty());
        }
        let generation = Generation {
            upserts_e,
            upserts_ev,
            allocations,
            upserted: Vec::new(),
            resolved: Vec::new(),
        };
        proof {
            assert(generation@ =~= split_generation(tv, schema@));
        }
        Ok((generation, inert))
    }

    /// Return true if it's possible to evolve this generation further: there
    /// is at least one simple or complex upsert candidate left.
    pub fn can_evolve(&self) -> (r: bool)
        ensures
            r == self@.can_evolve(),
    {
        !self.upserts_e.is_empty() || !self.upserts_ev.is_empty()
    }

    /// Evolve this generation one step further by rewriting the existing
    /// populations using the given per-round placeholder bindings: the
    /// result is exactly [`evolved`] of this generation and the map.
    #[verifier::loop_isolation(false)]
    pub fn evolve_one_step(self, temp_id_map: &TempIdMap) -> (next: Generation)
        requires
            temp_id_map.wf(),
        ensures
            next@ == evolved(self@, temp_id_map@),
    {
        let ghost g = self@;
        let ghost m = temp_id_map@;
        let Generation { upserts_e, upserts_ev, allocations, upserted, resolved } = self;
        proof {
            assert(g.upserts_e == upserts_e_view(upserts_e@));
            assert(g.upserts_ev == upserts_ev_view(upserts_ev@));
            assert(g.allocations == terms_view(allocations@));
            lemma_subrange_zero(g.upserts_e);
            lemma_subrange_zero(g.upserts_ev);
            lemma_subrange_zero(g.allocations);
            lemma_filter_empty(e_hit_pred(m));
            lemma_filter_empty(e_miss_pred(m));
            lemma_filter_empty(ev_both_pred(m));
            lemma_filter_empty(ev_chain_pred(m));
            lemma_filter_empty(ev_alloc_pred(m));
            lemma_filter_empty(alloc_resolves_pred(m));
            lemma_filter_empty(alloc_stays_pred(m));
        }
        let mut next_upserts_e: Vec<UpsertE> = Vec::new();
        let mut next_allocations: Vec<TermWithTempIds> = Vec::new();
        let mut next_upserted: Vec<TermWithoutTempIds> = upserted;
        let mut next_resolved: Vec<TermWithoutTempIds> = resolved;
        proof {
            assert(concrete_terms_view(next_upserted@) =~= g.upserted + g.upserts_e.subrange(
                0,
                0,
            ).filter(e_hit_pred(m)).map_values(upserted_fn(m)));
            assert(terms_view(next_allocations@) =~= g.upserts_e.subrange(0, 0).filter(
                e_miss_pred(m),
            ).map_values(downgraded_fn()));
        }

        // Simple candidates: upsert on a hit, downgrade on a miss.
        let n_e = upserts_e.len();
        let mut i: usize = 0;
        while i < n_e
            invariant
                i <= n_e,
                concrete_terms_view(next_upserted@) == g.upserted + g.upserts_e.subrange(
                    0,
                    i as int,
                ).filter(e_hit_pred(m)).map_values(upserted_fn(m)),
                terms_view(next_allocations@) == g.upserts_e.subrange(0, i as int).filter(
                    e_miss_pred(m),
                ).map_values(downgraded_fn()),
            decreases n_e - i,
        {
            proof {
                assert(g.upserts_e[i as int] == upserts_e@[i as int]@);
                let prefix = g.upserts_e.subrange(0, i as int);
                lemma_subrange_push(g.upserts_e, i as int);
                lemma_filter_push(prefix, g.upserts_e[i as int], e_hit_pred(m));
                lemma_filter_push(prefix, g.upserts_e[i as int], e_miss_pred(m));
                lemma_map_values_push(
                    prefix.filter(e_hit_pred(m)),
                    g.upserts_e[i as int],
                    upserted_fn(m),
                );
                lemma_map_values_push(
                    prefix.filter(e_miss_pred(m)),
                    g.upserts_e[i as int],
                    downgraded_fn(),
                );
            }
            match temp_id_map.get(&upserts_e[i].t) {
                Some(n) => {
                    let term = TermWithoutTempIds {
                        op: OpType::Add,
                        e: n,
                        a: upserts_e[i].a,
                        v: upserts_e[i].v.clone(),
                    };
                    proof {
                        assert(term@ == upserted_of(g.upserts_e[i as int], m));
                    }
                    let ghost prev = next_upserted@;
                    next_upserted.push(term);
                    proof {
                        assert(next_upserted@ == prev.push(term));
                        assert(concrete_terms_view(next_upserted@) =~= concrete_terms_view(prev).push(term@));
                        assert(concrete_terms_view(next_upserted@) =~= g.upserted
                            + g.upserts_e.subrange(0, i as int + 1).filter(
                            e_hit_pred(m),
                        ).map_values(upserted_fn(m)));
                    }
                },
                None => {
                    let term = TermWithTempIds {
                        op: OpType::Add,
                        e: EntityPlace::TempId(upserts_e[i].t.clone()),
                        a: upserts_e[i].a,
                        v: ValuePlace::Value(upserts_e[i].v.clone()),
                    };
                    proof {
                        assert(term@ == downgraded_of(g.upserts_e[i as int]));
                    }
                    let ghost prev = next_allocations@;
                    next_allocations.push(term);
                    proof {
                        assert(next_allocations@ == prev.push(term));
                        assert(terms_view(next_allocations@) =~= terms_view(prev).push(term@));
                        assert(terms_view(next_allocations@) =~= g.upserts_e.subrange(
                            0,
                            i as int + 1,
                        ).filter(e_miss_pred(m)).map_values(downgraded_fn()));
                    }
                },
            }
            i += 1;
        }
        proof {
            lemma_subrange_all(g.upserts_e);
        }

        // Complex candidates: resolve, re-classify, or downgrade.
        let ghost e_allocs = g.upserts_e.filter(e_miss_pred(m)).map_values(downgraded_fn());
        proof {
            assert(upserts_e_view(next_upserts_e@) =~= g.upserts_ev.subrange(0, 0).filter(
                ev_chain_pred(m),
            ).map_values(ev_to_simple_fn(m)));
            assert(concrete_terms_view(next_resolved@) =~= g.resolved + g.upserts_ev.subrange(
                0,
                0,
            ).filter(ev_both_pred(m)).map_values(ev_resolved_fn(m)));
            assert(terms_view(next_allocations@) =~= e_allocs + g.upserts_ev.subrange(0, 0).filter(
                ev_alloc_pred(m),
            ).map_values(ev_alloc_fn(m)));
        }
        let n_ev = upserts_ev.len();
        let mut j: usize = 0;
        while j < n_ev
            invariant
                j <= n_ev,
                concrete_terms_view(next_upserted@) == g.upserted + g.upserts_e.filter(
                    e_hit_pred(m),
                ).map_values(upserted_fn(m)),
                upserts_e_view(next_upserts_e@) == g.upserts_ev.subrange(0, j as int).filter(
                    ev_chain_pred(m),
                ).map_values(ev_to_simple_fn(m)),
                concrete_terms_view(next_resolved@) == g.resolved + g.upserts_ev.subrange(
                    0,
                    j as int,
                ).filter(ev_both_pred(m)).map_values(ev_resolved_fn(m)),
                terms_view(next_allocations@) == e_allocs + g.upserts_ev.subrange(0, j as int).filter(
                    ev_alloc_pred(m),
                ).map_values(ev_alloc_fn(m)),
            decreases n_ev - j,
        {
            proof {
                assert(g.upserts_ev[j as int] == upserts_ev@[j as int]@);
                let prefix = g.upserts_ev.subrange(0, j as int);
                lemma_subrange_push(g.upserts_ev, j as int);
                lemma_filter_push(prefix, g.upserts_ev[j as int], ev_both_pred(m));
                lemma_filter_push(prefix, g.upserts_ev[j as int], ev_chain_pred(m));
                lemma_filter_push(prefix, g.upserts_ev[j as int], ev_alloc_pred(m));
                lemma_map_values_push(
                    prefix.filter(ev_both_pred(m)),
                    g.upserts_ev[j as int],
                    ev_resolved_fn(m),
                );
                lemma_map_values_push(
                    prefix.filter(ev_chain_pred(m)),
                    g.upserts_ev[j as int],
                    ev_to_simple_fn(m),
                );
                lemma_map_values_push(
                    prefix.filter(ev_alloc_pred(m)),
                    g.upserts_ev[j as int],
                    ev_alloc_fn(m),
                );
            }
            let a = upserts_ev[j].a;
            match temp_id_map.get(&upserts_ev[j].t1) {
                Some(n1) => {
                    match temp_id_map.get(&upserts_ev[j].t2) {
                        Some(n2) => {
                            let term = TermWithoutTempIds {
                                op: OpType::Add,
                                e: n1,
                                a,
                                v: TypedValue::Ref(n2),
                            };
                            proof {
                                assert(term@ == ev_resolved_of(g.upserts_ev[j as int], m));
                            }
                            let ghost prev = next_resolved@;
                            next_resolved.push(term);
                            proof {
                                assert(next_resolved@ == prev.push(term));
                                assert(concrete_terms_view(next_resolved@) =~= concrete_terms_view(prev).push(term@));
                                assert(concrete_terms_view(next_resolved@) =~= g.resolved
                                    + g.upserts_ev.subrange(0, j as int + 1).filter(
                                    ev_both_pred(m),
                                ).map_values(ev_resolved_fn(m)));
                            }
                        },
                        None => {
                            let term = TermWithTempIds {
                                op: OpType::Add,
                                e: EntityPlace::Entid(n1),
                                a,
                                v: ValuePlace::TempId(upserts_ev[j].t2.clone()),
                            };
                            proof {
                                assert(term@ == ev_alloc_of(g.upserts_ev[j as int], m));
                            }
                            let ghost prev = next_allocations@;
                            next_allocations.push(term);
                            proof {
                                assert(next_allocations@ == prev.push(term));
                                assert(terms_view(next_allocations@) =~= terms_view(prev).push(term@));
                                assert(terms_view(next_allocations@) =~= e_allocs
                                    + g.upserts_ev.subrange(0, j as int + 1).filter(
                                    ev_alloc_pred(m),
                                ).map_values(ev_alloc_fn(m)));
                            }
                        },
                    }
                },
                None => {
                    match temp_id_map.get(&upserts_ev[j].t2) {
                        Some(n2) => {
                            let u = UpsertE {
                                t: upserts_ev[j].t1.clone(),
                                a,
                                v: TypedValue::Ref(n2),
                            };
                            proof {
                                assert(u@ == ev_to_simple_of(g.upserts_ev[j as int], m));
                            }
                            let ghost prev = next_upserts_e@;
                            next_upserts_e.push(u);
                            proof {
                                assert(next_upserts_e@ == prev.push(u));
                                assert(upserts_e_view(next_upserts_e@) =~= upserts_e_view(prev).push(u@));
                                assert(upserts_e_view(next_upserts_e@) =~= g.upserts_ev.subrange(
                                    0,
                                    j as int + 1,
                                ).filter(ev_chain_pred(m)).map_values(ev_to_simple_fn(m)));
                            }
                        },
                        None => {
                            let term = TermWithTempIds {
                                op: OpType::Add,
                                e: EntityPlace::TempId(upserts_ev[j].t1.clone()),
                                a,
                                v: ValuePlace::TempId(upserts_ev[j].t2.clone()),
                            };
                            proof {
                                assert(term@ == ev_alloc_of(g.upserts_ev[j as int], m));
                            }
                            let ghost prev = next_allocations@;
                            next_allocations.push(term);
                            proof {
                                assert(next_allocations@ == prev.push(term));
                                assert(terms_view(next_allocations@) =~= terms_view(prev).push(term@));
                                assert(terms_view(next_allocations@) =~= e_allocs
                                    + g.upserts_ev.subrange(0, j as int + 1).filter(
                                    ev_alloc_pred(m),
                                ).map_values(ev_alloc_fn(m)));
                            }
                        },
                    }
                },
            }
            j += 1;
        }
        proof {
            lemma_subrange_all(g.upserts_ev);
        }

        // Pending allocations: substitute resolved placeholders; a term that
        // becomes fully concrete moves to `resolved`.
        let ghost ev_allocs = g.upserts_ev.filter(ev_alloc_pred(m)).map_values(ev_alloc_fn(m));
        let ghost ev_resolved = g.upserts_ev.filter(ev_both_pred(m)).map_values(ev_resolved_fn(m));
        proof {
            assert(concrete_terms_view(next_resolved@) =~= g.resolved + ev_resolved
                + g.allocations.subrange(0, 0).filter(alloc_resolves_pred(m)).map_values(
                subst_concrete_fn(m),
            ));
            assert(terms_view(next_allocations@) =~= e_allocs + ev_allocs + g.allocations.subrange(
                0,
                0,
            ).filter(alloc_stays_pred(m)).map_values(subst_fn(m)));
        }
        let n_al = allocations.len();
        let mut k: usize = 0;
        while k < n_al
            invariant
                k <= n_al,
                concrete_terms_view(next_upserted@) == g.upserted + g.upserts_e.filter(
                    e_hit_pred(m),
                ).map_values(upserted_fn(m)),
                upserts_e_view(next_upserts_e@) == g.upserts_ev.filter(ev_chain_pred(m)).map_values(
                    ev_to_simple_fn(m),
                ),
                concrete_terms_view(next_resolved@) == g.resolved + ev_resolved
                    + g.allocations.subrange(0, k as int).filter(alloc_resolves_pred(m)).map_values(
                    subst_concrete_fn(m),
                ),
                terms_view(next_allocations@) == e_allocs + ev_allocs + g.allocations.subrange(
                    0,
                    k as int,
                ).filter(alloc_stays_pred(m)).map_values(subst_fn(m)),
            decreases n_al - k,
        {
            proof {
                assert(g.allocations[k as int] == allocations@[k as int]@);
                let prefix = g.allocations.subrange(0, k as int);
                lemma_subrange_push(g.allocations, k as int);
                lemma_filter_push(prefix, g.allocations[k as int], alloc_resolves_pred(m));
                lemma_filter_push(prefix, g.allocations[k as int], alloc_stays_pred(m));
                lemma_map_values_push(
                    prefix.filter(alloc_resolves_pred(m)),
                    g.allocations[k as int],
                    subst_concrete_fn(m),
                );
                lemma_map_values_push(
                    prefix.filter(alloc_stays_pred(m)),
                    g.allocations[k as int],
                    subst_fn(m),
                );
            }
            let ghost t0 = g.allocations[k as int];
            let term = allocations[k].clone();
            proof {
                assert(term@ == t0);
            }
            let op = term.op;
            let a = term.a;
            let e2 = match term.e {
                EntityPlace::Entid(e) => EntityPlace::Entid(e),
                EntityPlace::TempId(t) => match temp_id_map.get(&t) {
                    Some(n) => EntityPlace::Entid(n),
                    None => EntityPlace::TempId(t),
                },
            };
            proof {
                assert(e2@ == subst_entity_place(t0.e, m));
            }
            let v2 = match term.v {
                ValuePlace::Value(v) => ValuePlace::Value(v),
                ValuePlace::TempId(t) => match temp_id_map.get(&t) {
                    Some(n) => ValuePlace::Value(TypedValue::Ref(n)),
                    None => ValuePlace::TempId(t),
                },
            };
            proof {
                assert(v2@ == subst_value_place(t0.v, m));
            }
            match e2 {
                EntityPlace::Entid(ec) => {
                    match v2 {
                        ValuePlace::Value(vc) => {
                            let done = TermWithoutTempIds { op, e: ec, a, v: vc };
                            proof {
                                assert(term_is_inert(subst_term(t0, m)));
                                assert(done@ == to_concrete(subst_term(t0, m)));
                            }
                            let ghost prev = next_resolved@;
                            next_resolved.push(done);
                            proof {
                                assert(next_resolved@ == prev.push(done));
                                assert(concrete_terms_view(next_resolved@) =~= concrete_terms_view(prev).push(done@));
                                assert(concrete_terms_view(next_resolved@) =~= g.resolved
                                    + ev_resolved + g.allocations.subrange(0, k as int + 1).filter(
                                    alloc_resolves_pred(m),
                                ).map_values(subst_concrete_fn(m)));
                            }
                        },
                        ValuePlace::TempId(tt) => {
                            let stays = TermWithTempIds {
                                op,
                                e: EntityPlace::Entid(ec),
                                a,
                                v: ValuePlace::TempId(tt),
                            };
                            proof {
                                assert(!term_is_inert(subst_term(t0, m)));
                                assert(stays@ == subst_term(t0, m));
                            }
                            let ghost prev = next_allocations@;
                            next_allocations.push(stays);
                            proof {
                                assert(next_allocations@ == prev.push(stays));
                                assert(terms_view(next_allocations@) =~= terms_view(prev).push(stays@));
                                assert(terms_view(next_allocations@) =~= e_allocs + ev_allocs
                                    + g.allocations.subrange(0, k as int + 1).filter(
                                    alloc_stays_pred(m),
                                ).map_values(subst_fn(m)));
                            }
                        },
                    }
                },
                EntityPlace::TempId(tt) => {
                    let stays = TermWithTempIds { op, e: EntityPlace::TempId(tt), a, v: v2 };
                    proof {
                        assert(!term_is_inert(subst_term(t0, m)));
                        assert(stays@ == subst_term(t0, m));
                    }
                    let ghost prev = next_allocations@;
                    next_allocations.push(stays);
                    proof {
                        assert(next_allocations@ == prev.push(stays));
                        assert(terms_view(next_allocations@) =~= terms_view(prev).push(stays@));
                        assert(terms_view(next_allocations@) =~= e_allocs + ev_allocs
                            + g.allocations.subrange(0, k as int + 1).filter(
                            alloc_stays_pred(m),
                        ).map_values(subst_fn(m)));
                    }
                },
            }
            k += 1;
        }
        proof {
            lemma_subrange_all(g.allocations);
        }

        let next = Generation {
            upserts_e: next_upserts_e,
            upserts_ev: Vec::new(),
            allocations: next_allocations,
            upserted: next_upserted,
            resolved: next_resolved,
        };
        proof {
            reveal(evolved);
            assert(upserts_ev_view(Seq::<UpsertEV>::empty()) =~= Seq::<UpsertEVView>::empty());
            assert(next@ =~= evolved(g, m));
        }
        next
    }

    /// Collect the (placeholder, attribute/value pair) lookups that might
    /// upsert at this evolutionary step: one per simple candidate, in order.
    #[verifier::loop_isolation(false)]
    pub fn temp_id_avs(&self) -> (r: Vec<(TempId, AVPair)>)
        ensures
            avs_view(r@) == self@.upserts_e.map_values(av_fn()),
    {
        let ghost g = self@;
        let mut r: Vec<(TempId, AVPair)> = Vec::new();
        proof {
            assert(avs_view(r@) =~= g.upserts_e.subrange(0, 0).map_values(av_fn()));
        }
        let n = self.upserts_e.len();
        let mut i: usize = 0;
        while i < n
            invariant
                i <= n,
                avs_view(r@) == g.upserts_e.subrange(0, i as int).map_values(av_fn()),
            decreases n - i,
        {
            proof {
                assert(g.upserts_e[i as int] == self.upserts_e@[i as int]@);
                lemma_subrange_push(g.upserts_e, i as int);
                lemma_map_values_push(
                    g.upserts_e.subrange(0, i as int),
                    g.upserts_e[i as int],
                    av_fn(),
                );
            }
            let pair = (self.upserts_e[i].t.clone(), (self.upserts_e[i].a, self.upserts_e[i].v.clone()));
            let ghost prev = r@;
            r.push(pair);
            proof {
                assert(r@ == prev.push(pair));
                assert(avs_view(r@) =~= avs_view(prev).push((pair.0@, (pair.1.0, pair.1.1@))));
                assert((pair.0@, (pair.1.0, pair.1.1@)) == av_of(g.upserts_e[i as int]));
            }
            i += 1;
        }
        proof {
            lemma_subrange_all(g.upserts_e);
        }
        r
    }

    /// After evolution is complete, yield the distinct placeholders that
    /// require fresh entid allocation, in order of first occurrence: those
    /// that appear in assertions still pending allocation but never upserted
    /// to existing entids.
    #[verifier::loop_isolation(false)]
    pub fn temp_ids_in_allocations(&self) -> (r: Vec<TempId>)
        requires
            self@.upserts_e.len() == 0,
            self@.upserts_ev.len() == 0,
        ensures
            tempids_view(r@) == alloc_tempid_seq(self@.allocations),
    {
        let ghost g = self@;
        let mut r: Vec<TempId> = Vec::new();
        proof {
            assert(g.allocations.subrange(0, 0) =~= Seq::<TermWithTempIdsView>::empty());
            assert(tempids_view(r@) =~= alloc_tempid_seq(g.allocations.subrange(0, 0)));
        }
        let n = self.allocations.len();
        let mut k: usize = 0;
        while k < n
            invariant
                k <= n,
                tempids_view(r@) == alloc_tempid_seq(g.allocations.subrange(0, k as int)),
            decreases n - k,
        {
            proof {
                assert(g.allocations[k as int] == self.allocations@[k as int]@);
                lemma_subrange_push(g.allocations, k as int);
                assert(g.allocations.subrange(0, k as int + 1).drop_last() =~= g.allocations.subrange(
                    0,
                    k as int,
                ));
            }
            let ghost t0 = g.allocations[k as int];
            let ghost xs = alloc_tempid_seq(g.allocations.subrange(0, k as int));
            let term = &self.allocations[k];
            if matches!(term.op, OpType::Add) {
                match &term.e {
                    EntityPlace::TempId(t) => {
                        proof {
                            assert(t@ == t0.e->TempId_0);
                        }
                        if !tempid_vec_contains(&r, t) {
                            let ghost prev = r@;
                            r.push(t.clone());
                            proof {
                                assert(r@ == prev.push(term.e->TempId_0));
                                assert(tempids_view(r@) =~= tempids_view(prev).push(t@));
                            }
                        }
                        proof {
                            assert(tempids_view(r@) == push_unique(xs, t0.e->TempId_0));
                        }
                    },
                    EntityPlace::Entid(_) => {},
                }
                let ghost xs1 = if t0.op == OpType::Add && t0.e is TempId {
                    push_unique(xs, t0.e->TempId_0)
                } else {
                    xs
                };
                proof {
                    assert(tempids_view(r@) == xs1);
                }
                match &term.v {
                    ValuePlace::TempId(t) => {
                        proof {
                            assert(t@ == t0.v->TempId_0);
                        }
                        if !tempid_vec_contains(&r, t) {
                            let ghost prev = r@;
                            r.push(t.clone());
                            proof {
                                assert(r@ == prev.push(term.v->TempId_0));
                                assert(tempids_view(r@) =~= tempids_view(prev).push(t@));
                            }
                        }
                        proof {
                            assert(tempids_view(r@) == push_unique(xs1, t0.v->TempId_0));
                        }
                    },
                    ValuePlace::Value(_) => {},
                }
            }
            proof {
                assert(tempids_view(r@) == collect_alloc_tempids(xs, t0));
                assert(tempids_view(r@) == alloc_tempid_seq(g.allocations.subrange(0, k as int + 1)));
            }
            k += 1;
        }
        proof {
            lemma_subrange_all(g.allocations);
        }
        r
    }

    /// After evolution is complete, use the provided allocated entids to
    /// segment this generation into final populations with no references to
    /// placeholders.  Every placeholder of an assertion must be bound by
    /// now; a retraction whose placeholder never became known is rejected
    /// with [`DbError::UnresolvedRetractTempId`], naming the first such
    /// placeholder.
    #[verifier::loop_isolation(false)]
    pub fn into_final_populations(self, temp_id_map: &TempIdMap) -> (r: Result<
        FinalPopulations,
        DbError,
    >)
        requires
            temp_id_map.wf(),
            self@.upserts_e.len() == 0,
            self@.upserts_ev.len() == 0,
            add_tempids_bound(self@.allocations, temp_id_map@),
        ensures
            match r {
                Ok(p) => {
                    &&& forall|i: int|
                        0 <= i < self@.allocations.len() ==> !retract_unbound(
                            self@.allocations[i],
                            temp_id_map@,
                        )
                    &&& concrete_terms_view(p.upserted@) == self@.upserted
                    &&& concrete_terms_view(p.resolved@) == self@.resolved
                    &&& concrete_terms_view(p.allocated@) == self@.allocations.map_values(
                        subst_concrete_fn(temp_id_map@),
                    )
                },
                Err(e) => exists|i: int|
                    {
                        &&& 0 <= i < self@.allocations.len()
                        &&& retract_unbound(self@.allocations[i], temp_id_map@)
                        &&& (forall|j: int|
                            0 <= j < i ==> !retract_unbound(self@.allocations[j], temp_id_map@))
                        &&& e@ == DbErrorView::UnresolvedRetractTempId(
                            offending_tempid(self@.allocations[i], temp_id_map@),
                        )
                    },
            },
    {
        let ghost g = self@;
        let ghost m = temp_id_map@;
        let Generation { upserts_e: _, upserts_ev: _, allocations, upserted, resolved } = self;
        proof {
            assert(g.allocations == terms_view(allocations@));
        }
        let mut allocated: Vec<TermWithoutTempIds> = Vec::new();
        proof {
            assert(concrete_terms_view(allocated@) =~= g.allocations.subrange(0, 0).map_values(
                subst_concrete_fn(m),
            ));
        }
        let n = allocations.len();
        let mut k: usize = 0;
        while k < n
            invariant
                k <= n,
                concrete_terms_view(allocated@) == g.allocations.subrange(0, k as int).map_values(
                    subst_concrete_fn(m),
                ),
                forall|j: int| 0 <= j < k ==> !retract_unbound(g.allocations[j], m),
            decreases n - k,
        {
            proof {
                assert(g.allocations[k as int] == allocations@[k as int]@);
                lemma_subrange_push(g.allocations, k as int);
                lemma_map_values_push(
                    g.allocations.subrange(0, k as int),
                    g.allocations[k as int],
                    subst_concrete_fn(m),
                );
            }
            let ghost t0 = g.allocations[k as int];
            let term = allocations[k].clone();
            proof {
                assert(term@ == t0);
                if t0.op == OpType::Add {
                    // Every placeholder of an assertion is bound: it is in
                    // the allocation set, which the map covers.
                    if t0.e is TempId {
                        assert(mentions_for_alloc(t0, t0.e->TempId_0));
                        assert(alloc_tempids(g.allocations).contains(t0.e->TempId_0));
                    }
                    if t0.v is TempId {
                        assert(mentions_for_alloc(t0, t0.v->TempId_0));
                        assert(alloc_tempids(g.allocations).contains(t0.v->TempId_0));
                    }
                }
            }
            let op = term.op;
            let a = term.a;
            let e2 = match term.e {
                EntityPlace::Entid(e) => e,
                EntityPlace::TempId(t) => match temp_id_map.get(&t) {
                    Some(n1) => n1,
                    None => {
                        // An assertion's placeholder always resolved or was
                        // allocated; only a retraction can fail here.
                        return Err(DbError::UnresolvedRetractTempId(t));
                    },
                },
            };
            let v2 = match term.v {
                ValuePlace::Value(v) => v,
                ValuePlace::TempId(t) => match temp_id_map.get(&t) {
                    Some(n2) => TypedValue::Ref(n2),
                    None => {
                        return Err(DbError::UnresolvedRetractTempId(t));
                    },
                },
            };
            let done = TermWithoutTempIds { op, e: e2, a, v: v2 };
            proof {
                assert(term_is_inert(subst_term(t0, m)));
                assert(done@ == to_concrete(subst_term(t0, m)));
            }
            let ghost prev = allocated@;
            allocated.push(done);
            proof {
                assert(allocated@ == prev.push(done));
                assert(concrete_terms_view(allocated@) =~= concrete_terms_view(prev).push(done@));
            }
            k += 1;
        }
        proof {
            lemma_subrange_all(g.allocations);
        }
        Ok(FinalPopulations { upserted, resolved, allocated })
    }
}

} // verus!
