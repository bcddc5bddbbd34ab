//! The round driver around the resolution engine: it resolves attribute/value
//! lookups against a store snapshot, builds each round's binding map, drives
//! the generation to its fixed point, allocates fresh entids for the
//! placeholders that remain, and emits the final populations.

use vstd::prelude::*;
use crate::assoc::{lemma_filter_empty, lemma_filter_membership, lemma_filter_push,
    lemma_first_satisfying};
use crate::errors::{DbError, DbErrorView};
use crate::db::{Partition, PartitionMap};
use crate::internal_types::{concrete_terms_view, terms_view, EntityPlaceView, OpType, Population,
    TempIdMap, TermWithTempIds, TermWithTempIdsView, TermWithoutTempIdsView, ValuePlaceView};
use crate::upsert_resolution::{alloc_pred, alloc_resolves_pred, alloc_stays_pred, alloc_tempids,
    alloc_tempid_seq, av_fn, av_of, avs_view, complex_pred, downgraded_fn, downgraded_of,
    e_hit_pred, e_miss_pred, ev_alloc_fn, ev_alloc_of, ev_alloc_pred, ev_both_pred, ev_chain_pred,
    ev_resolved_fn, ev_to_simple_of, evolved, inert_pred, is_complex_upsert,
    is_pending_allocation, is_simple_upsert, lemma_alloc_tempid_seq_distinct,
    lemma_alloc_tempid_seq_set, mentions_for_alloc, offending_tempid, offending_tempid_in,
    retract_unbound, retract_unresolvable, simple_pred, split_generation, split_ok,
    subst_concrete_fn, subst_fn, subst_term, tempids_view, term_is_inert, upsert_e_of,
    upsert_ev_of, upserted_fn, upserted_of, FinalPopulations, Generation, GenerationView,
    UpsertEView, UpsertEVView};
use crate::types::{AVPair, Attribute, Entid, Schema, TempId, TypedValue, TypedValueView};

verus! {

/// One store row the engine can upsert against: a unique-identity attribute,
/// a value, and the entity asserting that pair.
pub type AVRowView = (Entid, TypedValueView, Entid);

/// An in-memory snapshot of the assertions a store holds for its
/// unique-identity attributes, the collaborator that answers the engine's
/// attribute/value lookups.  Each row is (attribute, value, entity).
#[derive(Debug)]
pub struct AVStore {
    rows: Vec<(Entid, TypedValue, Entid)>,
}

impl View for AVStore {
    type V = Seq<AVRowView>;

    closed spec fn view(&self) -> Seq<AVRowView> {
        self.rows@.map_values(|r: (Entid, TypedValue, Entid)| (r.0, r.1@, r.2))
    }
}

/// Whether a row asserts this attribute/value pair.
pub open spec fn row_matches(row: AVRowView, a: Entid, v: TypedValueView) -> bool {
    row.0 == a && row.1 == v
}

/// Whether any row asserts the pair.
pub open spec fn has_match(s: Seq<AVRowView>, a: Entid, v: TypedValueView) -> bool {
    exists|k: int| 0 <= k < s.len() && row_matches(s[k], a, v)
}

/// The index of the first row asserting the pair.
pub open spec fn first_match_index(s: Seq<AVRowView>, a: Entid, v: TypedValueView) -> int {
    choose|k: int|
        0 <= k < s.len() && row_matches(s[k], a, v) && (forall|w: int|
            0 <= w < k ==> !row_matches(s[w], a, v))
}

/// The entity the store resolves the pair to: that of the first matching
/// row, if any.
#[verifier::opaque]
pub open spec fn lookup_of(s: Seq<AVRowView>, a: Entid, v: TypedValueView) -> Option<Entid> {
    if has_match(s, a, v) {
        Some(s[first_match_index(s, a, v)].2)
    } else {
        None
    }
}

/// Whether the store violates the at-most-one guarantee for the pair: two
/// rows assert it for distinct entities.
pub open spec fn has_conflict(s: Seq<AVRowView>, a: Entid, v: TypedValueView) -> bool {
    exists|i: int, j: int|
        0 <= i < s.len() && 0 <= j < s.len() && row_matches(s[i], a, v) && row_matches(s[j], a, v)
            && s[i].2 != s[j].2
}

/// The index of the first matching row whose entity differs from the first
/// match's.
pub open spec fn first_conflict_index(s: Seq<AVRowView>, a: Entid, v: TypedValueView) -> int {
    choose|j: int|
        0 <= j < s.len() && row_matches(s[j], a, v) && s[j].2 != s[first_match_index(s, a, v)].2
            && (forall|w: int|
            0 <= w < j ==> !(row_matches(s[w], a, v) && s[w].2 != s[first_match_index(s, a, v)].2))
}

/// The consistency fault reported for a conflicting pair: the attribute, the
/// first match's entity, and the first differing entity.
pub open spec fn conflict_error_of(s: Seq<AVRowView>, a: Entid, v: TypedValueView) -> DbErrorView {
    DbErrorView::AVResolutionConflict(
        a,
        s[first_match_index(s, a, v)].2,
        s[first_conflict_index(s, a, v)].2,
    )
}

impl AVStore {
    pub fn new() -> (s: AVStore)
        ensures
            s@ == Seq::<AVRowView>::empty(),
    {
        let s = AVStore { rows: Vec::new() };
        proof {
            assert(s@ =~= Seq::<AVRowView>::empty());
        }
        s
    }

    /// Record that the entity asserts the attribute/value pair.
    pub fn add_assertion(&mut self, a: Entid, v: TypedValue, e: Entid)
        ensures
            final(self)@ == old(self)@.push((a, v@, e)),
    {
        let ghost prev = self.rows@;
        self.rows.push((a, v, e));
        proof {
            assert(self.rows@ == prev.push((a, v, e)));
            assert(self@ =~= old(self)@.push((a, v@, e)));
        }
    }

    /// Resolve one attribute/value pair to the existing entity asserting it,
    /// if any.  Because the attribute is unique-identity, at most one may
    /// exist: rows asserting the pair for two distinct entities are a
    /// store-side consistency fault, reported as
    /// [`DbError::AVResolutionConflict`], never silently picked from.
    #[verifier::loop_isolation(false)]
    pub fn resolve_av(&self, a: Entid, v: &TypedValue) -> (r: Result<Option<Entid>, DbError>)
        ensures
            match r {
                Ok(opt) => !has_conflict(self@, a, v@) && opt == lookup_of(self@, a, v@),
                Err(e) => has_conflict(self@, a, v@) && e@ == conflict_error_of(self@, a, v@),
            },
    {
        let ghost s = self@;
        let n = self.rows.len();
        let mut found: Option<Entid> = None;
        let ghost mut fi: int = 0;
        let mut i: usize = 0;
        while i < n
            invariant
                i <= n,
                n == s.len(),
                match found {
                    None => forall|w: int| 0 <= w < i ==> !row_matches(s[w], a, v@),
                    Some(e0) => {
                        &&& 0 <= fi < i
                        &&& row_matches(s[fi], a, v@)
                        &&& (forall|w: int| 0 <= w < fi ==> !row_matches(s[w], a, v@))
                        &&& s[fi].2 == e0
                        &&& (forall|w: int|
                            0 <= w < i ==> (row_matches(s[w], a, v@) ==> s[w].2 == e0))
                    },
                },
            decreases n - i,
        {
            proof {
                assert(s[i as int] == (self.rows@[i as int].0, self.rows@[i as int].1@,
                    self.rows@[i as int].2,
                ));
            }
            if self.rows[i].0 == a && self.rows[i].1.eq(v) {
                proof {
                    assert(row_matches(s[i as int], a, v@));
                }
                match found {
                    None => {
                        found = Some(self.rows[i].2);
                        proof {
                            fi = i as int;
                        }
                    },
                    Some(e0) => {
                        if self.rows[i].2 != e0 {
                            proof {
                                // This row is the first matching row bound to
                                // a different entity: report the fault.
                                assert(has_conflict(s, a, v@));
                                let c = first_match_index(s, a, v@);
                                lemma_first_satisfying(
                                    s,
                                    |row: AVRowView| row_matches(row, a, v@),
                                );
                                assert(c == fi);
                                let d = first_conflict_index(s, a, v@);
                                let fm = s[first_match_index(s, a, v@)].2;
                                lemma_first_satisfying(
                                    s,
                                    |row: AVRowView| row_matches(row, a, v@) && row.2 != fm,
                                );
                                assert(d == i as int);
                            }
                            return Err(DbError::AVResolutionConflict(a, e0, self.rows[i].2));
                        }
                    },
                }
            }
            i += 1;
        }
        proof {
            reveal(lookup_of);
            match found {
                None => {
                    assert(!has_match(s, a, v@));
                    assert(!has_conflict(s, a, v@));
                },
                Some(e0) => {
                    assert(has_match(s, a, v@));
                    let c = first_match_index(s, a, v@);
                    lemma_first_satisfying(s, |row: AVRowView| row_matches(row, a, v@));
                    assert(c == fi);
                    assert(lookup_of(s, a, v@) == Some(e0));
                    assert(!has_conflict(s, a, v@));
                },
            }
        }
        Ok(found)
    }
}

/// The binding map a round builds from its lookups: each placeholder is
/// bound to the entity its first resolving attribute/value pair names; a
/// placeholder already bound keeps its earlier binding.
#[verifier::opaque]
pub open spec fn built_map(
    avs: Seq<(Seq<char>, (Entid, TypedValueView))>,
    s: Seq<AVRowView>,
) -> Map<Seq<char>, Entid>
    decreases avs.len(),
{
    if avs.len() == 0 {
        Map::empty()
    } else {
        let m = built_map(avs.drop_last(), s);
        let last = avs.last();
        if m.contains_key(last.0) {
            m
        } else {
            match lookup_of(s, last.1.0, last.1.1) {
                Some(e) => m.insert(last.0, e),
                None => m,
            }
        }
    }
}

/// No lookup of the round hits a store consistency fault.
pub open spec fn avs_conflict_free(
    avs: Seq<(Seq<char>, (Entid, TypedValueView))>,
    s: Seq<AVRowView>,
) -> bool {
    forall|i: int| 0 <= i < avs.len() ==> !has_conflict(s, avs[i].1.0, avs[i].1.1)
}

/// Build this round's binding map by resolving every candidate lookup
/// against the store, in order.  Fails with the consistency fault of the
/// first conflicting pair, if any.
#[verifier::loop_isolation(false)]
#[verifier::rlimit(30)]
pub fn resolve_avs(store: &AVStore, avs: &Vec<(TempId, AVPair)>) -> (r: Result<TempIdMap, DbError>)
    ensures
        match r {
            Ok(m) => {
                &&& m.wf()
                &&& avs_conflict_free(avs_view(avs@), store@)
                &&& m@ == built_map(avs_view(avs@), store@)
            },
            Err(e) => exists|i: int|
                {
                    &&& 0 <= i < avs@.len()
                    &&& has_conflict(
                        store@,
                        avs_view(avs@)[i].1.0,
                        avs_view(avs@)[i].1.1,
                    )
                    &&& (forall|j: int|
                        0 <= j < i ==> !has_conflict(
                            store@,
                            avs_view(avs@)[j].1.0,
                            avs_view(avs@)[j].1.1,
                        ))
                    &&& e@ == conflict_error_of(
                        store@,
                        avs_view(avs@)[i].1.0,
                        avs_view(avs@)[i].1.1,
                    )
                },
        },
{
    let ghost s = store@;
    let ghost av = avs_view(avs@);
    let mut m = TempIdMap::new();
    proof {
        reveal(built_map);
        assert(av.subrange(0, 0) =~= Seq::<(Seq<char>, (Entid, TypedValueView))>::empty());
        assert(m@ == built_map(av.subrange(0, 0), s));
    }
    let n = avs.len();
    let mut i: usize = 0;
    while i < n
        invariant
            i <= n,
            m.wf(),
            m@ == built_map(av.subrange(0, i as int), s),
            forall|j: int| 0 <= j < i ==> !has_conflict(s, av[j].1.0, av[j].1.1),
        decreases n - i,
    {
        proof {
            reveal(built_map);
            assert(av[i as int] == (avs@[i as int].0@, (avs@[i as int].1.0, avs@[i as int].1.1@)));
            assert(av.subrange(0, i as int + 1).drop_last() =~= av.subrange(0, i as int));
            assert(av.subrange(0, i as int + 1).last() == av[i as int]);
        }
        let ghost prefix = av.subrange(0, i as int);
        match store.resolve_av(avs[i].1.0, &avs[i].1.1) {
            Ok(opt) => {
                proof {
                    assert(opt == lookup_of(s, av[i as int].1.0, av[i as int].1.1));
                }
                match opt {
                    Some(e) => {
                        if !m.contains(&avs[i].0) {
                            m.insert(avs[i].0.clone(), e);
                            proof {
                                reveal(built_map);
                                assert(m@ == built_map(prefix, s).insert(av[i as int].0, e));
                                assert(m@ == built_map(av.subrange(0, i as int + 1), s));
                            }
                        } else {
                            proof {
                                reveal(built_map);
                                assert(m@ == built_map(av.subrange(0, i as int + 1), s));
                            }
                        }
                    },
                    None => {
                        proof {
                            reveal(built_map);
                            assert(m@ == built_map(av.subrange(0, i as int + 1), s));
                        }
                    },
                }
            },
            Err(e) => {
                return Err(e);
            },
        }
        i += 1;
    }
    proof {
        assert(av.subrange(0, n as int) =~= av);
    }
    Ok(m)
}

/// The lookups one round attempts: one per simple candidate.
#[verifier::opaque]
pub open spec fn round_avs(g: GenerationView) -> Seq<(Seq<char>, (Entid, TypedValueView))> {
    g.upserts_e.map_values(av_fn())
}

/// Whether some lookup of the round hits a store consistency fault.
#[verifier::opaque]
pub open spec fn round_has_conflict(g: GenerationView, s: Seq<AVRowView>) -> bool {
    exists|i: int|
        0 <= i < round_avs(g).len() && has_conflict(s, round_avs(g)[i].1.0, round_avs(g)[i].1.1)
}

/// The fault the round reports: that of its first conflicting lookup.
#[verifier::opaque]
pub open spec fn round_error_of(g: GenerationView, s: Seq<AVRowView>) -> DbErrorView {
    let i = choose|i: int|
        0 <= i < round_avs(g).len() && has_conflict(s, round_avs(g)[i].1.0, round_avs(g)[i].1.1)
            && (forall|j: int|
            0 <= j < i ==> !has_conflict(s, round_avs(g)[j].1.0, round_avs(g)[j].1.1));
    conflict_error_of(s, round_avs(g)[i].1.0, round_avs(g)[i].1.1)
}

/// The generation after one round: evolved under the binding map its own
/// lookups build.
#[verifier::opaque]
pub open spec fn evolved_once(g: GenerationView, s: Seq<AVRowView>) -> GenerationView {
    evolved(g, built_map(round_avs(g), s))
}

/// The fixed point the round loop reaches from a generation against a store
/// snapshot.  One evolution step consumes every complex candidate, and a
/// step without complex candidates consumes every simple one, so the loop
/// settles after at most two rounds: each round either upserts a
/// placeholder, re-classifies a chain, or permanently downgrades a candidate
/// to a plain pending allocation.
#[verifier::opaque]
pub open spec fn fixed_point_of(g: GenerationView, s: Seq<AVRowView>) -> Result<
    GenerationView,
    DbErrorView,
> {
    if !g.can_evolve() {
        Result::Ok(g)
    } else if round_has_conflict(g, s) {
        Result::Err(round_error_of(g, s))
    } else {
        let g1 = evolved_once(g, s);
        if !g1.can_evolve() {
            Result::Ok(g1)
        } else if round_has_conflict(g1, s) {
            Result::Err(round_error_of(g1, s))
        } else {
            Result::Ok(evolved_once(g1, s))
        }
    }
}

/// One evolution step consumes every complex candidate, and a step without
/// complex candidates consumes every simple one.
pub proof fn lemma_evolve_consumes_candidates(g: GenerationView, m: Map<Seq<char>, Entid>)
    ensures
        evolved(g, m).upserts_ev.len() == 0,
        g.upserts_ev.len() == 0 ==> evolved(g, m).upserts_e.len() == 0,
{
    reveal(evolved);
    if g.upserts_ev.len() == 0 {
        assert(g.upserts_ev =~= Seq::<UpsertEVView>::empty());
        lemma_filter_empty(ev_chain_pred(m));
        assert(evolved(g, m).upserts_e =~= Seq::<UpsertEView>::empty());
    }
}

/// The round's fault is that of its first conflicting lookup.
pub proof fn lemma_round_error_of(g: GenerationView, s: Seq<AVRowView>, i: int)
    requires
        0 <= i < round_avs(g).len(),
        has_conflict(s, round_avs(g)[i].1.0, round_avs(g)[i].1.1),
        forall|j: int| 0 <= j < i ==> !has_conflict(s, round_avs(g)[j].1.0, round_avs(g)[j].1.1),
    ensures
        round_has_conflict(g, s),
        round_error_of(g, s) == conflict_error_of(s, round_avs(g)[i].1.0, round_avs(g)[i].1.1),
{
    reveal(round_has_conflict);
    reveal(round_error_of);
    let c = choose|c: int|
        0 <= c < round_avs(g).len() && has_conflict(s, round_avs(g)[c].1.0, round_avs(g)[c].1.1)
            && (forall|j: int|
            0 <= j < c ==> !has_conflict(s, round_avs(g)[j].1.0, round_avs(g)[j].1.1));
    assert(c == i);
}

/// A generation that cannot evolve is already its own fixed point.
pub proof fn lemma_fixed_point_done(g: GenerationView, s: Seq<AVRowView>)
    requires
        !g.can_evolve(),
    ensures
        fixed_point_of(g, s) == Result::Ok::<GenerationView, DbErrorView>(g),
{
    reveal(fixed_point_of);
}

/// An evolvable generation whose round hits a consistency fault reports it.
pub proof fn lemma_fixed_point_conflict(g: GenerationView, s: Seq<AVRowView>)
    requires
        g.can_evolve(),
        round_has_conflict(g, s),
    ensures
        fixed_point_of(g, s) == Result::Err::<GenerationView, DbErrorView>(round_error_of(g, s)),
{
    reveal(fixed_point_of);
}

/// An evolvable, conflict-free generation reaches the same fixed point as
/// the generation one round further on.
pub proof fn lemma_fixed_point_step(g: GenerationView, s: Seq<AVRowView>)
    requires
        g.can_evolve(),
        !round_has_conflict(g, s),
    ensures
        fixed_point_of(g, s) == fixed_point_of(evolved_once(g, s), s),
{
    reveal(fixed_point_of);
    reveal(evolved_once);
    let g1 = evolved_once(g, s);
    if g1.can_evolve() && !round_has_conflict(g1, s) {
        let g2 = evolved_once(g1, s);
        lemma_evolve_consumes_candidates(g, built_map(round_avs(g), s));
        lemma_evolve_consumes_candidates(g1, built_map(round_avs(g1), s));
        assert(!g2.can_evolve());
    }
}

/// A generation the round loop settles on has no candidates left.
pub proof fn lemma_fixed_point_resolved(g: GenerationView, s: Seq<AVRowView>)
    ensures
        fixed_point_of(g, s) is Ok ==> !(fixed_point_of(g, s)->Ok_0).can_evolve(),
{
    reveal(fixed_point_of);
    reveal(evolved_once);
    if g.can_evolve() && !round_has_conflict(g, s) {
        let g1 = evolved_once(g, s);
        if g1.can_evolve() && !round_has_conflict(g1, s) {
            lemma_evolve_consumes_candidates(g, built_map(round_avs(g), s));
            lemma_evolve_consumes_candidates(g1, built_map(round_avs(g1), s));
        }
    }
}

/// Run one round: collect the simple candidates' lookups, resolve them
/// against the store, and evolve one step.
fn run_round(generation: Generation, store: &AVStore) -> (r: Result<Generation, DbError>)
    ensures
        match r {
            Ok(g1) => {
                &&& !round_has_conflict(generation@, store@)
                &&& g1@ == evolved_once(generation@, store@)
            },
            Err(e) => {
                &&& round_has_conflict(generation@, store@)
                &&& e@ == round_error_of(generation@, store@)
            },
        },
{
    let ghost g = generation@;
    let ghost s = store@;
    let avs = generation.temp_id_avs();
    proof {
        reveal(round_avs);
        assert(avs_view(avs@) == round_avs(g));
    }
    match resolve_avs(store, &avs) {
        Ok(m) => {
            proof {
                reveal(round_has_conflict);
                reveal(evolved_once);
                assert forall|i: int|
                    0 <= i < round_avs(g).len() implies !has_conflict(
                    s,
                    round_avs(g)[i].1.0,
                    round_avs(g)[i].1.1,
                ) by {
                    assert(!has_conflict(s, avs_view(avs@)[i].1.0, avs_view(avs@)[i].1.1));
                }
                assert(!round_has_conflict(g, s));
                assert(m@ == built_map(round_avs(g), s));
            }
            Ok(generation.evolve_one_step(&m))
        },
        Err(e) => {
            proof {
                // The first conflicting lookup is unique, so the fault
                // matches the one the round reports.
                let i = choose|i: int|
                    {
                        &&& 0 <= i < avs@.len()
                        &&& has_conflict(s, avs_view(avs@)[i].1.0, avs_view(avs@)[i].1.1)
                        &&& (forall|j: int|
                            0 <= j < i ==> !has_conflict(
                                s,
                                avs_view(avs@)[j].1.0,
                                avs_view(avs@)[j].1.1,
                            ))
                        &&& e@ == conflict_error_of(s, avs_view(avs@)[i].1.0, avs_view(avs@)[i].1.1)
                    };
                reveal(round_has_conflict);
                lemma_round_error_of(g, s, i);
            }
            Err(e)
        },
    }
}

/// Drive a generation to its fixed point: repeatedly collect the simple
/// candidates' lookups, resolve them against the store, and evolve one
/// step, until no candidate remains.  Returns exactly [`fixed_point_of`]
/// the generation and the store snapshot.
#[verifier::rlimit(100)]
pub fn resolve_upserts(generation: Generation, store: &AVStore) -> (r: Result<Generation, DbError>)
    ensures
        match r {
            Ok(g) => {
                &&& fixed_point_of(generation@, store@) == Result::Ok::<
                    GenerationView,
                    DbErrorView,
                >(g@)
                &&& !g@.can_evolve()
            },
            Err(e) => fixed_point_of(generation@, store@) == Result::Err::<
                GenerationView,
                DbErrorView,
            >(e@),
        },
{
    let ghost s = store@;
    let mut cur = generation;
    while cur.can_evolve()
        invariant
            s == store@,
            fixed_point_of(generation@, s) == fixed_point_of(cur@, s),
        decreases cur@.upserts_ev.len(), cur@.upserts_e.len(),
    {
        let ghost g = cur@;
        cur = match run_round(cur, store) {
            Ok(g1) => g1,
            Err(e) => {
                proof {
                    lemma_fixed_point_conflict(g, s);
                }
                return Err(e);
            },
        };
        proof {
            reveal(evolved_once);
            assert(cur@ == evolved_once(g, s));
            lemma_evolve_consumes_candidates(g, built_map(round_avs(g), s));
            assert(cur@.upserts_ev.len() == 0);
            assert(g.upserts_ev.len() == 0 ==> cur@.upserts_e.len() == 0);
            lemma_fixed_point_step(g, s);
            assert(fixed_point_of(generation@, s) == fixed_point_of(cur@, s));
        }
    }
    proof {
        lemma_fixed_point_done(cur@, s);
    }
    Ok(cur)
}

/// Bind each placeholder, in order, to the next fresh entid from the named
/// partition: the final binding map for the placeholders that require
/// allocation.
#[verifier::loop_isolation(false)]
pub fn allocate_temp_ids(
    tempids: &Vec<TempId>,
    partition_map: &mut PartitionMap,
    name: &String,
) -> (m: TempIdMap)
    requires
        forall|i: int, j: int|
            0 <= i < j < tempids@.len() ==> tempids_view(tempids@)[i] != tempids_view(tempids@)[j],
        old(partition_map).wf(),
        old(partition_map)@.contains_key(name@),
        old(partition_map)@[name@].wf(),
        old(partition_map)@[name@].has_room(tempids@.len() as int),
    ensures
        m.wf(),
        forall|x: Seq<char>| m@.contains_key(x) <==> tempids_view(tempids@).contains(x),
        forall|w: int|
            0 <= w < tempids@.len() ==> m@[tempids_view(tempids@)[w]] as int == old(
                partition_map,
            )@[name@].next_entid_to_allocate as int + w,
        final(partition_map)@ == old(partition_map)@.insert(
            name@,
            (Partition {
                next_entid_to_allocate: final(partition_map)@[name@].next_entid_to_allocate,
                ..old(partition_map)@[name@]
            }),
        ),
        final(partition_map)@[name@].next_entid_to_allocate as int == old(
            partition_map,
        )@[name@].next_entid_to_allocate as int + tempids@.len(),
        final(partition_map).wf(),
{
    let range = partition_map.allocate_entids(name, tempids.len());
    let base = range.start;
    let mut m = TempIdMap::new();
    let n = tempids.len();
    let mut i: usize = 0;
    while i < n
        invariant
            i <= n,
            m.wf(),
            forall|x: Seq<char>|
                m@.contains_key(x) <==> (exists|w: int|
                    0 <= w < i && tempids_view(tempids@)[w] == x),
            forall|w: int| 0 <= w < i ==> m@[tempids_view(tempids@)[w]] as int == base as int + w,
        decreases n - i,
    {
        proof {
            assert(tempids_view(tempids@)[i as int] == tempids@[i as int]@);
            if m@.contains_key(tempids@[i as int]@) {
                let w = choose|w: int| 0 <= w < i && tempids_view(tempids@)[w] == tempids@[i as int]@;
                assert(false);
            }
        }
        m.insert(tempids[i].clone(), base + i as i64);
        proof {
            assert forall|x: Seq<char>|
                m@.contains_key(x) implies (exists|w: int|
                0 <= w < i + 1 && tempids_view(tempids@)[w] == x) by {
                if x == tempids@[i as int]@ {
                    assert(tempids_view(tempids@)[i as int] == x);
                }
            }
        }
        i += 1;
    }
    m
}

/// Every placeholder the round's map binds is the placeholder of some
/// lookup.
pub proof fn lemma_built_map_domain(avs: Seq<(Seq<char>, (Entid, TypedValueView))>, s: Seq<AVRowView>)
    ensures
        forall|x: Seq<char>|
            built_map(avs, s).contains_key(x) ==> exists|k: int| 0 <= k < avs.len() && avs[k].0
                == x,
    decreases avs.len(),
{
    reveal(built_map);
    if avs.len() > 0 {
        let d = avs.drop_last();
        lemma_built_map_domain(d, s);
        assert forall|x: Seq<char>| built_map(avs, s).contains_key(x) implies exists|k: int|
            0 <= k < avs.len() && avs[k].0 == x by {
            if x == avs.last().0 {
                assert(avs[avs.len() - 1].0 == x);
            } else {
                assert(built_map(d, s).contains_key(x));
                let k = choose|k: int| 0 <= k < d.len() && d[k].0 == x;
                assert(avs[k] == d[k]);
            }
        }
    }
}

/// A placeholder all of whose lookups resolve to the same entity is bound to
/// exactly that entity.
#[verifier::rlimit(100)]
pub proof fn lemma_built_map_binding(
    avs: Seq<(Seq<char>, (Entid, TypedValueView))>,
    s: Seq<AVRowView>,
    t: Seq<char>,
    e: Entid,
)
    requires
        exists|k: int| 0 <= k < avs.len() && avs[k].0 == t,
        forall|k: int|
            0 <= k < avs.len() && avs[k].0 == t ==> lookup_of(s, avs[k].1.0, avs[k].1.1) == Some(
                e,
            ),
    ensures
        built_map(avs, s).contains_key(t),
        built_map(avs, s)[t] == e,
    decreases avs.len(),
{
    reveal(built_map);
    let d = avs.drop_last();
    let last = avs.last();
    let m = built_map(d, s);
    assert(forall|k: int| 0 <= k < d.len() ==> d[k] == avs[k]);
    if last.0 == t {
        if m.contains_key(t) {
            lemma_built_map_domain(d, s);
            let k = choose|k: int| 0 <= k < d.len() && d[k].0 == t;
            lemma_built_map_binding(d, s, t, e);
        } else {
            assert(avs[avs.len() - 1].0 == t);
            assert(lookup_of(s, last.1.0, last.1.1) == Some(e));
        }
    } else {
        let k0 = choose|k: int| 0 <= k < avs.len() && avs[k].0 == t;
        assert(k0 < avs.len() - 1);
        assert(d[k0].0 == t);
        lemma_built_map_binding(d, s, t, e);
    }
}

/// Law: at-most-one resolution.  When the store resolves the pair a simple
/// candidate names to exactly one entity, and every candidate carrying the
/// same placeholder resolves to that same entity, the round binds the
/// placeholder to it and moves the candidate's term into `upserted` bound to
/// it -- however many structurally distinct candidates name the pair.
pub proof fn lemma_at_most_one_resolution(g: GenerationView, s: Seq<AVRowView>, i: int, e: Entid)
    requires
        0 <= i < g.upserts_e.len(),
        lookup_of(s, g.upserts_e[i].a, g.upserts_e[i].v) == Some(e),
        forall|j: int|
            0 <= j < g.upserts_e.len() && g.upserts_e[j].t == g.upserts_e[i].t ==> lookup_of(
                s,
                g.upserts_e[j].a,
                g.upserts_e[j].v,
            ) == Some(e),
    ensures
        built_map(round_avs(g), s).contains_key(g.upserts_e[i].t),
        built_map(round_avs(g), s)[g.upserts_e[i].t] == e,
        evolved(g, built_map(round_avs(g), s)).upserted.contains(
            (TermWithoutTempIdsView { op: OpType::Add, e, a: g.upserts_e[i].a, v: g.upserts_e[i].v }),
        ),
{
    reveal(round_avs);
    let avs = round_avs(g);
    let t = g.upserts_e[i].t;
    assert forall|k: int| 0 <= k < avs.len() implies avs[k] == av_of(
        g.upserts_e[k],
    ) by {
    }
    assert(avs[i].0 == t);
    assert forall|k: int|
        0 <= k < avs.len() && avs[k].0 == t implies lookup_of(s, avs[k].1.0, avs[k].1.1) == Some(
        e,
    ) by {
        assert(g.upserts_e[k].t == t);
    }
    lemma_built_map_binding(avs, s, t, e);
    reveal(evolved);
    let m = built_map(avs, s);
    let u = g.upserts_e[i];
    let hits = g.upserts_e.filter(e_hit_pred(m));
    g.upserts_e.lemma_filter_contains(e_hit_pred(m), i);
    assert(hits.contains(u));
    let k = choose|k: int| 0 <= k < hits.len() && hits[k] == u;
    let mapped = hits.map_values(upserted_fn(m));
    assert(mapped[k] == upserted_of(u, m));
    let up = evolved(g, m).upserted;
    assert(up[g.upserted.len() + k] == mapped[k]);
    assert(upserted_of(u, m) == (TermWithoutTempIdsView {
        op: OpType::Add,
        e,
        a: u.a,
        v: u.v,
    }));
    assert(up.contains(up[g.upserted.len() + k]));
}

/// Law: fresh allocations are disjoint.  A final binding map that binds the
/// distinct placeholders, in order, to consecutive identifiers from a base
/// cursor gives two different placeholders two different identifiers, and
/// every identifier it hands out lies in the contiguous range starting at
/// the cursor -- so it meets no identifier below the cursor, in particular
/// none the store already holds.
pub proof fn lemma_fresh_allocation_disjoint(
    m: Map<Seq<char>, Entid>,
    tids: Seq<Seq<char>>,
    base: int,
)
    requires
        forall|i: int, j: int| 0 <= i < j < tids.len() ==> tids[i] != tids[j],
        forall|x: Seq<char>| m.contains_key(x) <==> tids.contains(x),
        forall|w: int| 0 <= w < tids.len() ==> m[tids[w]] as int == base + w,
    ensures
        forall|x: Seq<char>, y: Seq<char>|
            m.contains_key(x) && m.contains_key(y) && x != y ==> m[x] != m[y],
        forall|x: Seq<char>|
            m.contains_key(x) ==> (base <= m[x] as int && (m[x] as int) < base + tids.len()),
{
    assert forall|x: Seq<char>|
        m.contains_key(x) implies (base <= m[x] as int && (m[x] as int) < base + tids.len()) by {
        assert(tids.contains(x));
        let w = choose|w: int| 0 <= w < tids.len() && tids[w] == x;
        assert(m[tids[w]] as int == base + w);
    }
    assert forall|x: Seq<char>, y: Seq<char>|
        m.contains_key(x) && m.contains_key(y) && x != y implies m[x] != m[y] by {
        assert(tids.contains(x));
        assert(tids.contains(y));
        let w1 = choose|w: int| 0 <= w < tids.len() && tids[w] == x;
        let w2 = choose|w: int| 0 <= w < tids.len() && tids[w] == y;
        assert(m[tids[w1]] as int == base + w1);
        assert(m[tids[w2]] as int == base + w2);
    }
}

/// Law: upsert resolution terminates.  Against a store snapshot none of
/// whose consulted lookups is in conflict, the round loop settles: the fixed
/// point exists, and no candidate is left in it.  One round consumes every
/// complex candidate and the next consumes every simple one, so the number
/// of rounds is bounded by two, whatever chains the batch contains.
pub proof fn lemma_chaining_terminates(g: GenerationView, s: Seq<AVRowView>)
    requires
        !round_has_conflict(g, s),
        !round_has_conflict(evolved_once(g, s), s),
    ensures
        fixed_point_of(g, s) is Ok,
        !(fixed_point_of(g, s)->Ok_0).can_evolve(),
{
    reveal(fixed_point_of);
    lemma_fixed_point_resolved(g, s);
}

/// Law: chain resolution.  A two-placeholder chain `t1 --a--> t2` whose tail
/// is grounded by a simple candidate `(t2, b, v)`, against a store that
/// resolves `(b, v)` to an entity and `(a, ref-to-it)` to another, resolves
/// fully: both terms end in `upserted`, bound through the chain, and the
/// fixed point is reached in two rounds with nothing left to allocate.
#[verifier::rlimit(100)]
pub proof fn lemma_two_link_chain_resolves(
    g: GenerationView,
    s: Seq<AVRowView>,
    t1: Seq<char>,
    t2: Seq<char>,
    a: Entid,
    b: Entid,
    v: TypedValueView,
    e1: Entid,
    e2: Entid,
)
    requires
        t1 != t2,
        g.upserts_e == seq![UpsertEView { t: t2, a: b, v }],
        g.upserts_ev == seq![UpsertEVView { t1, a, t2 }],
        g.allocations == Seq::<TermWithTempIdsView>::empty(),
        g.upserted == Seq::<TermWithoutTempIdsView>::empty(),
        g.resolved == Seq::<TermWithoutTempIdsView>::empty(),
        !has_conflict(s, b, v),
        !has_conflict(s, a, TypedValueView::Ref(e2)),
        lookup_of(s, b, v) == Some(e2),
        lookup_of(s, a, TypedValueView::Ref(e2)) == Some(e1),
    ensures
        fixed_point_of(g, s) == Result::Ok::<GenerationView, DbErrorView>(
            GenerationView {
                upserts_e: Seq::empty(),
                upserts_ev: Seq::empty(),
                allocations: Seq::empty(),
                upserted: seq![
                    TermWithoutTempIdsView { op: OpType::Add, e: e2, a: b, v },
                    TermWithoutTempIdsView { op: OpType::Add, e: e1, a, v: TypedValueView::Ref(e2) },
                ],
                resolved: Seq::empty(),
            },
        ),
{
    reveal(fixed_point_of);
    reveal(round_avs);
    reveal(round_has_conflict);
    reveal(evolved_once);
    reveal(evolved);
    reveal_with_fuel(built_map, 3);
    let u_e = UpsertEView { t: t2, a: b, v };
    let u_ev = UpsertEVView { t1, a, t2 };

    // Round one: the single lookup binds t2 to e2.
    let avs1 = round_avs(g);
    assert(avs1 =~= seq![(t2, (b, v))]);
    assert(!round_has_conflict(g, s));
    assert(avs1.drop_last() =~= Seq::<(Seq<char>, (Entid, TypedValueView))>::empty());
    let m1 = built_map(avs1, s);
    assert(built_map(avs1.drop_last(), s) == Map::<Seq<char>, Entid>::empty());
    assert(m1 == Map::<Seq<char>, Entid>::empty().insert(t2, e2));
    assert(m1.contains_key(t2) && m1[t2] == e2);
    assert(!m1.contains_key(t1));

    // Evolving moves the grounded candidate to upserted and re-classifies
    // the chain as a fresh simple candidate.
    let g1 = evolved_once(g, s);
    lemma_filter_push(Seq::<UpsertEView>::empty(), u_e, e_hit_pred(m1));
    lemma_filter_push(Seq::<UpsertEView>::empty(), u_e, e_miss_pred(m1));
    lemma_filter_push(Seq::<UpsertEVView>::empty(), u_ev, ev_chain_pred(m1));
    lemma_filter_push(
        Seq::<UpsertEVView>::empty(),
        u_ev,
        ev_both_pred(m1),
    );
    lemma_filter_push(
        Seq::<UpsertEVView>::empty(),
        u_ev,
        ev_alloc_pred(m1),
    );
    lemma_filter_empty(e_hit_pred(m1));
    lemma_filter_empty(e_miss_pred(m1));
    lemma_filter_empty(ev_chain_pred(m1));
    lemma_filter_empty(ev_both_pred(m1));
    lemma_filter_empty(ev_alloc_pred(m1));
    lemma_filter_empty(alloc_resolves_pred(m1));
    lemma_filter_empty(alloc_stays_pred(m1));
    assert(g.upserts_e =~= Seq::<UpsertEView>::empty().push(u_e));
    assert(g.upserts_ev =~= Seq::<UpsertEVView>::empty().push(u_ev));
    let u_e2 = UpsertEView { t: t1, a, v: TypedValueView::Ref(e2) };
    assert(g1.upserts_e =~= seq![u_e2]);
    assert(g1.upserts_ev =~= Seq::<UpsertEVView>::empty());
    assert(g1.allocations =~= Seq::<TermWithTempIdsView>::empty());
    assert(g1.upserted =~= seq![TermWithoutTempIdsView { op: OpType::Add, e: e2, a: b, v }]);
    assert(g1.resolved =~= Seq::<TermWithoutTempIdsView>::empty());

    // Round two: the fresh candidate's concrete value now upserts t1.
    let avs2 = round_avs(g1);
    assert(avs2 =~= seq![(t1, (a, TypedValueView::Ref(e2)))]);
    assert(!round_has_conflict(g1, s));
    assert(avs2.drop_last() =~= Seq::<(Seq<char>, (Entid, TypedValueView))>::empty());
    let m2 = built_map(avs2, s);
    assert(built_map(avs2.drop_last(), s) == Map::<Seq<char>, Entid>::empty());
    assert(m2 == Map::<Seq<char>, Entid>::empty().insert(t1, e1));
    assert(m2.contains_key(t1) && m2[t1] == e1);

    let g2 = evolved_once(g1, s);
    lemma_filter_push(Seq::<UpsertEView>::empty(), u_e2, e_hit_pred(m2));
    lemma_filter_push(Seq::<UpsertEView>::empty(), u_e2, e_miss_pred(m2));
    lemma_filter_empty(e_hit_pred(m2));
    lemma_filter_empty(e_miss_pred(m2));
    lemma_filter_empty(ev_chain_pred(m2));
    lemma_filter_empty(ev_both_pred(m2));
    lemma_filter_empty(ev_alloc_pred(m2));
    lemma_filter_empty(alloc_resolves_pred(m2));
    lemma_filter_empty(alloc_stays_pred(m2));
    assert(g1.upserts_e =~= Seq::<UpsertEView>::empty().push(u_e2));
    assert(g2.upserts_e =~= Seq::<UpsertEView>::empty());
    assert(g2.upserts_ev =~= Seq::<UpsertEVView>::empty());
    assert(g2.allocations =~= Seq::<TermWithTempIdsView>::empty());
    assert(g2.upserted =~= seq![
        TermWithoutTempIdsView { op: OpType::Add, e: e2, a: b, v },
        TermWithoutTempIdsView { op: OpType::Add, e: e1, a, v: TypedValueView::Ref(e2) },
    ]);
    assert(g2.resolved =~= Seq::<TermWithoutTempIdsView>::empty());
    assert(!g2.can_evolve());
    assert(g2 =~= (GenerationView {
        upserts_e: Seq::empty(),
        upserts_ev: Seq::empty(),
        allocations: Seq::empty(),
        upserted: seq![
            TermWithoutTempIdsView { op: OpType::Add, e: e2, a: b, v },
            TermWithoutTempIdsView { op: OpType::Add, e: e1, a, v: TypedValueView::Ref(e2) },
        ],
        resolved: Seq::empty(),
    }));
}

/// The placeholder occurs in no candidate and in no assertion still pending
/// allocation: nothing can ever bind or allocate it.
pub open spec fn tempid_never_asserted(g: GenerationView, x: Seq<char>) -> bool {
    &&& forall|k: int| 0 <= k < g.upserts_e.len() ==> g.upserts_e[k].t != x
    &&& forall|k: int|
        0 <= k < g.upserts_ev.len() ==> g.upserts_ev[k].t1 != x && g.upserts_ev[k].t2 != x
    &&& forall|k: int|
        0 <= k < g.allocations.len() && g.allocations[k].op == OpType::Add
            ==> g.allocations[k].e != EntityPlaceView::TempId(x) && g.allocations[k].v
            != ValuePlaceView::TempId(x)
}

/// Some retraction pending allocation holds the placeholder in its entity
/// place.
pub open spec fn has_pending_retract(g: GenerationView, x: Seq<char>) -> bool {
    exists|k: int|
        0 <= k < g.allocations.len() && g.allocations[k].op == OpType::Retract
            && g.allocations[k].e == EntityPlaceView::TempId(x)
}

/// The split keeps a never-asserted placeholder never-asserted, and carries
/// a retraction holding it into the pending allocations.
proof fn lemma_split_never_asserted(
    ts: Seq<TermWithTempIdsView>,
    schema: Map<Entid, Attribute>,
    x: Seq<char>,
)
    requires
        forall|j: int|
            0 <= j < ts.len() && ts[j].op == OpType::Add ==> ts[j].e != EntityPlaceView::TempId(x)
                && ts[j].v != ValuePlaceView::TempId(x),
    ensures
        tempid_never_asserted(split_generation(ts, schema), x),
        (exists|j: int|
            0 <= j < ts.len() && ts[j].op == OpType::Retract && ts[j].e
                == EntityPlaceView::TempId(x)) ==> has_pending_retract(
            split_generation(ts, schema),
            x,
        ),
{
    let g = split_generation(ts, schema);
    lemma_filter_membership(ts, simple_pred(schema));
    lemma_filter_membership(ts, complex_pred(schema));
    lemma_filter_membership(ts, alloc_pred(schema));
    assert forall|k: int| 0 <= k < g.upserts_e.len() implies g.upserts_e[k].t != x by {
        let f = ts.filter(simple_pred(schema));
        assert(g.upserts_e[k] == upsert_e_of(f[k]));
        assert(f.contains(f[k]));
        assert(ts.contains(f[k]) && is_simple_upsert(f[k], schema));
        let j = choose|j: int| 0 <= j < ts.len() && ts[j] == f[k];
        assert(ts[j].op == OpType::Add);
        if g.upserts_e[k].t == x {
            assert(ts[j].e == EntityPlaceView::TempId(x));
        }
    }
    assert forall|k: int|
        0 <= k < g.upserts_ev.len() implies g.upserts_ev[k].t1 != x && g.upserts_ev[k].t2
        != x by {
        let f = ts.filter(complex_pred(schema));
        assert(g.upserts_ev[k] == upsert_ev_of(f[k]));
        assert(f.contains(f[k]));
        assert(ts.contains(f[k]) && is_complex_upsert(f[k], schema));
        let j = choose|j: int| 0 <= j < ts.len() && ts[j] == f[k];
        assert(ts[j].op == OpType::Add);
        if g.upserts_ev[k].t1 == x {
            assert(ts[j].e == EntityPlaceView::TempId(x));
        }
        if g.upserts_ev[k].t2 == x {
            assert(ts[j].v == ValuePlaceView::TempId(x));
        }
    }
    assert forall|k: int|
        0 <= k < g.allocations.len() && g.allocations[k].op == OpType::Add implies g.allocations[k].e
        != EntityPlaceView::TempId(x) && g.allocations[k].v != ValuePlaceView::TempId(x) by {
        let f = ts.filter(alloc_pred(schema));
        assert(f.contains(f[k]));
        assert(ts.contains(f[k]));
    }
    if exists|j: int|
        0 <= j < ts.len() && ts[j].op == OpType::Retract && ts[j].e == EntityPlaceView::TempId(x) {
        let j = choose|j: int|
            0 <= j < ts.len() && ts[j].op == OpType::Retract && ts[j].e == EntityPlaceView::TempId(
                x,
            );
        assert(is_pending_allocation(ts[j], schema));
        assert(ts.contains(ts[j]));
        assert(g.allocations.contains(ts[j]));
        let k = choose|k: int| 0 <= k < g.allocations.len() && g.allocations[k] == ts[j];
    }
}

/// One round keeps a never-asserted placeholder never-asserted and keeps its
/// pending retraction pending: the round's map cannot bind it, so
/// substitution leaves it in place.
proof fn lemma_round_never_asserted(g: GenerationView, s: Seq<AVRowView>, x: Seq<char>)
    requires
        tempid_never_asserted(g, x),
    ensures
        tempid_never_asserted(evolved_once(g, s), x),
        has_pending_retract(g, x) ==> has_pending_retract(evolved_once(g, s), x),
{
    reveal(evolved_once);
    reveal(evolved);
    let m = built_map(round_avs(g), s);
    lemma_built_map_domain(round_avs(g), s);
    reveal(round_avs);
    assert(!m.contains_key(x)) by {
        if m.contains_key(x) {
            let k = choose|k: int| 0 <= k < round_avs(g).len() && round_avs(g)[k].0 == x;
            assert(round_avs(g)[k] == av_of(g.upserts_e[k]));
            assert(g.upserts_e[k].t == x);
        }
    }
    let g1 = evolved_once(g, s);
    lemma_filter_membership(g.upserts_e, e_miss_pred(m));
    lemma_filter_membership(g.upserts_ev, ev_chain_pred(m));
    lemma_filter_membership(g.upserts_ev, ev_alloc_pred(m));
    lemma_filter_membership(g.allocations, alloc_stays_pred(m));
    // No new simple candidate carries the placeholder.
    assert forall|k: int| 0 <= k < g1.upserts_e.len() implies g1.upserts_e[k].t != x by {
        let f = g.upserts_ev.filter(ev_chain_pred(m));
        assert(g1.upserts_e[k] == ev_to_simple_of(f[k], m));
        assert(f.contains(f[k]));
        assert(g.upserts_ev.contains(f[k]));
        let j = choose|j: int| 0 <= j < g.upserts_ev.len() && g.upserts_ev[j] == f[k];
    }
    // No assertion pending allocation mentions the placeholder.
    let a1 = g.upserts_e.filter(e_miss_pred(m)).map_values(
        downgraded_fn(),
    );
    let a2 = g.upserts_ev.filter(ev_alloc_pred(m)).map_values(
        ev_alloc_fn(m),
    );
    let a3 = g.allocations.filter(alloc_stays_pred(m)).map_values(
        subst_fn(m),
    );
    assert forall|k: int|
        0 <= k < g1.allocations.len() && g1.allocations[k].op == OpType::Add implies g1.allocations[k].e
        != EntityPlaceView::TempId(x) && g1.allocations[k].v != ValuePlaceView::TempId(x) by {
        assert(g1.allocations == a1 + a2 + a3);
        let t = g1.allocations[k];
        if k < a1.len() {
            let f = g.upserts_e.filter(e_miss_pred(m));
            assert(t == downgraded_of(f[k]));
            assert(f.contains(f[k]));
            assert(g.upserts_e.contains(f[k]));
            let j = choose|j: int| 0 <= j < g.upserts_e.len() && g.upserts_e[j] == f[k];
        } else if k < a1.len() + a2.len() {
            let f = g.upserts_ev.filter(ev_alloc_pred(m));
            assert(t == a2[k - a1.len()]);
            assert(t == ev_alloc_of(f[k - a1.len()], m));
            assert(f.contains(f[k - a1.len()]));
            assert(g.upserts_ev.contains(f[k - a1.len()]));
            let j = choose|j: int|
                0 <= j < g.upserts_ev.len() && g.upserts_ev[j] == f[k - a1.len()];
        } else {
            let f = g.allocations.filter(alloc_stays_pred(m));
            assert(t == a3[k - a1.len() - a2.len()]);
            let t0 = f[k - a1.len() - a2.len()];
            assert(t == subst_term(t0, m));
            assert(f.contains(t0));
            assert(g.allocations.contains(t0));
            let j = choose|j: int| 0 <= j < g.allocations.len() && g.allocations[j] == t0;
            assert(t0.op == OpType::Add);
            assert(t0.e != EntityPlaceView::TempId(x) && t0.v != ValuePlaceView::TempId(x));
        }
    }
    // A pending retraction holding the placeholder stays pending.
    if has_pending_retract(g, x) {
        let k = choose|k: int|
            0 <= k < g.allocations.len() && g.allocations[k].op == OpType::Retract
                && g.allocations[k].e == EntityPlaceView::TempId(x);
        let t0 = g.allocations[k];
        let t1 = subst_term(t0, m);
        assert(t1.e == EntityPlaceView::TempId(x));
        assert(!term_is_inert(t1));
        g.allocations.lemma_filter_contains(alloc_stays_pred(m), k);
        let f = g.allocations.filter(alloc_stays_pred(m));
        assert(f.contains(t0));
        let w = choose|w: int| 0 <= w < f.len() && f[w] == t0;
        assert(a3[w] == t1);
        assert(g1.allocations == a1 + a2 + a3);
        assert(g1.allocations[a1.len() + a2.len() + w] == t1);
    }
}

/// Law: a retraction about an entity that was never established is
/// rejected.  A retraction whose entity placeholder appears in no assertion
/// of the batch reaches the fixed point still pending, with its placeholder
/// outside the allocation set -- so final segmentation reports it as an
/// unresolved retraction rather than silently succeeding or dropping it.
pub proof fn lemma_retract_without_assert_rejected(
    ts: Seq<TermWithTempIdsView>,
    schema: Map<Entid, Attribute>,
    s: Seq<AVRowView>,
    i0: int,
)
    requires
        0 <= i0 < ts.len(),
        ts[i0].op == OpType::Retract,
        ts[i0].e is TempId,
        forall|j: int|
            0 <= j < ts.len() && ts[j].op == OpType::Add ==> ts[j].e != EntityPlaceView::TempId(
                ts[i0].e->TempId_0,
            ) && ts[j].v != ValuePlaceView::TempId(ts[i0].e->TempId_0),
        fixed_point_of(split_generation(ts, schema), s) is Ok,
    ensures
        exists|k: int|
            {
                &&& 0 <= k < (fixed_point_of(split_generation(ts, schema), s)->Ok_0).allocations.len()
                &&& #[trigger] retract_unresolvable(
                    (fixed_point_of(split_generation(ts, schema), s)->Ok_0).allocations[k],
                    alloc_tempids((fixed_point_of(split_generation(ts, schema), s)->Ok_0).allocations),
                )
                &&& offending_tempid_in(
                    (fixed_point_of(split_generation(ts, schema), s)->Ok_0).allocations[k],
                    alloc_tempids((fixed_point_of(split_generation(ts, schema), s)->Ok_0).allocations),
                ) == ts[i0].e->TempId_0
            },
{
    reveal(fixed_point_of);
    let x = ts[i0].e->TempId_0;
    let g0 = split_generation(ts, schema);
    assert(ts[i0].e == EntityPlaceView::TempId(x));
    lemma_split_never_asserted(ts, schema, x);
    assert(has_pending_retract(g0, x)) by {
        assert(0 <= i0 < ts.len() && ts[i0].op == OpType::Retract && ts[i0].e
            == EntityPlaceView::TempId(x));
    }
    let gfix = fixed_point_of(g0, s)->Ok_0;
    if g0.can_evolve() {
        lemma_round_never_asserted(g0, s, x);
        let g1 = evolved_once(g0, s);
        if g1.can_evolve() {
            lemma_round_never_asserted(g1, s, x);
        }
    }
    assert(tempid_never_asserted(gfix, x));
    assert(has_pending_retract(gfix, x));
    assert(!alloc_tempids(gfix.allocations).contains(x)) by {
        if alloc_tempids(gfix.allocations).contains(x) {
            let i = choose|i: int|
                0 <= i < gfix.allocations.len() && mentions_for_alloc(
                    gfix.allocations[i],
                    x,
                );
            assert(gfix.allocations[i].op == OpType::Add);
        }
    }
    let k = choose|k: int|
        0 <= k < gfix.allocations.len() && gfix.allocations[k].op == OpType::Retract
            && gfix.allocations[k].e == EntityPlaceView::TempId(x);
    assert(retract_unresolvable(gfix.allocations[k], alloc_tempids(gfix.allocations)));
    assert(offending_tempid_in(
        gfix.allocations[k],
        alloc_tempids(gfix.allocations),
    ) == x);
}

/// Resolve one transaction's worth of terms end to end: split them into a
/// generation and an inert population, drive the generation to its fixed
/// point against the store, allocate fresh entids from the named partition
/// for the placeholders that remain, and segment the outcome into final
/// populations.  On success the caller receives the populations, the final
/// placeholder bindings, and the untouched inert terms; on any error the
/// partition cursor is left as it was.
#[verifier::loop_isolation(false)]
#[verifier::rlimit(100)]
pub fn transact_terms(
    terms: Vec<TermWithTempIds>,
    schema: &Schema,
    store: &AVStore,
    partition_map: &mut PartitionMap,
    partition: &String,
) -> (r: Result<(FinalPopulations, TempIdMap, Population), DbError>)
    requires
        schema.wf(),
        old(partition_map).wf(),
        old(partition_map)@.contains_key(partition@),
        old(partition_map)@[partition@].wf(),
    ensures
        final(partition_map).wf(),
        match r {
            Ok(out) => {
                &&& split_ok(terms_view(terms@), schema@)
                &&& fixed_point_of(split_generation(terms_view(terms@), schema@), store@) is Ok
                &&& {
                    let gfix = fixed_point_of(
                        split_generation(terms_view(terms@), schema@),
                        store@,
                    )->Ok_0;
                    let tids = alloc_tempid_seq(gfix.allocations);
                    let base = old(partition_map)@[partition@].next_entid_to_allocate as int;
                    &&& terms_view(out.2@) == terms_view(terms@).filter(inert_pred())
                    &&& out.1.wf()
                    &&& (forall|x: Seq<char>| out.1@.contains_key(x) <==> tids.contains(x))
                    &&& (forall|w: int|
                        0 <= w < tids.len() ==> out.1@[tids[w]] as int == base + w)
                    &&& concrete_terms_view(out.0.upserted@) == gfix.upserted
                    &&& concrete_terms_view(out.0.resolved@) == gfix.resolved
                    &&& concrete_terms_view(out.0.allocated@) == gfix.allocations.map_values(
                        subst_concrete_fn(out.1@),
                    )
                    &&& (forall|i: int|
                        0 <= i < gfix.allocations.len() ==> !retract_unresolvable(
                            gfix.allocations[i],
                            alloc_tempids(gfix.allocations),
                        ))
                    &&& final(partition_map)@ == old(partition_map)@.insert(
                        partition@,
                        (Partition {
                            next_entid_to_allocate: final(partition_map)@[partition@].next_entid_to_allocate,
                            ..old(partition_map)@[partition@]
                        }),
                    )
                    &&& final(partition_map)@[partition@].next_entid_to_allocate as int == base
                        + tids.len()
                }
            },
            Err(e) => {
                &&& final(partition_map)@ == old(partition_map)@
                &&& {
                    ||| (!split_ok(terms_view(terms@), schema@) && e@ matches
                        DbErrorView::UnknownAttribute(_))
                    ||| (split_ok(terms_view(terms@), schema@) && fixed_point_of(
                        split_generation(terms_view(terms@), schema@),
                        store@,
                    ) == Result::Err::<GenerationView, DbErrorView>(e@))
                    ||| {
                        &&& split_ok(terms_view(terms@), schema@)
                        &&& fixed_point_of(
                            split_generation(terms_view(terms@), schema@),
                            store@,
                        ) is Ok
                        &&& {
                            let gfix = fixed_point_of(
                                split_generation(terms_view(terms@), schema@),
                                store@,
                            )->Ok_0;
                            ||| (!old(partition_map)@[partition@].has_room(
                                alloc_tempid_seq(gfix.allocations).len() as int,
                            ) && e@ == DbErrorView::PartitionExhausted(partition@))
                            ||| (old(partition_map)@[partition@].has_room(
                                alloc_tempid_seq(gfix.allocations).len() as int,
                            ) && exists|i: int|
                                {
                                    &&& 0 <= i < gfix.allocations.len()
                                    &&& retract_unresolvable(
                                        gfix.allocations[i],
                                        alloc_tempids(gfix.allocations),
                                    )
                                    &&& e@ == DbErrorView::UnresolvedRetractTempId(
                                        offending_tempid_in(
                                            gfix.allocations[i],
                                            alloc_tempids(gfix.allocations),
                                        ),
                                    )
                                })
                        }
                    }
                }
            },
        },
{
    let ghost tv = terms_view(terms@);
    let ghost s = store@;
    let (generation, inert) = match Generation::from(terms, schema) {
        Ok(p) => p,
        Err(e) => {
            return Err(e);
        },
    };
    let generation = match resolve_upserts(generation, store) {
        Ok(g) => g,
        Err(e) => {
            return Err(e);
        },
    };
    let ghost gfix = generation@;
    let tempids = generation.temp_ids_in_allocations();
    proof {
        lemma_alloc_tempid_seq_distinct(gfix.allocations);
        lemma_alloc_tempid_seq_set(gfix.allocations);
    }
    let part = match partition_map.get(partition) {
        Some(p) => p,
        None => {
            proof {
                assert(false);
            }
            unreached()
        },
    };
    let next0 = part.next_entid();
    let n = tempids.len();
    // The named partition must have room for one fresh entid per distinct
    // placeholder; exhaustion is a hard failure, never a silent clamp.
    let cap: i128 = part.end as i128 - next0 as i128;
    if n as u128 > cap as u128 || n as u128 > i64::MAX as u128 {
        proof {
            assert(tempids_view(tempids@).len() == alloc_tempid_seq(gfix.allocations).len());
            assert(part == old(partition_map)@[partition@]);
            assert(!old(partition_map)@[partition@].has_room(
                alloc_tempid_seq(gfix.allocations).len() as int,
            ));
        }
        return Err(DbError::PartitionExhausted(partition.clone()));
    }
    proof {
        assert(tempids_view(tempids@).len() == alloc_tempid_seq(gfix.allocations).len());
        assert(old(partition_map)@[partition@].has_room(
            alloc_tempid_seq(gfix.allocations).len() as int,
        ));
    }
    let m = allocate_temp_ids(&tempids, partition_map, partition);
    let ghost mid_pm = partition_map@;
    proof {
        assert forall|x: Seq<char>|
            alloc_tempids(gfix.allocations).contains(x) implies m@.contains_key(x) by {
            assert(tempids_view(tempids@).contains(x));
        }
    }
    match generation.into_final_populations(&m) {
        Ok(pops) => {
            proof {
                assert forall|i: int|
                    0 <= i < gfix.allocations.len() implies !retract_unresolvable(
                    gfix.allocations[i],
                    alloc_tempids(gfix.allocations),
                ) by {
                    assert(!retract_unbound(gfix.allocations[i], m@));
                }
            }
            Ok((pops, m, inert))
        },
        Err(e) => {
            partition_map.set_next_entid(partition, next0);
            proof {
                assert(final(partition_map)@ =~= old(partition_map)@);
                let i = choose|i: int|
                    {
                        &&& 0 <= i < gfix.allocations.len()
                        &&& retract_unbound(gfix.allocations[i], m@)
                        &&& (forall|j: int|
                            0 <= j < i ==> !retract_unbound(
                                gfix.allocations[j],
                                m@,
                            ))
                        &&& e@ == DbErrorView::UnresolvedRetractTempId(
                            offending_tempid(gfix.allocations[i], m@),
                        )
                    };
                assert(retract_unresolvable(gfix.allocations[i], alloc_tempids(gfix.allocations)));
                assert(offending_tempid_in(gfix.allocations[i], alloc_tempids(gfix.allocations))
                    == offending_tempid(gfix.allocations[i], m@));
            }
            Err(e)
        },
    }
}

} // verus!
