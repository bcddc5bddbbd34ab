//! The uniform term representation the upsert-resolution engine works on:
//! each place of a proposed fact is either already a concrete identifier or
//! still a placeholder, and a per-round binding map carries the placeholders
//! resolved so far.

use vstd::prelude::*;
use crate::assoc::{assoc_map, distinct_keys, lemma_assoc_map_domain, lemma_assoc_map_entry,
    lemma_assoc_map_push};
use crate::types::{Entid, TempId, TypedValue, TypedValueView};

verus! {

/// The operation of a term: assert or retract one fact.
#[derive(Clone, Copy, Debug, Hash, PartialEq, Eq, Structural)]
pub enum OpType {
    Add,
    Retract,
}

/// The entity place of a term.
#[derive(Debug, PartialEq)]
pub enum EntityPlace {
    Entid(Entid),
    TempId(TempId),
}

/// The value place of a term.
#[derive(Debug, PartialEq)]
pub enum ValuePlace {
    Value(TypedValue),
    TempId(TempId),
}

/// The mathematical shape of an [`EntityPlace`].
#[verifier::ext_equal]
pub enum EntityPlaceView {
    Entid(Entid),
    TempId(Seq<char>),
}

/// The mathematical shape of a [`ValuePlace`].
#[verifier::ext_equal]
pub enum ValuePlaceView {
    Value(TypedValueView),
    TempId(Seq<char>),
}

impl View for EntityPlace {
    type V = EntityPlaceView;

    open spec fn view(&self) -> EntityPlaceView {
        match self {
            EntityPlace::Entid(e) => EntityPlaceView::Entid(*e),
            EntityPlace::TempId(t) => EntityPlaceView::TempId(t@),
        }
    }
}

impl View for ValuePlace {
    type V = ValuePlaceView;

    open spec fn view(&self) -> ValuePlaceView {
        match self {
            ValuePlace::Value(v) => ValuePlaceView::Value(v@),
            ValuePlace::TempId(t) => ValuePlaceView::TempId(t@),
        }
    }
}

impl Clone for EntityPlace {
    fn clone(&self) -> (res: Self)
        ensures
            res == *self,
    {
        match self {
            EntityPlace::Entid(e) => EntityPlace::Entid(*e),
            EntityPlace::TempId(t) => EntityPlace::TempId(t.clone()),
        }
    }
}

impl Clone for ValuePlace {
    fn clone(&self) -> (res: Self)
        ensures
            res == *self,
    {
        match self {
            ValuePlace::Value(v) => ValuePlace::Value(v.clone()),
            ValuePlace::TempId(t) => ValuePlace::TempId(t.clone()),
        }
    }
}

/// One proposed operation over (entity place, attribute, value place), while
/// placeholders may still occur in either place.
#[derive(Debug, PartialEq)]
pub struct TermWithTempIds {
    pub op: OpType,
    pub e: EntityPlace,
    pub a: Entid,
    pub v: ValuePlace,
}

/// One fully concrete operation: no place holds a placeholder.
#[derive(Debug, PartialEq)]
pub struct TermWithoutTempIds {
    pub op: OpType,
    pub e: Entid,
    pub a: Entid,
    pub v: TypedValue,
}

impl Clone for TermWithTempIds {
    fn clone(&self) -> (res: Self)
        ensures
            res == *self,
    {
        TermWithTempIds { op: self.op, e: self.e.clone(), a: self.a, v: self.v.clone() }
    }
}

impl Clone for TermWithoutTempIds {
    fn clone(&self) -> (res: Self)
        ensures
            res == *self,
    {
        TermWithoutTempIds { op: self.op, e: self.e, a: self.a, v: self.v.clone() }
    }
}

/// The mathematical shape of a [`TermWithTempIds`].
#[verifier::ext_equal]
pub struct TermWithTempIdsView {
    pub op: OpType,
    pub e: EntityPlaceView,
    pub a: Entid,
    pub v: ValuePlaceView,
}

/// The mathematical shape of a [`TermWithoutTempIds`].
#[verifier::ext_equal]
pub struct TermWithoutTempIdsView {
    pub op: OpType,
    pub e: Entid,
    pub a: Entid,
    pub v: TypedValueView,
}

impl View for TermWithTempIds {
    type V = TermWithTempIdsView;

    open spec fn view(&self) -> TermWithTempIdsView {
        TermWithTempIdsView { op: self.op, e: self.e@, a: self.a, v: self.v@ }
    }
}

impl View for TermWithoutTempIds {
    type V = TermWithoutTempIdsView;

    open spec fn view(&self) -> TermWithoutTempIdsView {
        TermWithoutTempIdsView { op: self.op, e: self.e, a: self.a, v: self.v@ }
    }
}

/// A population of terms that still reference placeholders.
pub type Population = Vec<TermWithTempIds>;

/// The views of a sequence of placeholder-bearing terms.
pub open spec fn terms_view(s: Seq<TermWithTempIds>) -> Seq<TermWithTempIdsView> {
    s.map_values(|t: TermWithTempIds| t@)
}

/// The views of a sequence of concrete terms.
pub open spec fn concrete_terms_view(s: Seq<TermWithoutTempIds>) -> Seq<TermWithoutTempIdsView> {
    s.map_values(|t: TermWithoutTempIds| t@)
}

/// A per-round mapping from placeholder to entity id, built afresh each
/// round from store lookups and chained resolutions, and consumed once.
#[derive(Debug)]
pub struct TempIdMap {
    entries: Vec<(TempId, Entid)>,
}

/// The key/value shape of a binding map's entries: placeholders as character
/// sequences.
pub open spec fn tempid_entries_kv(s: Seq<(TempId, Entid)>) -> Seq<(Seq<char>, Entid)> {
    s.map_values(|p: (TempId, Entid)| (p.0@, p.1))
}

impl View for TempIdMap {
    type V = Map<Seq<char>, Entid>;

    closed spec fn view(&self) -> Map<Seq<char>, Entid> {
        assoc_map(tempid_entries_kv(self.entries@))
    }
}

impl TempIdMap {
    /// The entries carry pairwise-distinct placeholders.
    pub closed spec fn wf(self) -> bool {
        distinct_keys(tempid_entries_kv(self.entries@))
    }

    pub fn new() -> (m: TempIdMap)
        ensures
            m@ == Map::<Seq<char>, Entid>::empty(),
            m.wf(),
    {
        TempIdMap { entries: Vec::new() }
    }

    /// Bind a placeholder not yet bound.
    pub fn insert(&mut self, t: TempId, e: Entid)
        requires
            old(self).wf(),
            !old(self)@.contains_key(t@),
        ensures
            final(self)@ == old(self)@.insert(t@, e),
            final(self).wf(),
    {
        proof {
            lemma_assoc_map_push(tempid_entries_kv(self.entries@), t@, e);
            assert(tempid_entries_kv(self.entries@.push((t, e))) =~= tempid_entries_kv(
                self.entries@,
            ).push((t@, e)));
        }
        self.entries.push((t, e));
    }

    /// The entity id a placeholder is bound to, if any.
    #[verifier::loop_isolation(false)]
    pub fn get(&self, t: &TempId) -> (r: Option<Entid>)
        requires
            self.wf(),
        ensures
            r == if self@.contains_key(t@) {
                Some(self@[t@])
            } else {
                None::<Entid>
            },
    {
        proof {
            lemma_assoc_map_domain(tempid_entries_kv(self.entries@));
        }
        let n = self.entries.len();
        let mut i: usize = 0;
        while i < n
            invariant
                n == self.entries@.len(),
                i <= n,
                forall|j: int| 0 <= j < i ==> tempid_entries_kv(self.entries@)[j].0 != t@,
            decreases n - i,
        {
            if self.entries[i].0.eq(t) {
                proof {
                    assert(tempid_entries_kv(self.entries@)[i as int] == (self.entries@[i as int].0@,
                        self.entries@[i as int].1,
                    ));
                    lemma_assoc_map_entry(tempid_entries_kv(self.entries@), i as int);
                }
                return Some(self.entries[i].1);
            }
            i += 1;
        }
        None
    }

    /// Whether a placeholder is bound.
    pub fn contains(&self, t: &TempId) -> (r: bool)
        requires
            self.wf(),
        ensures
            r == self@.contains_key(t@),
    {
        self.get(t).is_some()
    }

    /// Whether no placeholder is bound.
    pub fn is_empty(&self) -> (r: bool)
        requires
            self.wf(),
        ensures
            r == (self@.dom() =~= Set::<Seq<char>>::empty()),
    {
        proof {
            lemma_assoc_map_domain(tempid_entries_kv(self.entries@));
            if self.entries@.len() > 0 {
                assert(self@.contains_key(tempid_entries_kv(self.entries@)[0].0));
            }
        }
        self.entries.len() == 0
    }
}

} // verus!
