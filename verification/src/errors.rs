//! The errors upsert resolution can surface.  Every error aborts the whole
//! transaction: the engine performs no partial commits.

use vstd::prelude::*;
use crate::types::{Entid, TempId};

verus! {

/// An error raised while resolving a transaction's placeholders.
#[derive(Debug, PartialEq)]
pub enum DbError {
    /// A term referenced an attribute id the schema does not know.
    UnknownAttribute(Entid),
    /// A unique-identity `[a v]` pair matched more than one existing entity:
    /// the attribute, and two distinct entities it matched.  This is a
    /// store-side consistency fault, not a user error.
    AVResolutionConflict(Entid, Entid, Entid),
    /// A retraction referenced a placeholder that never gained an entity id:
    /// retracting a fact about an entity that was never established.
    UnresolvedRetractTempId(TempId),
    /// The named partition had too few identifiers left for the allocations
    /// the transaction asked for.
    PartitionExhausted(String),
}

/// The mathematical shape of a [`DbError`], with strings as character
/// sequences.
pub enum DbErrorView {
    UnknownAttribute(Entid),
    AVResolutionConflict(Entid, Entid, Entid),
    UnresolvedRetractTempId(Seq<char>),
    PartitionExhausted(Seq<char>),
}

impl View for DbError {
    type V = DbErrorView;

    open spec fn view(&self) -> DbErrorView {
        match self {
            DbError::UnknownAttribute(a) => DbErrorView::UnknownAttribute(*a),
            DbError::AVResolutionConflict(a, e1, e2) => DbErrorView::AVResolutionConflict(
                *a,
                *e1,
                *e2,
            ),
            DbError::UnresolvedRetractTempId(t) => DbErrorView::UnresolvedRetractTempId(t@),
            DbError::PartitionExhausted(name) => DbErrorView::PartitionExhausted(name@),
        }
    }
}

} // verus!
