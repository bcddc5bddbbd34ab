//! The write-path core of a triple-style embedded store: deciding, before any
//! row is committed, which transaction-scoped placeholders denote entities
//! that already exist and which must be freshly allocated.

use vstd::prelude::*;

pub mod assoc;
pub mod db;
pub mod errors;
pub mod internal_types;
pub mod tx;
pub mod types;
pub mod upsert_resolution;

verus! {

/// Returns a version string.
pub fn version() -> (s: &'static str)
    ensures
        s@ == "0.7.0"@,
{
    "0.7.0"
}

} // verus!
