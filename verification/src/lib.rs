//! Core of a personal-wiki full-text search service.
//!
//! The pipeline: wiki markup is flattened to plain text (`textify`), run
//! through the analysis chain (`analyze`) into documents of the in-memory
//! index store (`index`), which a revision-gated scheduler rebuilds and
//! atomically swaps (`scheduler`). Queries are parsed and matched
//! (`query`), ranked, paged and turned into snippet entries (`results`),
//! whose highlighted ranges are merged (`spans`) and rendered with
//! caller-supplied markers (`snippet`, `handler`). Dates live in a plain
//! calendar model (`date`); pages and namespaces in `page`.

use vstd::prelude::*;

pub mod analyze;
pub mod chars;
pub mod date;
pub mod error;
pub mod handler;
pub mod index;
pub mod page;
pub mod query;
pub mod results;
pub mod scheduler;
pub mod snippet;
pub mod spans;
pub mod textify;

verus! {

} // verus!
