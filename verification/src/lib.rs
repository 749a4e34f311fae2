//! Decision logic for mirroring remote documents into a local store: which
//! documents to fetch again, under which local name, and what to remember.

pub mod document;
pub mod engine;
pub mod filename;
pub mod ledger;
