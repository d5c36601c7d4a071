//! Core of a full-text search engine: query enhancement with synonym
//! expansion, postings collection, per-document match records, and a
//! cascade of ranking criteria.

use vstd::prelude::*;

pub mod criteria;
pub mod index;
pub mod distance;
pub mod normalize;
pub mod options;
pub mod query_builder;
pub mod query_enhancer;
pub mod raw_document;
pub mod synonyms_addition;

verus! {

/// Opaque 64-bit document identifier, totally ordered, assigned externally.
#[derive(Clone, Copy, Debug, PartialEq, Eq, Structural)]
pub struct DocumentId(pub u64);

/// One match of a query word inside one document field.
///
/// `query_index` refers to the expanded ("real") query sequence; translation
/// back to the user's original positions is the query enhancer's job.
#[derive(Clone, Copy, Debug, PartialEq, Eq, Structural)]
pub struct TmpMatch {
    pub query_index: u32,
    pub distance: u8,
    pub attribute: u16,
    pub word_index: u16,
    pub is_exact: bool,
}

/// A byte-range span inside a document field, carried along for rendering.
#[derive(Clone, Copy, Debug, PartialEq, Eq, Structural)]
pub struct Highlight {
    pub attribute: u16,
    pub char_index: u16,
    pub char_length: u16,
}

/// A posting: one occurrence of an indexed word in a document field.
#[derive(Clone, Copy, Debug, PartialEq, Eq, Structural)]
pub struct DocIndex {
    pub document_id: DocumentId,
    pub attribute: u16,
    pub word_index: u16,
    pub char_index: u16,
    pub char_length: u16,
}

} // verus!
