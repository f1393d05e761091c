//! An in-memory full-text search library: tokenization, per-document word
//! counts, a document store, and single- and multi-word queries.
use vstd::prelude::*;

pub mod document;
pub mod index;
pub mod payload;
pub mod search;
pub mod text;

pub use document::{
    calculate_doc_stats, create_document, prepare_batch, prepare_document, prepare_extracted,
    DocId, DocStats, Document, DocumentInfo, DocumentStore, IngestError, PreparedDocument,
    StoreError,
};
pub use index::{build_word_counts, WordCounts};
pub use payload::{decode_payload, PayloadError};
pub use search::{
    choose_mode, count_word_recursive, extract_snippets, find_docs_with_all_words, search_many,
    search_query,
    search_single_word, search_words, search_words_parallel, search_words_sequential,
    DocumentMatch, ExecutionMode, PerDocCount, WordResult,
};
pub use text::{clean_words, is_blank, normalize_token, split_query_into_words, tokenize, trim};

verus! {

} // verus!
