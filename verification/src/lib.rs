//! A document-model library for Word (`.docx`) content: it reconstructs an
//! ordered stream of headings, paragraphs, lists, tables, images and
//! equations from the raw OOXML paragraph data, resolving numbering and
//! heading signals under fixed priority rules.

use vstd::prelude::*;

pub mod cleanup;
pub mod equation;
pub mod heading;
pub mod list;
pub mod models;
pub mod raw;
pub mod numbering;
pub mod query;
pub mod reconstruct;
pub mod table;
pub mod text;
pub mod xmlscan;

verus! {

/// Estimated page count for a word count, at 250 words per page, rounded up.
pub fn estimate_page_count(word_count: usize) -> (pages: usize)
    ensures
        pages == (word_count + 249) / 250,
{
    if word_count > usize::MAX - 249 {
        // Cannot occur for realistic word counts, but keeps the addition safe.
        word_count / 250 + if word_count % 250 == 0 { 0 } else { 1 }
    } else {
        (word_count + 249) / 250
    }
}

} // verus!
