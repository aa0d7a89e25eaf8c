//! The commands of the command line, as plain values (the parser that
//! fills them is the caller's).
use vstd::prelude::*;
use crate::model::{SearchMode, SearchStrategy};

verus! {

/// The command line: one command.
#[derive(Debug, Clone)]
pub struct Cli {
    pub command: Command,
}

#[derive(Debug, Clone)]
pub enum Command {
    /// Build an index from a local directory.
    Index { path: String, output: String },
    /// Search an existing index.
    Search { query: String, index: String, limit: usize, mode: CliSearchMode, strategy: CliStrategy },
    /// Write the chunks of an index to the vector store.
    VectorIndex { index: String },
    /// Show index statistics.
    Stats { index: String },
    /// Show the most frequent terms in the index.
    Terms { index: String, limit: usize },
    /// Inspect one indexed document by its document id.
    Inspect { doc_id: usize, index: String, limit: usize },
    /// Export a Markdown report from the index.
    Report { index: String, output: String, limit: usize },
    /// Open the terminal search interface.
    Tui { index: String },
}

/// Match any query term or require all query terms.
#[derive(Debug, Clone, Copy, PartialEq, Eq, Structural)]
pub enum CliSearchMode {
    Any,
    All,
}

/// Keyword search alone, or combined with the vector store.
#[derive(Debug, Clone, Copy, PartialEq, Eq, Structural)]
pub enum CliStrategy {
    Bm25,
    Hybrid,
}

impl From<CliSearchMode> for SearchMode {
    fn from(value: CliSearchMode) -> (r: Self) {
        match value {
            CliSearchMode::Any => SearchMode::Any,
            CliSearchMode::All => SearchMode::All,
        }
    }
}

impl vstd::std_specs::convert::FromSpecImpl<CliSearchMode> for SearchMode {
    open spec fn obeys_from_spec() -> bool {
        true
    }

    open spec fn from_spec(value: CliSearchMode) -> Self {
        match value {
            CliSearchMode::Any => SearchMode::Any,
            CliSearchMode::All => SearchMode::All,
        }
    }
}

impl From<CliStrategy> for SearchStrategy {
    fn from(value: CliStrategy) -> (r: Self) {
        match value {
            CliStrategy::Bm25 => SearchStrategy::Bm25,
            CliStrategy::Hybrid => SearchStrategy::Hybrid,
        }
    }
}

impl vstd::std_specs::convert::FromSpecImpl<CliStrategy> for SearchStrategy {
    open spec fn obeys_from_spec() -> bool {
        true
    }

    open spec fn from_spec(value: CliStrategy) -> Self {
        match value {
            CliStrategy::Bm25 => SearchStrategy::Bm25,
            CliStrategy::Hybrid => SearchStrategy::Hybrid,
        }
    }
}

} // verus!
