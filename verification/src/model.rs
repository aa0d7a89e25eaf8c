//! Documents, postings, the inverted index and the values that searches
//! return. Paths are held as text.
use vstd::prelude::*;
use crate::text::{chars_eq, chars_of, to_lowercase, unicode_lowercase};
use crate::textfmt::{extension, extension_chars};

verus! {

/// Version written into every index; an index of another version is refused.
pub const INDEX_VERSION: u32 = 3;

#[derive(Debug, Clone, Copy, PartialEq, Eq, Structural)]
pub enum SupportedFileType {
    Markdown,
    Text,
    Rust,
    Toml,
    Pdf,
}

/// The file type that a (lowercased) extension stands for.
pub open spec fn file_type_for_extension(ext: Seq<char>) -> Option<SupportedFileType> {
    if ext == seq!['m', 'd'] || ext == seq!['m', 'a', 'r', 'k', 'd', 'o', 'w', 'n'] {
        Some(SupportedFileType::Markdown)
    } else if ext == seq!['t', 'x', 't'] {
        Some(SupportedFileType::Text)
    } else if ext == seq!['r', 's'] {
        Some(SupportedFileType::Rust)
    } else if ext == seq!['t', 'o', 'm', 'l'] {
        Some(SupportedFileType::Toml)
    } else if ext == seq!['p', 'd', 'f'] {
        Some(SupportedFileType::Pdf)
    } else {
        None
    }
}

/// The file type of a path: that of its extension, compared without case.
pub open spec fn file_type_of_path(path: Seq<char>) -> Option<SupportedFileType> {
    match extension(path) {
        Some(ext) => file_type_for_extension(unicode_lowercase(ext)),
        None => None,
    }
}

fn file_type_for_extension_exec(ext: &[char]) -> (r: Option<SupportedFileType>)
    ensures
        r == file_type_for_extension(ext@),
{
    if chars_eq(ext, &['m', 'd']) || chars_eq(ext, &['m', 'a', 'r', 'k', 'd', 'o', 'w', 'n']) {
        Some(SupportedFileType::Markdown)
    } else if chars_eq(ext, &['t', 'x', 't']) {
        Some(SupportedFileType::Text)
    } else if chars_eq(ext, &['r', 's']) {
        Some(SupportedFileType::Rust)
    } else if chars_eq(ext, &['t', 'o', 'm', 'l']) {
        Some(SupportedFileType::Toml)
    } else if chars_eq(ext, &['p', 'd', 'f']) {
        Some(SupportedFileType::Pdf)
    } else {
        None
    }
}

impl SupportedFileType {
    /// The supported file type of `path`, decided by its extension.
    pub fn from_path(path: &str) -> (r: Option<Self>)
        ensures
            r == file_type_of_path(path@),
    {
        let p = chars_of(path);
        match extension_chars(p.as_slice()) {
            None => None,
            Some(ext) => {
                let ext_text = crate::text::string_from_chars(ext.as_slice());
                let lower = to_lowercase(ext_text.as_str());
                let lower_chars = chars_of(lower.as_str());
                file_type_for_extension_exec(lower_chars.as_slice())
            },
        }
    }

    /// The variant's name, as `{:?}` prints it.
    pub fn name(&self) -> (s: &'static str)
        ensures
            s@ == file_type_name(*self),
    {
        match self {
            SupportedFileType::Markdown => {
                proof {
                    reveal_strlit("Markdown");
                }
                "Markdown"
            },
            SupportedFileType::Text => {
                proof {
                    reveal_strlit("Text");
                }
                "Text"
            },
            SupportedFileType::Rust => {
                proof {
                    reveal_strlit("Rust");
                }
                "Rust"
            },
            SupportedFileType::Toml => {
                proof {
                    reveal_strlit("Toml");
                }
                "Toml"
            },
            SupportedFileType::Pdf => {
                proof {
                    reveal_strlit("Pdf");
                }
                "Pdf"
            },
        }
    }
}

pub open spec fn file_type_name(t: SupportedFileType) -> Seq<char> {
    match t {
        SupportedFileType::Markdown => seq!['M', 'a', 'r', 'k', 'd', 'o', 'w', 'n'],
        SupportedFileType::Text => seq!['T', 'e', 'x', 't'],
        SupportedFileType::Rust => seq!['R', 'u', 's', 't'],
        SupportedFileType::Toml => seq!['T', 'o', 'm', 'l'],
        SupportedFileType::Pdf => seq!['P', 'd', 'f'],
    }
}

#[derive(Debug, Clone)]
pub struct Document {
    pub id: usize,
    pub path: String,
    pub title: String,
    pub file_type: SupportedFileType,
    pub modified_secs: u64,
    pub size_bytes: u64,
    pub token_count: usize,
    pub content: String,
}

#[derive(Debug, Clone)]
pub struct Posting {
    pub doc_id: usize,
    pub frequency: usize,
    pub occurrences: Vec<IndexedOccurrence>,
}

#[derive(Debug, Clone, Copy, PartialEq, Eq, Structural)]
pub struct IndexedOccurrence {
    pub token_position: usize,
    pub char_start: usize,
    pub char_end: usize,
    pub page: Option<u32>,
}

#[derive(Debug, Clone)]
pub struct IndexMetadata {
    pub version: u32,
    pub root: String,
    pub document_count: usize,
    pub term_count: usize,
    pub total_tokens: usize,
    pub created_secs: u64,
}

/// The postings of one term.
#[derive(Debug, Clone)]
pub struct TermPostings {
    pub term: String,
    pub postings: Vec<Posting>,
}

/// The index: documents by id, and for each term (in increasing order of
/// the terms) the documents that hold it.
#[derive(Debug, Clone)]
pub struct InvertedIndex {
    pub metadata: IndexMetadata,
    pub documents: Vec<Document>,
    pub postings: Vec<TermPostings>,
}

/// The term postings whose term is `t`.
pub open spec fn postings_of(entries: Seq<TermPostings>, t: Seq<char>) -> Option<Seq<Posting>> {
    if exists|i: int| 0 <= i < entries.len() && entries[i].term@ == t {
        Some(entries[choose|i: int| 0 <= i < entries.len() && entries[i].term@ == t].postings@)
    } else {
        None
    }
}

/// The postings found for a term are those of an entry with that term.
pub proof fn lemma_postings_of(entries: Seq<TermPostings>, t: Seq<char>)
    ensures
        postings_of(entries, t) matches Some(ps) ==> exists|i: int|
            0 <= i < entries.len() && (#[trigger] entries[i]).term@ == t && entries[i].postings@ == ps,
        postings_of(entries, t) is None ==> forall|i: int| 0 <= i < entries.len() ==> (#[trigger] entries[i]).term@ != t,
{
    if exists|i: int| 0 <= i < entries.len() && entries[i].term@ == t {
        let ps = postings_of(entries, t)->Some_0;
        assert(exists|i: int| 0 <= i < entries.len() && (#[trigger] entries[i]).term@ == t && entries[i].postings@ == ps);
    }
}

/// Position of the first document with id `doc_id`.
pub open spec fn document_position(docs: Seq<Document>, doc_id: usize) -> Option<int> {
    if exists|i: int| 0 <= i < docs.len() && docs[i].id == doc_id {
        Some(choose|i: int| 0 <= i < docs.len() && docs[i].id == doc_id && forall|j: int| 0 <= j < i ==> docs[j].id != doc_id)
    } else {
        None
    }
}

pub proof fn lemma_document_position(docs: Seq<Document>, doc_id: usize, i: int)
    requires
        0 <= i < docs.len(),
        docs[i].id == doc_id,
        forall|j: int| 0 <= j < i ==> docs[j].id != doc_id,
    ensures
        document_position(docs, doc_id) == Some(i),
{
    let k = choose|k: int| 0 <= k < docs.len() && docs[k].id == doc_id && forall|j: int| 0 <= j < k ==> docs[j].id != doc_id;
    assert(0 <= k < docs.len() && docs[k].id == doc_id && forall|j: int| 0 <= j < k ==> docs[j].id != doc_id);
    if k < i {
        assert(docs[k].id != doc_id);
    }
    if i < k {
        assert(docs[i].id != doc_id);
    }
}

impl InvertedIndex {
    /// The first document whose id is `doc_id`.
    pub fn document(&self, doc_id: usize) -> (r: Option<&Document>)
        ensures
            match document_position(self.documents@, doc_id) {
                Some(i) => r == Some(&self.documents@[i]),
                None => r is None,
            },
    {
        let mut i: usize = 0;
        while i < self.documents.len()
            invariant
                i <= self.documents@.len(),
                forall|j: int| 0 <= j < i ==> self.documents@[j].id != doc_id,
            decreases self.documents.len() - i,
        {
            if self.documents[i].id == doc_id {
                proof {
                    lemma_document_position(self.documents@, doc_id, i as int);
                }
                return Some(&self.documents[i]);
            }
            i = i + 1;
        }
        None
    }

    /// Position of the document with id `doc_id`.
    pub fn document_index(&self, doc_id: usize) -> (r: Option<usize>)
        ensures
            match document_position(self.documents@, doc_id) {
                Some(i) => r == Some(i as usize),
                None => r is None,
            },
    {
        let mut i: usize = 0;
        while i < self.documents.len()
            invariant
                i <= self.documents@.len(),
                forall|j: int| 0 <= j < i ==> self.documents@[j].id != doc_id,
            decreases self.documents.len() - i,
        {
            if self.documents[i].id == doc_id {
                proof {
                    lemma_document_position(self.documents@, doc_id, i as int);
                }
                return Some(i);
            }
            i = i + 1;
        }
        None
    }
}

#[derive(Debug, Clone)]
pub struct TokenOccurrence {
    pub token: String,
    pub position: usize,
    pub char_start: usize,
    pub char_end: usize,
    pub page: Option<u32>,
}

/// A token occurrence as plain values.
pub ghost struct TokenView {
    pub token: Seq<char>,
    pub position: int,
    pub char_start: int,
    pub char_end: int,
    pub page: Option<u32>,
}

impl View for TokenOccurrence {
    type V = TokenView;

    open spec fn view(&self) -> TokenView {
        TokenView {
            token: self.token@,
            position: self.position as int,
            char_start: self.char_start as int,
            char_end: self.char_end as int,
            page: self.page,
        }
    }
}

pub open spec fn token_views(v: Seq<TokenOccurrence>) -> Seq<TokenView> {
    v.map_values(|o: TokenOccurrence| o@)
}

#[derive(Debug, Clone)]
pub struct ParsedDocument {
    pub path: String,
    pub title: String,
    pub file_type: SupportedFileType,
    pub modified_secs: u64,
    pub size_bytes: u64,
    pub content: String,
    pub tokens: Vec<TokenOccurrence>,
}

#[derive(Debug, Clone)]
pub struct SearchMatch {
    pub snippet: String,
    pub matched_terms: Vec<String>,
    pub token_position: usize,
    pub char_start: usize,
    pub char_end: usize,
    pub page: Option<u32>,
}

/// What the ranking of one document needs of one query term: how often
/// it occurs in the document, in how many documents it occurs, and the
/// document's length in tokens.
#[derive(Debug, Clone, Copy, PartialEq, Eq, Structural)]
pub struct TermHit {
    pub frequency: usize,
    pub document_frequency: usize,
    pub document_length: usize,
}

/// A document that matches a query: which terms it holds, where, and the
/// statistics from which its score is computed.
#[derive(Debug, Clone)]
pub struct SearchResult {
    pub doc_id: usize,
    pub title: String,
    pub path: String,
    pub matched_terms: Vec<String>,
    pub snippet: String,
    pub matches: Vec<SearchMatch>,
    pub hits: Vec<TermHit>,
}

#[derive(Debug, Clone, Copy, PartialEq, Eq, Structural)]
pub enum SearchState {
    Empty,
    HasQuery,
    NoResults,
}

#[derive(Debug, Clone, Copy, PartialEq, Eq, Structural)]
pub enum SearchMode {
    Any,
    All,
}

#[derive(Debug, Clone, Copy, PartialEq, Eq, Structural)]
pub enum SearchStrategy {
    Bm25,
    Hybrid,
}

} // verus!
