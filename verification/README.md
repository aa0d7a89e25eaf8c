# CheeseBase (rust-note-search)

A local knowledge-base search tool: it scans a directory of Markdown, text,
Rust, TOML and PDF files, builds an inverted index with positions and pages,
and searches it by keyword (BM25) or, with DashScope embeddings and a Qdrant
vector store, by a hybrid of keywords and vectors. It has a command line and
a terminal interface.

## Layout

- `src/` is the library, written in Verus: tokenizing (English words,
  identifiers, numbers and Chinese through jieba-rs), titles and searchable
  text, PDF text and pages from a file's bytes (pdf-extract and lopdf), the
  index and its laws, the keyword search with its matches and
  snippets, term statistics and the Markdown report, chunking for the vector
  store, the per-document merge of hybrid results, configuration values, the
  file tree, and the states of the terminal interface with every key and
  mouse step.
- `app/` is the program around it: command-line parsing (clap), reading and
  writing files, the directory walk, the JSON index file
  (serde), the HTTP clients, the event loop and drawing (ratatui), and every
  score in floating point (BM25 and the hybrid weighting).
- `tests/` runs the library on concrete inputs.
