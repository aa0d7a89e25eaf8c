//! The errors of the application. Errors of outside libraries (I/O, JSON,
//! directory walks) are carried by their message.
use vstd::prelude::*;

verus! {

#[derive(Debug, Clone, PartialEq, Eq)]
pub enum AppError {
    Io(String),
    Json(String),
    WalkDir(String),
    Pdf(String),
    Terminal(String),
    MissingPath(String),
    NotDirectory(String),
    IncompatibleIndex { expected: u32, found: u32 },
    EmptyIndex,
    Config(String),
    Qdrant(String),
    Embedding(String),
}

/// The result of an operation of the application.
pub type AppResult<T> = Result<T, AppError>;

} // verus!
