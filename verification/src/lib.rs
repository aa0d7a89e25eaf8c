use vstd::prelude::*;

pub mod error;
pub mod text;
pub mod order;
pub mod textfmt;
pub mod model;
pub mod subtokens;
pub mod parser;
pub mod pdf;
pub mod index;
pub mod indexing;
pub mod matching;
pub mod search;
pub mod engine;
pub mod analysis;
pub mod report;
pub mod vector;
pub mod hybrid;
pub mod config;
pub mod ui;
pub mod scanner;
pub mod storage;
pub mod tui;
pub mod embedding;
pub mod cli;
pub mod tree;

verus! {

} // verus!
