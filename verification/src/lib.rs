//! Code-aware search: query planning, scanning, block extraction, ranking order,
//! session de-duplication, limits and merging, with machine-checked contracts.

pub mod ast;
pub mod blocks;
pub mod cache;
pub mod engine;
pub mod files;
pub mod hits;
pub mod lexer;
pub mod limits;
pub mod merge;
pub mod models;
pub mod output;
pub mod parser;
pub mod plan;
pub mod ranking;
pub mod runner;
pub mod scan;
pub mod selection;
pub mod sequences;
pub mod store;
pub mod terms;
pub mod text;
pub mod timing;
