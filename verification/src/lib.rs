//! Data-resolution and template-rendering engine for multi-file text
//! documents.
//!
//! The library assembles an included-file tree into one flat sequence of
//! lines, resolves a data context whose leaves may be arithmetic formulas
//! (recursively, with cycle protection), and renders `{{...}}` placeholders
//! in each line against the resolved context with a small fixed set of
//! formatting helpers.

pub mod assemble;
pub mod exprs;
pub mod formula;
pub mod numeric;
pub mod render;
pub mod textutil;
pub mod value;
