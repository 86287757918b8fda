//! A streaming HTML rewriter: the selector matching machinery, the rewritable units
//! and their mutations, with their contracts.

pub mod base;
pub mod html;
pub mod rewritable_units;
pub mod rewriter;
pub mod selectors_vm;
pub mod tag_name;
pub mod token;
pub mod tokenizer;
