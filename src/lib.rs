//! Finds comment blocks in source text and groups the ones that carry
//! TODO-like marker words by label.

pub mod text;
pub mod extract;
pub mod labels;
pub mod tracker;
pub mod scan;
