//! A two-pass macro assembler: it expands macro instructions into base
//! instructions, resolves labels to instruction indices and emits the
//! compact listing.

pub mod text;
pub mod number;
pub mod expand;
pub mod labels;
pub mod listing;
pub mod laws;
