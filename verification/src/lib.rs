//! A small compiler construction toolkit: an arena-backed intermediate
//! representation, an intrusive sequencing structure over it, a rewrite
//! engine with composable lowering rules, and a front end for a small
//! C-like language.

pub mod attr;
pub mod ctx;
pub mod dialect;
pub mod driver;
pub mod error;
pub mod ir;
pub mod laws;
pub mod link;
pub mod parser;
pub mod pool;
pub mod render;
pub mod rewrite;
pub mod src;
pub mod text;
pub mod transform;
