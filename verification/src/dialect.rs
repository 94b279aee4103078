//! Operation vocabularies and the lowering rules between them: one factory
//! function per mnemonic, and rule sets that lower the generic dialects
//! into the target one.

pub mod arith;
pub mod from_arith;
pub mod from_func;
pub mod from_mem;
pub mod func;
pub mod mem;
pub mod x86;
