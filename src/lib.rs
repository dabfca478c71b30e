//! A demand-driven, memoizing scoreboard that lowers VHDL design units into a
//! high-level representation, resolves library-level names, binds
//! architectures to their entities, and synthesizes low-level entities.

pub mod id;
pub mod refs;
pub mod syntax;
pub mod hir;
pub mod diag;
pub mod table;
pub mod scope;
pub mod arch;
pub mod llmod;
pub mod score;
