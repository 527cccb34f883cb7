//! Name resolution and mid-level IR passes of a small compiler, with their contracts.

pub mod ast;
pub mod diag;
pub mod hir;
pub mod mir;
pub mod nameres;
pub mod session;
pub mod support;
pub mod typeck;
