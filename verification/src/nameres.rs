//! AST-level name resolution: what each name means, and the tables that answer it.

pub mod diagnostics;
pub mod laws;
pub mod res;
pub mod symbol_table;
pub mod results;
