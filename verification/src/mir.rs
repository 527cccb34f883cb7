//! The mid-level IR: bodies of basic blocks over places, and the passes that run over them.

pub mod ids;
pub mod instance;
pub mod operand;
pub mod place;
pub mod rvalue;
pub mod statement;
pub mod terminator;
pub mod body;
pub mod def_infos;
pub mod def_names;
pub mod lower;
pub mod vtables;
pub mod constck;
pub mod checks;
pub mod drop_elaboration;
pub mod monomorphize;
