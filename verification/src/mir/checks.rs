//! The checks that run over the lowered program before monomorphization.

pub mod constck;
pub mod borrowck;
pub mod lattice;
pub mod never_read;
pub mod always_return;
