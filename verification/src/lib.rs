//! Disjoint set union over integer keys, with a verified core.

pub mod arrow;
pub mod buffer;
mod compact;
pub mod dsu_core;
pub mod dsu;
pub mod dtype;
pub mod encoding;
pub mod interner;
pub mod keys;
pub mod labels;
mod maps;

pub use dsu::Dsu;
pub use dsu_core::{CoreError, DsuCore};
pub use dtype::DTypeKind;
pub use interner::Interner;
