//! Layered name tables: chains of constant, hash-accelerated and growable
//! tables that share one dense id space.

pub mod hash;
pub mod idx;
pub mod model;
pub mod table;
pub mod text;

pub use hash::name_hash;
pub use idx::NameTableIdx;
pub use table::{AnyNameTable, DynamicNameTable, NameTable, StaticHashedNameTable, StaticNameTable};
