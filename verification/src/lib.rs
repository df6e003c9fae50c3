//! Selects the types that a request needs from a catalog of type
//! definitions, together with everything they depend on, and files each of
//! them under its own namespace in a tree that can be pruned and emitted.

pub mod closure;
pub mod gen;
pub mod laws;
pub mod limits;
pub mod names;
pub mod reader;
pub mod shape;
pub mod text;
pub mod tree;

pub use gen::{Fragment, Gen};
pub use limits::{NamespaceTypes, TypeLimit, TypeLimits};
pub use names::{split_namespace, to_snake};
pub use reader::{ElementType, TypeDef, TypeReader, UnknownType};
pub use text::{str_lt, to_lower};
pub use tree::{gen_namespaces, TypeTree};
