//! Static checks of GraphQL operation documents against a schema, and the
//! path arithmetic that the code generator uses to point one file at another.

pub mod relative_path;
pub mod ast;
pub mod schema;
pub mod error;
pub mod fragment_map;
pub mod common;
pub mod operation_checker;
pub mod builder;
