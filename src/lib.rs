//! Authorization scopes: a registry of named scopes, the inclusion hierarchy
//! between them, and boolean access policies checked against presented scopes.

pub mod scope;
pub mod graph;
pub mod error;
pub mod registry;
pub mod policy;
pub mod hierarchy;
pub mod builder;
