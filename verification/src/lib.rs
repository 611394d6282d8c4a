//! Go-to-definition for Java sources: a token index built from the syntax
//! tree of each open document, and scope-chain resolution of identifier
//! references against it.

pub mod position;
pub mod text;
pub mod grammar;
pub mod syntax;
pub mod parser;
pub mod token;
pub mod indexer;
pub mod table;
pub mod resolver;
pub mod service;
pub mod guarantees;
