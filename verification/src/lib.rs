//! A minimal doublet store with a pattern-rewrite query notation.

pub mod changes_simplifier;
pub mod embedded;
pub mod error;
pub mod link;
pub mod link_storage;
pub mod links_operations;
pub mod lino_link;
pub mod lino_parser;
pub mod order;
pub mod parser;
pub mod persistence;
pub mod query_laws;
pub mod query_model;
pub mod query_processor;
pub mod simplifier_laws;
pub mod structure_laws;
pub mod text;

pub use changes_simplifier::simplify_changes;
pub use error::LinkError;
pub use link::Link;
pub use link_storage::LinkStorage;
pub use lino_link::LinoLink;
pub use parser::Parser;
pub use query_processor::{QueryOptions, QueryProcessor};
