//! Dataflow configuration graph model and topology resolution.
//!
//! A configuration declares *processors* (named participants), *exchanges*
//! (named transport channels) and *connections* (which processors attach to
//! which exchange), optionally split across included module files.  This
//! crate validates and flattens such a configuration tree into one
//! namespaced graph and resolves "processor P wants its input/output" into
//! the transport configuration of a concrete exchange.

pub mod assoc;
pub mod connection;
pub mod dataflow;
pub mod dir;
pub mod error;
pub mod graph;
pub mod ident;
pub mod into_ident;
pub mod into_key;
pub mod key;
pub mod link;
pub mod text;

pub use connection::Connection;
pub use dataflow::Dataflow;
pub use dir::Dir;
pub use error::Error;
pub use graph::{FlattenError, GraphConfig, GraphUnchecked, Module, Version};
pub use ident::Ident;
pub use into_ident::IntoIdent;
pub use into_key::IntoKey;
pub use key::Key;
