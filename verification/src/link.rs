//! Transport configuration data for the exchange backends.
//!
//! The graph model carries one such configuration per declared exchange
//! and hands it out unchanged on resolution; constructing an actual
//! sender or receiver from it is the transport layer's work and happens
//! outside this crate.

pub mod amqp;
pub mod file;
pub mod generic;
pub mod import;
pub mod null;
pub mod unix;
pub mod zenoh;

pub use generic::Config;
