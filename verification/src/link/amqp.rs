//! Configuration of the AMQP queue backend.

use vstd::prelude::*;

verus! {

/// What a bounded queue does when full.
#[derive(Clone, Copy, PartialEq, Eq, Hash, Structural, Debug)]
pub enum Overflow {
    DropHead,
    RejectPublish,
}

/// The text of an AMQP backend configuration.
#[verifier::ext_equal]
pub ghost struct AmqpConfigView {
    pub address: Seq<char>,
    pub exchange: Seq<char>,
    pub queue: Option<Seq<char>>,
    pub max_length: Option<usize>,
    pub message_ttl_millis: Option<usize>,
    pub reliable: bool,
    pub force: bool,
}

/// An AMQP exchange: `address` names the broker, `exchange` the remote
/// exchange, `queue` an optional fixed queue name; `reliable` selects
/// confirmed publishing and `force` re-creates mismatched declarations.
#[derive(Debug, PartialEq, Eq, Hash)]
pub struct Config {
    pub address: String,
    pub exchange: String,
    pub queue: Option<String>,
    pub max_length: Option<usize>,
    pub message_ttl_millis: Option<usize>,
    pub reliable: bool,
    pub force: bool,
}

impl Config {
    /// The overflow behaviour the configuration implies for a bounded
    /// queue: reliable publishing rejects a publish on overflow, while
    /// unreliable publishing drops the queue head.
    pub fn overflow(&self) -> (r: Overflow)
        ensures
            r == (if self.reliable {
                Overflow::RejectPublish
            } else {
                Overflow::DropHead
            }),
    {
        if self.reliable {
            Overflow::RejectPublish
        } else {
            Overflow::DropHead
        }
    }
}

impl View for Config {
    type V = AmqpConfigView;

    open spec fn view(&self) -> AmqpConfigView {
        AmqpConfigView {
            address: self.address@,
            exchange: self.exchange@,
            queue: match self.queue {
                Some(q) => Some(q@),
                None => None,
            },
            max_length: self.max_length,
            message_ttl_millis: self.message_ttl_millis,
            reliable: self.reliable,
            force: self.force,
        }
    }
}

impl Clone for Config {
    fn clone(&self) -> (r: Self)
        ensures
            r@ == self@,
    {
        Config {
            address: self.address.clone(),
            exchange: self.exchange.clone(),
            queue: match &self.queue {
                Some(q) => Some(q.clone()),
                None => None,
            },
            max_length: self.max_length,
            message_ttl_millis: self.message_ttl_millis,
            reliable: self.reliable,
            force: self.force,
        }
    }
}

} // verus!
