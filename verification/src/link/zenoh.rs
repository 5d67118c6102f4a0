//! Configuration of the pub/sub key-space backend.

use vstd::prelude::*;

verus! {

/// The text of a pub/sub backend configuration.
#[verifier::ext_equal]
pub ghost struct ZenohConfigView {
    pub key: Seq<char>,
}

/// A pub/sub exchange: messages are published under `key` and received
/// by subscribing to it.
#[derive(Debug, PartialEq, Eq, Hash)]
pub struct Config {
    pub key: String,
}

impl View for Config {
    type V = ZenohConfigView;

    open spec fn view(&self) -> ZenohConfigView {
        ZenohConfigView { key: self.key@ }
    }
}

impl Clone for Config {
    fn clone(&self) -> (r: Self)
        ensures
            r@ == self@,
    {
        Config { key: self.key.clone() }
    }
}

} // verus!
