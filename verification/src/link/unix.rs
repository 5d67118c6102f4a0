//! Configuration of the Unix-domain-socket backend.

use vstd::prelude::*;

verus! {

/// The text of a Unix-socket backend configuration.
#[verifier::ext_equal]
pub ghost struct UnixConfigView {
    pub path: Seq<char>,
    pub force: bool,
    pub connect_timeout_millis: Option<u64>,
}

/// A Unix-domain-socket exchange: the receiver binds `path`, the sender
/// connects to it; `force` removes a stale socket file first and the
/// optional timeout bounds the sender's connection attempts.
#[derive(Debug, PartialEq, Eq, Hash)]
pub struct Config {
    pub path: String,
    pub force: bool,
    pub connect_timeout_millis: Option<u64>,
}

impl View for Config {
    type V = UnixConfigView;

    open spec fn view(&self) -> UnixConfigView {
        UnixConfigView {
            path: self.path@,
            force: self.force,
            connect_timeout_millis: self.connect_timeout_millis,
        }
    }
}

impl Clone for Config {
    fn clone(&self) -> (r: Self)
        ensures
            r@ == self@,
    {
        Config {
            path: self.path.clone(),
            force: self.force,
            connect_timeout_millis: self.connect_timeout_millis,
        }
    }
}

} // verus!
