//! Configuration of the no-op backend.

use vstd::prelude::*;

verus! {

/// How a receiver on a no-op exchange behaves: report end of stream at
/// once, block forever, or fail.
#[derive(Clone, Copy, PartialEq, Eq, Hash, Structural, Debug)]
pub enum ReceiverKind {
    Empty,
    Block,
    Error,
}

/// The content of a no-op backend configuration.
#[verifier::ext_equal]
pub ghost struct NullConfigView {
    pub recv: ReceiverKind,
}

/// A no-op exchange: sending discards the payload; receiving behaves as
/// `recv` says.
#[derive(Debug, PartialEq, Eq, Hash)]
pub struct Config {
    pub recv: ReceiverKind,
}

impl View for Config {
    type V = NullConfigView;

    open spec fn view(&self) -> NullConfigView {
        NullConfigView { recv: self.recv }
    }
}

impl Clone for Config {
    fn clone(&self) -> (r: Self)
        ensures
            r@ == self@,
    {
        Config { recv: self.recv }
    }
}

} // verus!
