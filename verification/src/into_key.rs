//! Conversion of name-like values into [`Key`].

use vstd::prelude::*;
use crate::ident::Ident;
use crate::key::{Key, valid_key_text};
use crate::text::split_on;

verus! {

/// Conversion into a key.  For textual sources the conversion is
/// partial: it has no error value, so it is only permitted on valid
/// `/`-joined key text.
pub trait IntoKey: Sized {
    /// Whether the conversion is permitted.
    spec fn key_ready(&self) -> bool;

    /// The identifier texts the conversion yields.
    spec fn key_view(&self) -> Seq<Seq<char>>;

    /// Convert into a key.
    fn into(self) -> (r: Key)
        requires
            self.key_ready(),
        ensures
            r@ == self.key_view(),
    ;
}

impl IntoKey for String {
    open spec fn key_ready(&self) -> bool {
        valid_key_text(self@)
    }

    open spec fn key_view(&self) -> Seq<Seq<char>> {
        split_on(self@, '/')
    }

    fn into(self) -> (r: Key) {
        Key::parse(self.as_str()).unwrap()
    }
}

impl<'a> IntoKey for &'a String {
    open spec fn key_ready(&self) -> bool {
        valid_key_text((*self)@)
    }

    open spec fn key_view(&self) -> Seq<Seq<char>> {
        split_on((*self)@, '/')
    }

    fn into(self) -> (r: Key) {
        Key::parse(self.as_str()).unwrap()
    }
}

impl<'a> IntoKey for &'a str {
    open spec fn key_ready(&self) -> bool {
        valid_key_text((*self)@)
    }

    open spec fn key_view(&self) -> Seq<Seq<char>> {
        split_on((*self)@, '/')
    }

    fn into(self) -> (r: Key) {
        Key::parse(self).unwrap()
    }
}

impl IntoKey for Key {
    open spec fn key_ready(&self) -> bool {
        true
    }

    open spec fn key_view(&self) -> Seq<Seq<char>> {
        (*self)@
    }

    fn into(self) -> (r: Key) {
        self
    }
}

impl<'a> IntoKey for &'a Key {
    open spec fn key_ready(&self) -> bool {
        true
    }

    open spec fn key_view(&self) -> Seq<Seq<char>> {
        (**self)@
    }

    fn into(self) -> (r: Key) {
        self.clone()
    }
}

} // verus!
