//! Conversion of name-like values into [`Ident`].

use vstd::prelude::*;
use crate::ident::{Ident, valid_ident};

verus! {

/// Conversion into an identifier.  For textual sources the conversion
/// is partial: it has no error value, so it is only permitted on valid
/// identifier text.
pub trait IntoIdent: Sized {
    /// Whether the conversion is permitted.
    spec fn ident_ready(&self) -> bool;

    /// The identifier text the conversion yields.
    spec fn ident_view(&self) -> Seq<char>;

    /// Convert into an identifier.
    fn into(self) -> (r: Ident)
        requires
            self.ident_ready(),
        ensures
            r@ == self.ident_view(),
    ;
}

impl IntoIdent for String {
    open spec fn ident_ready(&self) -> bool {
        valid_ident(self@)
    }

    open spec fn ident_view(&self) -> Seq<char> {
        self@
    }

    fn into(self) -> (r: Ident) {
        Ident::new(self.as_str()).unwrap()
    }
}

impl<'a> IntoIdent for &'a String {
    open spec fn ident_ready(&self) -> bool {
        valid_ident((*self)@)
    }

    open spec fn ident_view(&self) -> Seq<char> {
        (*self)@
    }

    fn into(self) -> (r: Ident) {
        Ident::new(self.as_str()).unwrap()
    }
}

impl<'a> IntoIdent for &'a str {
    open spec fn ident_ready(&self) -> bool {
        valid_ident((*self)@)
    }

    open spec fn ident_view(&self) -> Seq<char> {
        (*self)@
    }

    fn into(self) -> (r: Ident) {
        Ident::new(self).unwrap()
    }
}

impl IntoIdent for Ident {
    open spec fn ident_ready(&self) -> bool {
        true
    }

    open spec fn ident_view(&self) -> Seq<char> {
        (*self)@
    }

    fn into(self) -> (r: Ident) {
        self
    }
}

impl<'a> IntoIdent for &'a Ident {
    open spec fn ident_ready(&self) -> bool {
        true
    }

    open spec fn ident_view(&self) -> Seq<char> {
        (**self)@
    }

    fn into(self) -> (r: Ident) {
        self.clone()
    }
}

} // verus!
