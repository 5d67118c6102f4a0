//! The attachment set of one exchange: which processors stand on its
//! sink side and which on its source side.

use vstd::prelude::*;
use crate::ident::{clone_idents, Ident, idents_view};

verus! {

/// The attachment sets of a connection, as name sequences; an absent
/// field is distinguished from a present empty one.
#[verifier::ext_equal]
pub ghost struct ConnView {
    pub sink: Option<Seq<Seq<char>>>,
    pub source: Option<Seq<Seq<char>>>,
}

impl ConnView {
    /// The sink names, an absent field giving the empty sequence.
    pub open spec fn sink_names(self) -> Seq<Seq<char>> {
        match self.sink {
            Some(names) => names,
            None => Seq::empty(),
        }
    }

    /// The source names, an absent field giving the empty sequence.
    pub open spec fn source_names(self) -> Seq<Seq<char>> {
        match self.source {
            Some(names) => names,
            None => Seq::empty(),
        }
    }
}

/// One exchange's attachment sets: the processors whose inputs the
/// exchange feeds (`sink`) and the processors whose outputs feed the
/// exchange (`source`).  Either side may be absent, meaning no processor
/// stands on it.  No referential validation lives here; whether the
/// named processors exist is the flattening engine's concern.
#[derive(Debug, PartialEq, Eq)]
pub struct Connection {
    pub sink: Option<Vec<Ident>>,
    pub source: Option<Vec<Ident>>,
}

impl View for Connection {
    type V = ConnView;

    open spec fn view(&self) -> ConnView {
        ConnView {
            sink: match self.sink {
                Some(v) => Some(idents_view(v@)),
                None => None,
            },
            source: match self.source {
                Some(v) => Some(idents_view(v@)),
                None => None,
            },
        }
    }
}

impl Connection {
    /// The processors on the sink side, in declaration order; empty when
    /// the field is absent.
    pub fn sink_iter(&self) -> (r: Vec<Ident>)
        ensures
            idents_view(r@) == self@.sink_names(),
    {
        match &self.sink {
            Some(v) => clone_idents(v),
            None => Vec::new(),
        }
    }

    /// The processors on the source side, in declaration order; empty
    /// when the field is absent.
    pub fn source_iter(&self) -> (r: Vec<Ident>)
        ensures
            idents_view(r@) == self@.source_names(),
    {
        match &self.source {
            Some(v) => clone_idents(v),
            None => Vec::new(),
        }
    }
}

impl Clone for Connection {
    fn clone(&self) -> (r: Self)
        ensures
            r@ == self@,
    {
        Connection {
            sink: match &self.sink {
                Some(v) => Some(clone_idents(v)),
                None => None,
            },
            source: match &self.source {
                Some(v) => Some(clone_idents(v)),
                None => None,
            },
        }
    }
}

} // verus!
