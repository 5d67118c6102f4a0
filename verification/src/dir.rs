//! Possibly-empty identifier sequences naming namespace mount points.

use vstd::prelude::*;
use crate::ident::{Ident, idents_view, valid_ident};
use crate::key::idents_to_text;
use crate::text::{join_with, split_on};

verus! {

/// A sequence of identifiers that may be empty (the root); written with
/// the same `/`-joined notation as a key.
#[derive(Debug, PartialEq, Eq)]
pub struct Dir {
    idents: Vec<Ident>,
}

impl View for Dir {
    type V = Seq<Seq<char>>;

    closed spec fn view(&self) -> Seq<Seq<char>> {
        idents_view(self.idents@)
    }
}

impl Dir {
    /// Create a directory path from an identifier sequence.
    pub fn new(idents: Vec<Ident>) -> (r: Dir)
        ensures
            r@ == idents_view(idents@),
    {
        Dir { idents }
    }

    /// Render as `/`-joined text; the empty directory renders as the
    /// empty text.
    pub fn to_text(&self) -> (r: String)
        ensures
            r@ == join_with(self@, '/'),
    {
        idents_to_text(&self.idents)
    }

    /// Parse `/`-joined text; the empty text parses as the root.
    pub fn parse(text: &str) -> (r: Option<Dir>)
        ensures
            text@.len() == 0 ==> r is Some && r.unwrap()@ == Seq::<Seq<char>>::empty(),
            text@.len() > 0 ==> {
                &&& r is Some <==> crate::key::valid_key_text(text@)
                &&& r is Some ==> r.unwrap()@ == split_on(text@, '/')
            },
    {
        if text.unicode_len() == 0 {
            Some(Dir { idents: Vec::new() })
        } else {
            match crate::key::Key::parse(text) {
                Some(key) => Some(key.into_dir()),
                None => None,
            }
        }
    }
}

impl Clone for Dir {
    fn clone(&self) -> (r: Self)
        ensures
            r@ == self@,
    {
        let mut idents: Vec<Ident> = Vec::new();
        let mut i: usize = 0;
        while i < self.idents.len()
            invariant
                0 <= i <= self.idents@.len(),
                idents@ =~= self.idents@.subrange(0, i as int),
            decreases self.idents@.len() - i,
        {
            idents.push(self.idents[i].clone());
            i += 1;
        }
        proof {
            assert(idents@ =~= self.idents@);
        }
        Dir { idents }
    }
}

} // verus!
