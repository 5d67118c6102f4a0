//! Non-empty identifier sequences naming exchanges in the flattened graph.

use vstd::prelude::*;
use crate::dir::Dir;
use crate::ident::{Ident, ident_char, idents_view, valid_ident};
use crate::text::{join_with, lemma_split_on_join_with, sep_free, split_on, split_text};

verus! {

/// True when every segment of `s` split on `/` is a valid identifier;
/// exactly these texts parse as keys.
pub open spec fn valid_key_text(s: Seq<char>) -> bool {
    forall|i: int| 0 <= i < split_on(s, '/').len() ==> valid_ident(#[trigger] split_on(s, '/')[i])
}

/// A non-empty sequence of identifiers; written `a/b/c`.
#[derive(Debug, PartialEq, Eq, Hash)]
pub struct Key {
    idents: Vec<Ident>,
}

impl View for Key {
    type V = Seq<Seq<char>>;

    closed spec fn view(&self) -> Seq<Seq<char>> {
        idents_view(self.idents@)
    }
}

/// An identifier contains no `/`.
pub proof fn lemma_valid_ident_slash_free(s: Seq<char>)
    requires
        valid_ident(s),
    ensures
        sep_free(s, '/'),
{
    assert forall|i: int| 0 <= i < s.len() implies #[trigger] s[i] != '/' by {
        assert(ident_char(s[i]));
        assert('/' as u32 == 47);
    }
}

/// Rendering a key as `/`-joined text and splitting it again restores
/// the segments exactly, for any non-empty sequence of valid identifier
/// texts.
pub proof fn lemma_key_text_round_trip(segs: Seq<Seq<char>>)
    requires
        segs.len() > 0,
        forall|i: int| 0 <= i < segs.len() ==> valid_ident(#[trigger] segs[i]),
    ensures
        split_on(join_with(segs, '/'), '/') == segs,
        valid_key_text(join_with(segs, '/')),
{
    assert forall|i: int| 0 <= i < segs.len() implies sep_free(#[trigger] segs[i], '/') by {
        lemma_valid_ident_slash_free(segs[i]);
    }
    lemma_split_on_join_with(segs, '/');
}

impl Key {
    #[verifier::type_invariant]
    spec fn type_inv(self) -> bool {
        self.idents@.len() > 0
    }

    /// Create a key from an identifier sequence; the sequence must be
    /// non-empty, otherwise `None` is returned.
    pub fn new(idents: Vec<Ident>) -> (r: Option<Key>)
        ensures
            r is Some <==> idents@.len() > 0,
            r is Some ==> r.unwrap()@ == idents_view(idents@),
    {
        if idents.is_empty() {
            None
        } else {
            Some(Key { idents })
        }
    }

    /// Convert to a [`Dir`], forgetting the non-emptiness.
    pub fn into_dir(self) -> (r: Dir)
        ensures
            r@ == self@,
    {
        Dir::new(self.idents)
    }

    /// The last identifier of the key.
    pub fn last_ident(&self) -> (r: &Ident)
        ensures
            r@ == self@.last(),
    {
        proof {
            use_type_invariant(self);
        }
        &self.idents[self.idents.len() - 1]
    }

    /// The sole identifier, if the key consists of exactly one.
    pub fn as_ident(&self) -> (r: Option<&Ident>)
        ensures
            r is Some <==> self@.len() == 1,
            r is Some ==> r.unwrap()@ == self@[0],
    {
        if self.idents.len() == 1 {
            Some(&self.idents[0])
        } else {
            None
        }
    }

    /// True if the key consists of exactly one identifier.
    pub fn is_ident(&self) -> (r: bool)
        ensures
            r == (self@.len() == 1),
    {
        self.idents.len() == 1
    }

    /// Prepend an identifier sequence, outermost first.
    pub fn prepend(&mut self, idents: &Vec<Ident>)
        ensures
            final(self)@ == idents_view(idents@) + old(self)@,
    {
        proof {
            use_type_invariant(&*self);
        }
        let mut joined: Vec<Ident> = Vec::new();
        let mut i: usize = 0;
        while i < idents.len()
            invariant
                0 <= i <= idents@.len(),
                joined@ =~= idents@.subrange(0, i as int),
            decreases idents@.len() - i,
        {
            joined.push(idents[i].clone());
            i += 1;
        }
        proof {
            assert(joined@ =~= idents@);
        }
        let mut j: usize = 0;
        let ghost base = joined@;
        while j < self.idents.len()
            invariant
                0 <= j <= self.idents@.len(),
                self.idents@ == old(self).idents@,
                joined@ =~= base + self.idents@.subrange(0, j as int),
            decreases self.idents@.len() - j,
        {
            joined.push(self.idents[j].clone());
            j += 1;
        }
        proof {
            assert(joined@ =~= idents@ + self.idents@);
            assert(idents_view(joined@) =~= idents_view(idents@) + idents_view(self.idents@));
        }
        self.idents = joined;
    }

    /// Compare two keys by their identifier texts.
    pub fn key_eq(&self, other: &Key) -> (r: bool)
        ensures
            r == (self@ == other@),
    {
        if self.idents.len() != other.idents.len() {
            proof {
                assert(self@.len() != other@.len());
            }
            return false;
        }
        let mut i: usize = 0;
        while i < self.idents.len()
            invariant
                0 <= i <= self.idents@.len(),
                self.idents@.len() == other.idents@.len(),
                forall|j: int| 0 <= j < i ==> self@[j] == other@[j],
            decreases self.idents@.len() - i,
        {
            if !crate::ident::ident_eq(&self.idents[i], &other.idents[i]) {
                proof {
                    assert(self@[i as int] != other@[i as int]);
                }
                return false;
            }
            i += 1;
        }
        proof {
            assert(self@ =~= other@);
        }
        true
    }

    /// Parse `/`-joined text; fails unless every segment is a valid
    /// identifier (an empty text has a single empty segment and fails).
    pub fn parse(text: &str) -> (r: Option<Key>)
        ensures
            r is Some <==> valid_key_text(text@),
            r is Some ==> r.unwrap()@ == split_on(text@, '/'),
    {
        let segs = split_text(text, '/');
        let ghost model = split_on(text@, '/');
        let mut idents: Vec<Ident> = Vec::new();
        let mut i: usize = 0;
        while i < segs.len()
            invariant
                0 <= i <= segs@.len(),
                model == split_on(text@, '/'),
                model.len() == segs@.len(),
                crate::text::strings_view(segs@) == model,
                idents_view(idents@) =~= model.subrange(0, i as int),
                forall|j: int| 0 <= j < i ==> valid_ident(#[trigger] model[j]),
            decreases segs@.len() - i,
        {
            proof {
                assert(crate::text::strings_view(segs@)[i as int] == segs@[i as int]@);
            }
            match Ident::new(segs[i].as_str()) {
                Some(id) => {
                    let ghost idv = id@;
                    let ghost prev = idents@;
                    proof {
                        assert(idv == model[i as int]);
                    }
                    idents.push(id);
                    proof {
                        assert(idents@ =~= prev.push(id));
                        assert(idents_view(idents@) =~= idents_view(prev).push(idv));
                        assert(idents_view(idents@) =~= model.subrange(0, i + 1));
                    }
                },
                None => {
                    proof {
                        assert(!valid_ident(split_on(text@, '/')[i as int]));
                        assert(!valid_key_text(text@));
                    }
                    return None;
                },
            }
            i += 1;
        }
        proof {
            assert(idents_view(idents@) =~= model);
            crate::text::lemma_split_on_len(text@, '/');
        }
        Some(Key { idents })
    }

    /// Render the key as `/`-joined text; the text parses back to the
    /// same key.
    pub fn to_text(&self) -> (r: String)
        ensures
            r@ == join_with(self@, '/'),
            valid_key_text(r@),
            split_on(r@, '/') == self@,
    {
        proof {
            use_type_invariant(self);
        }
        let r = idents_to_text(&self.idents);
        proof {
            lemma_key_text_round_trip(self@);
        }
        r
    }
}

/// Render an identifier sequence as `/`-joined text.
pub(crate) fn idents_to_text(idents: &Vec<Ident>) -> (r: String)
    ensures
        r@ == join_with(idents_view(idents@), '/'),
        forall|j: int| 0 <= j < idents@.len() ==> valid_ident(#[trigger] idents_view(idents@)[j]),
{
    let ghost model = idents_view(idents@);
    let mut out = String::new();
    let mut i: usize = 0;
    while i < idents.len()
        invariant
            0 <= i <= idents@.len(),
            model == idents_view(idents@),
            out@ == join_with(model.subrange(0, i as int), '/'),
            forall|j: int| 0 <= j < i ==> valid_ident(#[trigger] model[j]),
        decreases idents@.len() - i,
    {
        let ghost before = out@;
        if i > 0 {
            out.append("/");
        }
        let seg = idents[i].as_str();
        out.append(seg);
        proof {
            assert(valid_ident(model[i as int]));
            reveal_strlit("/");
            let cur = model.subrange(0, i + 1);
            assert(cur.last() == model[i as int]);
            assert(cur.drop_last() =~= model.subrange(0, i as int));
            if i == 0 {
                assert(cur.len() == 1);
                assert(out@ =~= cur[0]);
            } else {
                assert(cur.len() >= 2);
                assert(out@ =~= join_with(cur.drop_last(), '/') + seq!['/'] + cur.last());
            }
        }
        i += 1;
    }
    proof {
        assert(model.subrange(0, model.len() as int) =~= model);
    }
    out
}

impl Clone for Key {
    fn clone(&self) -> (r: Self)
        ensures
            r@ == self@,
    {
        proof {
            use_type_invariant(self);
        }
        let mut idents: Vec<Ident> = Vec::new();
        let mut i: usize = 0;
        while i < self.idents.len()
            invariant
                0 <= i <= self.idents@.len(),
                idents@ =~= self.idents@.subrange(0, i as int),
            decreases self.idents@.len() - i,
        {
            idents.push(self.idents[i].clone());
            i += 1;
        }
        proof {
            assert(idents@ =~= self.idents@);
        }
        Key { idents }
    }
}

} // verus!
