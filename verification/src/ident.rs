use vstd::prelude::*;

verus! {

/// True for the characters an identifier may contain: ASCII letters,
/// ASCII digits, `-` and `_`.
pub open spec fn ident_char(c: char) -> bool {
    (97 <= c as u32 && c as u32 <= 122)  // 'a' ..= 'z'
    || (65 <= c as u32 && c as u32 <= 90)  // 'A' ..= 'Z'
    || (48 <= c as u32 && c as u32 <= 57)  // '0' ..= '9'
    || c == '-' || c == '_'
}

/// A non-empty character sequence made only of identifier characters.
pub open spec fn valid_ident(s: Seq<char>) -> bool {
    s.len() > 0 && forall|i: int| 0 <= i < s.len() ==> ident_char(#[trigger] s[i])
}

/// A validated name: non-empty, restricted to ASCII letters, digits,
/// `-` and `_`.
#[derive(Debug, PartialEq, Eq, Hash)]
pub struct Ident {
    text: String,
}

impl View for Ident {
    type V = Seq<char>;

    closed spec fn view(&self) -> Seq<char> {
        self.text@
    }
}

/// The texts of a sequence of identifiers.
pub open spec fn idents_view(idents: Seq<Ident>) -> Seq<Seq<char>> {
    idents.map_values(|id: Ident| id@)
}

impl Ident {
    #[verifier::type_invariant]
    spec fn type_inv(self) -> bool {
        valid_ident(self@)
    }

    /// Create an identifier from a string; fails on an empty string or on
    /// any character outside the allowed set.
    pub fn new(text: &str) -> (r: Option<Ident>)
        ensures
            r is Some <==> valid_ident(text@),
            r is Some ==> r.unwrap()@ == text@,
    {
        let n = text.unicode_len();
        if n == 0 {
            return None;
        }
        let mut i: usize = 0;
        while i < n
            invariant
                n == text@.len(),
                0 <= i <= n,
                forall|j: int| 0 <= j < i ==> ident_char(#[trigger] text@[j]),
            decreases n - i,
        {
            let c = text.get_char(i);
            let v = c as u32;
            let ok = (97 <= v && v <= 122) || (65 <= v && v <= 90) || (48 <= v && v <= 57)
                || c == '-' || c == '_';
            if !ok {
                return None;
            }
            i += 1;
        }
        Some(Ident { text: text.to_owned() })
    }

    /// The identifier's text; always valid identifier text, so parsing
    /// it again restores the identifier.
    pub fn as_str(&self) -> (r: &str)
        ensures
            r@ == self@,
            valid_ident(r@),
    {
        proof {
            use_type_invariant(self);
        }
        self.text.as_str()
    }

}

/// Clone each identifier of a sequence.
pub(crate) fn clone_idents(idents: &Vec<Ident>) -> (r: Vec<Ident>)
    ensures
        r@ =~= idents@,
{
    let mut out: Vec<Ident> = Vec::new();
    let mut i: usize = 0;
    while i < idents.len()
        invariant
            0 <= i <= idents@.len(),
            out@ =~= idents@.subrange(0, i as int),
        decreases idents@.len() - i,
    {
        out.push(idents[i].clone());
        i += 1;
    }
    proof {
        assert(out@ =~= idents@);
    }
    out
}

impl Ident {
    /// Build a key by prepending a module-path prefix, outermost first.
    pub fn with_prefix(self, prefix: &Vec<Ident>) -> (r: crate::key::Key)
        ensures
            r@ == idents_view(prefix@).push(self@),
    {
        let ghost selfv = self@;
        let mut idents = clone_idents(prefix);
        idents.push(self);
        proof {
            assert(idents_view(idents@) =~= idents_view(prefix@).push(selfv));
        }
        let r = crate::key::Key::new(idents);
        r.unwrap()
    }
}

/// Compare two identifiers by their text.
pub fn ident_eq(a: &Ident, b: &Ident) -> (r: bool)
    ensures
        r == (a@ == b@),
{
    a.text == b.text
}

impl Clone for Ident {
    fn clone(&self) -> (r: Self)
        ensures
            r == *self,
    {
        proof {
            use_type_invariant(self);
        }
        Ident { text: self.text.clone() }
    }
}

} // verus!
