//! Splitting and joining character sequences on a separator character,
//! with the round-trip argument used by the `/`-joined name notation.

use vstd::prelude::*;

verus! {

/// Split `s` on every occurrence of `sep`.  The result always has at
/// least one element; splitting the empty sequence yields one empty
/// segment.
pub open spec fn split_on(s: Seq<char>, sep: char) -> Seq<Seq<char>>
    decreases s.len(),
{
    if s.len() == 0 {
        seq![Seq::<char>::empty()]
    } else {
        let pre = split_on(s.drop_last(), sep);
        if s.last() == sep {
            pre.push(Seq::<char>::empty())
        } else {
            pre.update(pre.len() - 1, pre.last().push(s.last()))
        }
    }
}

/// Join `segs` with `sep` between consecutive segments.
pub open spec fn join_with(segs: Seq<Seq<char>>, sep: char) -> Seq<char>
    decreases segs.len(),
{
    if segs.len() == 0 {
        Seq::<char>::empty()
    } else if segs.len() == 1 {
        segs[0]
    } else {
        join_with(segs.drop_last(), sep) + seq![sep] + segs.last()
    }
}

/// True for ASCII decimal digits.
pub open spec fn digit_char(c: char) -> bool {
    48 <= c as u32 && c as u32 <= 57  // '0' ..= '9'
}

/// True when no character of `s` is `sep`.
pub open spec fn sep_free(s: Seq<char>, sep: char) -> bool {
    forall|i: int| 0 <= i < s.len() ==> #[trigger] s[i] != sep
}

/// Splitting never yields an empty result.
pub proof fn lemma_split_on_len(s: Seq<char>, sep: char)
    ensures
        split_on(s, sep).len() > 0,
    decreases s.len(),
{
    if s.len() > 0 {
        lemma_split_on_len(s.drop_last(), sep);
    }
}

/// Appending a separator-free tail only extends the last segment.
proof fn lemma_split_on_append_sep_free(s: Seq<char>, t: Seq<char>, sep: char)
    requires
        sep_free(t, sep),
    ensures
        split_on(s + t, sep).len() == split_on(s, sep).len(),
        split_on(s + t, sep).drop_last() == split_on(s, sep).drop_last(),
        split_on(s + t, sep).last() == split_on(s, sep).last() + t,
    decreases t.len(),
{
    lemma_split_on_len(s, sep);
    if t.len() == 0 {
        assert(s + t =~= s);
        assert(split_on(s, sep).last() + t =~= split_on(s, sep).last());
    } else {
        let t0 = t.drop_last();
        lemma_split_on_append_sep_free(s, t0, sep);
        lemma_split_on_len(s + t0, sep);
        let u = s + t0;
        assert(s + t =~= u.push(t.last()));
        assert((s + t).drop_last() =~= u);
        assert((s + t).last() == t.last());
        let pre = split_on(u, sep);
        assert(split_on(s + t, sep) == pre.update(pre.len() - 1, pre.last().push(t.last())));
        assert(split_on(s + t, sep).drop_last() =~= pre.drop_last());
        assert(pre.last().push(t.last()) =~= split_on(s, sep).last() + t);
    }
}

/// Appending one separator closes the last segment and opens an empty one.
proof fn lemma_split_on_push_sep(s: Seq<char>, sep: char)
    ensures
        split_on(s.push(sep), sep) == split_on(s, sep).push(Seq::<char>::empty()),
{
    assert(s.push(sep).drop_last() =~= s);
    assert(split_on(s.push(sep), sep) =~= split_on(s, sep).push(Seq::<char>::empty()));
}

/// Splitting a single separator-free sequence yields exactly that sequence.
proof fn lemma_split_on_single(t: Seq<char>, sep: char)
    requires
        sep_free(t, sep),
    ensures
        split_on(t, sep) == seq![t],
{
    lemma_split_on_append_sep_free(Seq::<char>::empty(), t, sep);
    assert(Seq::<char>::empty() + t =~= t);
    assert(split_on(Seq::<char>::empty(), sep) == seq![Seq::<char>::empty()]);
    assert(split_on(t, sep).drop_last() =~= seq![Seq::<char>::empty()].drop_last());
    assert(split_on(t, sep).last() =~= t);
    assert(split_on(t, sep) =~= seq![t]);
}

/// Splitting on `sep` undoes joining with `sep`, provided every segment
/// is free of the separator.
pub proof fn lemma_split_on_join_with(segs: Seq<Seq<char>>, sep: char)
    requires
        segs.len() > 0,
        forall|i: int| 0 <= i < segs.len() ==> sep_free(#[trigger] segs[i], sep),
    ensures
        split_on(join_with(segs, sep), sep) == segs,
    decreases segs.len(),
{
    if segs.len() == 1 {
        lemma_split_on_single(segs[0], sep);
        assert(join_with(segs, sep) == segs[0]);
        assert(split_on(join_with(segs, sep), sep) =~= segs);
    } else {
        let init = segs.drop_last();
        let last = segs.last();
        lemma_split_on_join_with(init, sep);
        let j = join_with(init, sep);
        assert(join_with(segs, sep) == j + seq![sep] + last);
        assert(j + seq![sep] =~= j.push(sep));
        lemma_split_on_push_sep(j, sep);
        lemma_split_on_append_sep_free(j.push(sep), last, sep);
        assert(j.push(sep) + last =~= j + seq![sep] + last);
        let full = split_on(join_with(segs, sep), sep);
        let closed = split_on(j.push(sep), sep);
        assert(closed == init.push(Seq::<char>::empty()));
        assert(full.len() == closed.len());
        assert(full.drop_last() == closed.drop_last());
        assert(closed.drop_last() =~= init);
        assert(full.last() =~= last);
        assert forall|i: int| 0 <= i < segs.len() implies full[i] == segs[i] by {
            if i < segs.len() - 1 {
                assert(full[i] == full.drop_last()[i]);
                assert(segs[i] == init[i]);
            } else {
                assert(full[i] == full.last());
                assert(segs[i] == segs.last());
            }
        }
        assert(full =~= segs);
    }
}

/// The texts of a sequence of owned strings.
pub open spec fn strings_view(v: Seq<String>) -> Seq<Seq<char>> {
    v.map_values(|t: String| t@)
}

/// Split a string on `sep`, producing the owned segment texts.
pub fn split_text(s: &str, sep: char) -> (r: Vec<String>)
    ensures
        strings_view(r@) == split_on(s@, sep),
{
    let n = s.unicode_len();
    let mut segs: Vec<String> = Vec::new();
    let mut start: usize = 0;
    let mut i: usize = 0;
    proof {
        assert(s@.subrange(0, 0) =~= Seq::<char>::empty());
        assert(split_on(s@.subrange(0, 0), sep) == seq![Seq::<char>::empty()]);
        assert(strings_view(segs@).push(s@.subrange(0, 0)) =~= seq![Seq::<char>::empty()]);
    }
    while i < n
        invariant
            n == s@.len(),
            0 <= start <= i <= n,
            split_on(s@.subrange(0, i as int), sep)
                =~= strings_view(segs@).push(s@.subrange(start as int, i as int)),
        decreases n - i,
    {
        let ghost pre = s@.subrange(0, i as int);
        let ghost partial = s@.subrange(start as int, i as int);
        let c = s.get_char(i);
        proof {
            assert(s@.subrange(0, i + 1).drop_last() =~= pre);
            assert(s@.subrange(0, i + 1).last() == c);
            lemma_split_on_len(pre, sep);
        }
        if c == sep {
            let seg = s.substring_char(start, i).to_owned();
            segs.push(seg);
            start = i + 1;
            proof {
                let pre1 = split_on(pre, sep);
                assert(strings_view(segs@)
                    =~= strings_view(segs@.drop_last()).push(partial));
                assert(split_on(s@.subrange(0, i + 1), sep)
                    == pre1.push(Seq::<char>::empty()));
                assert(s@.subrange(start as int, i + 1) =~= Seq::<char>::empty());
                assert(split_on(s@.subrange(0, i + 1), sep)
                    =~= strings_view(segs@).push(s@.subrange(start as int, i + 1)));
            }
        } else {
            proof {
                let pre1 = split_on(pre, sep);
                let v = strings_view(segs@);
                assert(pre1 == v.push(partial));
                assert(pre1.last() == partial);
                assert(split_on(s@.subrange(0, i + 1), sep)
                    == pre1.update(pre1.len() - 1, pre1.last().push(c)));
                assert(pre1.len() - 1 == v.len());
                assert(v.push(partial).update(v.len() as int, partial.push(c))
                    =~= v.push(partial.push(c)));
                assert(split_on(s@.subrange(0, i + 1), sep) == v.push(partial.push(c)));
                assert(partial.push(c) =~= s@.subrange(start as int, i + 1));
                assert(split_on(s@.subrange(0, i + 1), sep)
                    == v.push(s@.subrange(start as int, i + 1)));
            }
        }
        i += 1;
    }
    let seg = s.substring_char(start, n).to_owned();
    segs.push(seg);
    proof {
        assert(s@.subrange(0, n as int) =~= s@);
        assert(strings_view(segs@)
            =~= strings_view(segs@.drop_last()).push(s@.subrange(start as int, n as int)));
        assert(strings_view(segs@) =~= split_on(s@, sep));
    }
    segs
}

} // verus!
