//! Splitting a text at a separator.

use vstd::prelude::*;

verus! {

/// The pieces of `s` between separators, from left to right. There is always at
/// least one piece; a piece is empty where two separators meet or the text
/// starts or ends with one.
pub open spec fn pieces(s: Seq<char>, sep: char) -> Seq<Seq<char>>
    decreases s.len(),
{
    if s.len() == 0 {
        seq![Seq::<char>::empty()]
    } else {
        let init = pieces(s.drop_last(), sep);
        if s.last() == sep {
            init.push(Seq::<char>::empty())
        } else {
            init.drop_last().push(init.last().push(s.last()))
        }
    }
}

/// A text has always at least one piece.
pub proof fn lemma_pieces_nonempty(s: Seq<char>, sep: char)
    ensures
        pieces(s, sep).len() >= 1,
    decreases s.len(),
{
    if s.len() > 0 {
        lemma_pieces_nonempty(s.drop_last(), sep);
    }
}

/// What the scan of a text knows after one more character: a separator closes
/// the piece at hand and opens an empty one, any other character goes to the
/// piece at hand.
pub proof fn lemma_pieces_step(s: Seq<char>, sep: char, i: int)
    requires
        0 <= i < s.len(),
    ensures
        pieces(s.take(i), sep).len() >= 1,
        s[i] == sep ==> pieces(s.take(i + 1), sep) == pieces(s.take(i), sep).push(
            Seq::<char>::empty(),
        ),
        s[i] != sep ==> pieces(s.take(i + 1), sep) == pieces(s.take(i), sep).drop_last().push(
            pieces(s.take(i), sep).last().push(s[i]),
        ),
{
    lemma_pieces_nonempty(s.take(i), sep);
    assert(s.take(i + 1).drop_last() =~= s.take(i));
}

/// Whether the separator does not occur in `s`.
pub open spec fn no_sep(s: Seq<char>, sep: char) -> bool {
    forall|i: int| 0 <= i < s.len() ==> s[i] != sep
}

/// No piece holds the separator.
pub proof fn lemma_pieces_no_sep(s: Seq<char>, sep: char)
    ensures
        forall|k: int| 0 <= k < pieces(s, sep).len() ==> no_sep(#[trigger] pieces(s, sep)[k], sep),
    decreases s.len(),
{
    if s.len() > 0 {
        lemma_pieces_no_sep(s.drop_last(), sep);
        lemma_pieces_nonempty(s.drop_last(), sep);
        let init = pieces(s.drop_last(), sep);
        assert forall|k: int| 0 <= k < pieces(s, sep).len() implies no_sep(
            #[trigger] pieces(s, sep)[k],
            sep,
        ) by {
            if k < init.len() - 1 {
                assert(pieces(s, sep)[k] == init[k]);
            } else if s.last() != sep {
                assert(no_sep(init[init.len() - 1], sep));
            }
        }
    }
}

/// A text without separator that follows `s` goes to the last piece of `s`.
pub proof fn lemma_pieces_append(s: Seq<char>, t: Seq<char>, sep: char)
    requires
        no_sep(t, sep),
    ensures
        pieces(s, sep).len() >= 1,
        pieces(s + t, sep) == pieces(s, sep).drop_last().push(pieces(s, sep).last() + t),
    decreases t.len(),
{
    lemma_pieces_nonempty(s, sep);
    let p = pieces(s, sep);
    if t.len() == 0 {
        assert(s + t =~= s);
        assert(p.last() + t =~= p.last());
        assert(p.drop_last().push(p.last()) =~= p);
    } else {
        let init = t.drop_last();
        assert(no_sep(init, sep)) by {
            assert forall|i: int| 0 <= i < init.len() implies init[i] != sep by {
                assert(init[i] == t[i]);
            }
        }
        lemma_pieces_append(s, init, sep);
        assert((s + t).drop_last() =~= s + init);
        assert((s + t).last() == t.last());
        assert(t.last() == t[t.len() - 1]);
        assert((p.last() + init).push(t.last()) =~= p.last() + t);
        let q = p.drop_last().push(p.last() + init);
        assert(q.drop_last() =~= p.drop_last());
    }
}

/// A separator and a text without separator that follow `s` make one more
/// piece.
pub proof fn lemma_pieces_join(s: Seq<char>, t: Seq<char>, sep: char)
    requires
        no_sep(t, sep),
    ensures
        pieces(s + seq![sep] + t, sep) == pieces(s, sep).push(t),
{
    let with_sep = s + seq![sep];
    assert(with_sep.drop_last() =~= s);
    assert(with_sep.last() == sep);
    assert(pieces(with_sep, sep) == pieces(s, sep).push(Seq::<char>::empty()));
    lemma_pieces_append(with_sep, t, sep);
    let p = pieces(with_sep, sep);
    assert(p.drop_last() =~= pieces(s, sep));
    assert(p.last() + t =~= t);
}

} // verus!
