//! Byte-level text facts shared by the chunker and the output builders:
//! line counting and concatenation of byte sequences.

use vstd::prelude::*;

verus! {

/// The newline byte `\n`.
pub const NL: u8 = 10;

/// Number of `\n` bytes in `s`.
pub open spec fn newline_count(s: Seq<u8>) -> int
    decreases s.len(),
{
    if s.len() == 0 {
        0
    } else {
        newline_count(s.drop_last()) + if s.last() == NL { 1int } else { 0int }
    }
}

/// Number of newline-delimited lines in `s`, as `str::lines` counts them:
/// every `\n` ends a line, and a trailing fragment without `\n` is one more.
pub open spec fn line_count(s: Seq<u8>) -> int {
    newline_count(s) + if s.len() > 0 && s.last() != NL { 1int } else { 0int }
}

proof fn lemma_newline_count_bounds(s: Seq<u8>)
    ensures
        0 <= newline_count(s) <= s.len(),
    decreases s.len(),
{
    if s.len() > 0 {
        lemma_newline_count_bounds(s.drop_last());
    }
}

/// Lines never outnumber bytes.
pub proof fn lemma_line_count_bounds(s: Seq<u8>)
    ensures
        0 <= line_count(s) <= s.len(),
{
    lemma_newline_count_bounds(s);
    if s.len() > 0 && s.last() != NL {
        lemma_newline_count_last(s);
    }
}

proof fn lemma_newline_count_last(s: Seq<u8>)
    requires
        s.len() > 0,
        s.last() != NL,
    ensures
        newline_count(s) <= s.len() - 1,
{
    lemma_newline_count_bounds(s.drop_last());
}

/// Concatenation of a list of byte sequences, in order.
pub open spec fn concat_all(parts: Seq<Seq<u8>>) -> Seq<u8>
    decreases parts.len(),
{
    if parts.len() == 0 {
        Seq::empty()
    } else {
        concat_all(parts.drop_last()) + parts.last()
    }
}

/// The views of a list of byte vectors.
pub open spec fn seq_views(us: Seq<Vec<u8>>) -> Seq<Seq<u8>> {
    us.map_values(|u: Vec<u8>| u@)
}

/// A one-part concatenation is the part itself.
pub proof fn lemma_concat_all_single(u: Seq<u8>)
    ensures
        concat_all(seq![u]) == u,
{
    let s = seq![u];
    assert(s.drop_last() =~= Seq::<Seq<u8>>::empty());
    assert(concat_all(s.drop_last()) == Seq::<u8>::empty());
    assert(concat_all(s) =~= u);
}

/// Concatenation distributes over appending part lists.
pub proof fn lemma_concat_all_app(a: Seq<Seq<u8>>, b: Seq<Seq<u8>>)
    ensures
        concat_all(a + b) == concat_all(a) + concat_all(b),
    decreases b.len(),
{
    if b.len() == 0 {
        assert(a + b =~= a);
        assert(concat_all(a) + concat_all(b) =~= concat_all(a));
    } else {
        assert((a + b).drop_last() =~= a + b.drop_last());
        assert((a + b).last() == b.last());
        lemma_concat_all_app(a, b.drop_last());
        assert(concat_all(a + b) =~= concat_all(a) + concat_all(b));
    }
}

proof fn lemma_newline_count_app(a: Seq<u8>, b: Seq<u8>)
    ensures
        newline_count(a + b) == newline_count(a) + newline_count(b),
    decreases b.len(),
{
    if b.len() == 0 {
        assert(a + b =~= a);
    } else {
        assert((a + b).drop_last() =~= a + b.drop_last());
        assert((a + b).last() == b.last());
        lemma_newline_count_app(a, b.drop_last());
    }
}

/// Lines add up across a boundary that falls right after a newline
/// (or at the very start).
pub proof fn lemma_line_count_concat(a: Seq<u8>, b: Seq<u8>)
    requires
        a.len() == 0 || a.last() == NL,
    ensures
        line_count(a + b) == line_count(a) + line_count(b),
{
    lemma_newline_count_app(a, b);
    if b.len() == 0 {
        assert(a + b =~= a);
    } else {
        assert((a + b).last() == b.last());
        assert((a + b).len() > 0);
    }
}

/// A non-empty text has at least one line.
pub proof fn lemma_line_count_pos(s: Seq<u8>)
    requires
        s.len() > 0,
    ensures
        line_count(s) >= 1,
{
    lemma_newline_count_bounds(s.drop_last());
    if s.last() == NL {
        assert(newline_count(s) >= 1);
    }
}

/// Appends all of `src`.
pub fn push_bytes(out: &mut Vec<u8>, src: &Vec<u8>)
    ensures
        final(out)@ == old(out)@ + src@,
{
    let mut i: usize = 0;
    while i < src.len()
        invariant
            i <= src.len(),
            out@ == old(out)@ + src@.take(i as int),
        decreases src.len() - i,
    {
        out.push(src[i]);
        assert(out@ =~= old(out)@ + src@.take(i + 1));
        i = i + 1;
    }
    assert(out@ =~= old(out)@ + src@);
}

/// Counts the newline-delimited lines of `text`.
pub fn count_lines(text: &[u8]) -> (n: usize)
    ensures
        n == line_count(text@),
{
    proof {
        lemma_newline_count_bounds(text@);
    }
    let mut nl: usize = 0;
    let mut i: usize = 0;
    while i < text.len()
        invariant
            i <= text.len(),
            nl == newline_count(text@.take(i as int)),
            nl <= i,
        decreases text.len() - i,
    {
        if text[i] == 10u8 {
            nl = nl + 1;
        }
        proof {
            assert(text@.take(i + 1 as int).drop_last() =~= text@.take(i as int));
            assert(text@.take(i + 1 as int).last() == text@[i as int]);
        }
        i = i + 1;
    }
    proof {
        assert(text@.take(text@.len() as int) =~= text@);
    }
    if text.len() > 0 && text[text.len() - 1] != 10u8 {
        proof {
            lemma_newline_count_last(text@);
        }
        nl + 1
    } else {
        nl
    }
}

} // verus!
