//! Splitting a document into token-bounded chunks with line provenance.
//!
//! The text is cut into semantic units at line ends: a paragraph (a run
//! of lines up to a blank line) whose token count fits the budget is one
//! unit; a paragraph over the budget falls back to its single lines; a
//! line over the budget on its own stands alone as raw text. Keeping
//! every cut at a line end is what makes the attached line ranges exact.
//! A greedy plan then packs consecutive units into a chunk while their
//! sizes sum to at most the budget, and concatenating the chunk texts in
//! order gives back the document.

use vstd::prelude::*;

use crate::errors::Error;
use crate::text::concat_all;
use crate::text::count_lines;
use crate::text::lemma_concat_all_app;
use crate::text::lemma_concat_all_single;
use crate::text::lemma_line_count_concat;
use crate::text::lemma_line_count_pos;
use crate::text::line_count;
use crate::text::push_bytes;
use crate::text::seq_views;
use crate::text::NL;

verus! {

/// A bounded piece of a document: its text and its 1-based inclusive
/// line range within the source.
pub struct Chunk {
    pub text: Vec<u8>,
    pub start_line: usize,
    pub end_line: usize,
}

/// The texts of a chunk list.
pub open spec fn chunk_texts(cs: Seq<Chunk>) -> Seq<Seq<u8>> {
    cs.map_values(|c: Chunk| c.text@)
}

/// `units` partition `text` at line ends: they concatenate to the text,
/// each is non-empty, and every unit except possibly the last ends with
/// a newline, so line provenance stays exact across unit borders.
pub open spec fn is_unit_split(text: Seq<u8>, units: Seq<Seq<u8>>) -> bool {
    &&& concat_all(units) == text
    &&& forall|i: int| 0 <= i < units.len() ==> (#[trigger] units[i]).len() > 0
    &&& forall|i: int| 0 <= i < units.len() - 1 ==> (#[trigger] units[i]).last() == NL
}

/// `units` is the line decomposition of `text`: a unit split whose
/// units are single lines (a newline only at a unit's end).
pub open spec fn is_line_split(text: Seq<u8>, units: Seq<Seq<u8>>) -> bool {
    &&& is_unit_split(text, units)
    &&& forall|i: int, j: int|
        0 <= i < units.len() && 0 <= j < units[i].len() - 1 ==> #[trigger] units[i][j] != NL
}

/// Sum of `sizes[a..b]`.
pub open spec fn sum_range(sizes: Seq<usize>, a: int, b: int) -> int
    decreases b - a,
{
    if a >= b {
        0
    } else {
        sum_range(sizes, a, b - 1) + sizes[b - 1]
    }
}

/// `bounds` cuts `0..sizes.len()` into the greedy chunk plan: cut points
/// strictly increase from 0 to the unit count; every group either fits
/// the budget or is a single oversized unit; and no group could take the
/// following unit as well.
pub open spec fn is_greedy_plan(sizes: Seq<usize>, max: int, bounds: Seq<usize>) -> bool {
    &&& bounds.len() >= 1
    &&& bounds[0] == 0
    &&& bounds.last() == sizes.len()
    &&& forall|j: int| 0 <= j < bounds.len() - 1 ==> (#[trigger] bounds[j]) < bounds[j + 1]
    &&& forall|j: int|
        0 <= j < bounds.len() - 1 ==> (sum_range(sizes, #[trigger] bounds[j] as int, bounds[j + 1] as int)
            <= max || bounds[j + 1] == bounds[j] + 1)
    &&& forall|j: int|
        0 <= j < bounds.len() - 2 ==> sum_range(sizes, #[trigger] bounds[j] as int, bounds[j + 1] as int)
            + sizes[bounds[j + 1] as int] > max
}

/// The chunk list realizes `bounds` over `units`: chunk `j` is the
/// concatenation of the units in `bounds[j] .. bounds[j+1]`.
pub open spec fn chunks_follow_plan(cs: Seq<Chunk>, units: Seq<Seq<u8>>, bounds: Seq<usize>) -> bool {
    &&& cs.len() + 1 == bounds.len()
    &&& forall|j: int|
        0 <= j < cs.len() ==> (#[trigger] cs[j]).text@ == concat_all(
            units.subrange(bounds[j] as int, bounds[j + 1] as int),
        )
}

/// Line provenance laws: the first chunk starts at line 1, each chunk
/// covers exactly the lines of its own text, and ranges are adjacent.
pub open spec fn lines_contiguous(cs: Seq<Chunk>) -> bool {
    &&& cs.len() > 0 ==> cs[0].start_line == 1
    &&& forall|i: int|
        0 <= i < cs.len() ==> (#[trigger] cs[i]).end_line + 1 == cs[i].start_line + line_count(
            cs[i].text@,
        )
    &&& forall|i: int| 0 <= i < cs.len() - 1 ==> (#[trigger] cs[i + 1]).start_line == cs[i].end_line + 1
}

/// Cuts `text` into its newline-delimited units.
#[verifier::loop_isolation(false)]
pub fn split_lines(text: &Vec<u8>) -> (units: Vec<Vec<u8>>)
    ensures
        is_line_split(text@, seq_views(units@)),
{
    let mut units: Vec<Vec<u8>> = Vec::new();
    let mut cur: Vec<u8> = Vec::new();
    let mut i: usize = 0;
    while i < text.len()
        invariant
            i <= text@.len(),
            concat_all(seq_views(units@)) + cur@ =~= text@.take(i as int),
            forall|j: int| 0 <= j < units@.len() ==> (#[trigger] seq_views(units@)[j]).len() > 0,
            forall|j: int| 0 <= j < units@.len() ==> (#[trigger] seq_views(units@)[j]).last() == NL,
            forall|j: int, w: int|
                0 <= j < units@.len() && 0 <= w < seq_views(units@)[j].len() - 1
                    ==> #[trigger] seq_views(units@)[j][w] != NL,
            forall|w: int| 0 <= w < cur@.len() ==> cur@[w] != NL,
        decreases text@.len() - i,
    {
        let b = text[i];
        let ghost units0 = units@;
        let ghost cur0 = cur@;
        cur.push(b);
        if b == NL {
            units.push(cur);
            cur = Vec::new();
            proof {
                assert(seq_views(units@) =~= seq_views(units0) + seq![cur0.push(NL)]);
                lemma_concat_all_app(seq_views(units0), seq![cur0.push(NL)]);
                lemma_concat_all_single(cur0.push(NL));
            }
        }
        assert(concat_all(seq_views(units@)) + cur@ =~= text@.take(i + 1));
        i = i + 1;
    }
    let ghost units1 = units@;
    let ghost cur1 = cur@;
    if cur.len() > 0 {
        units.push(cur);
        proof {
            assert(seq_views(units@) =~= seq_views(units1) + seq![cur1]);
            lemma_concat_all_app(seq_views(units1), seq![cur1]);
            lemma_concat_all_single(cur1);
        }
    }
    proof {
        assert(text@.take(text@.len() as int) =~= text@);
        assert(concat_all(seq_views(units@)) =~= text@);
    }
    units
}

/// The greedy chunk plan for the given unit sizes and budget.
#[verifier::loop_isolation(false)]
pub fn plan_chunks(sizes: &Vec<usize>, max_tokens: usize) -> (bounds: Vec<usize>)
    requires
        max_tokens >= 1,
    ensures
        is_greedy_plan(sizes@, max_tokens as int, bounds@),
{
    let n = sizes.len();
    let mut bounds: Vec<usize> = Vec::new();
    bounds.push(0);
    let mut acc: usize = 0;
    let mut i: usize = 0;
    while i < n
        invariant
            i <= n,
            bounds@.len() >= 1,
            bounds@[0] == 0,
            bounds@.last() <= i,
            forall|j: int| 0 <= j < bounds@.len() - 1 ==> (#[trigger] bounds@[j]) < bounds@[j + 1],
            forall|j: int| 0 <= j < bounds@.len() ==> (#[trigger] bounds@[j]) <= i,
            forall|j: int|
                0 <= j < bounds@.len() - 1 ==> (sum_range(
                    sizes@,
                    #[trigger] bounds@[j] as int,
                    bounds@[j + 1] as int,
                ) <= max_tokens || bounds@[j + 1] == bounds@[j] + 1),
            forall|j: int|
                0 <= j < bounds@.len() - 1 ==> sum_range(
                    sizes@,
                    #[trigger] bounds@[j] as int,
                    bounds@[j + 1] as int,
                ) + sizes@[bounds@[j + 1] as int] > max_tokens,
            acc == sum_range(sizes@, bounds@.last() as int, i as int),
            acc <= max_tokens || i <= bounds@.last() + 1,
        decreases n - i,
    {
        let s = sizes[i];
        let start = bounds[bounds.len() - 1];
        if i > start && (s > max_tokens || acc > max_tokens - s) {
            // the open group cannot take unit i: close it here
            let ghost bounds0 = bounds@;
            bounds.push(i);
            proof {
                assert(bounds@.last() == i);
                assert forall|j: int| 0 <= j < bounds@.len() - 1 implies (#[trigger] bounds@[j])
                    < bounds@[j + 1] by {
                    if j < bounds0.len() - 1 {
                        assert(bounds@[j] == bounds0[j]);
                        assert(bounds@[j + 1] == bounds0[j + 1]);
                    } else {
                        assert(bounds@[j] == bounds0.last());
                    }
                }
                assert forall|j: int| 0 <= j < bounds@.len() - 1 implies (sum_range(
                    sizes@,
                    #[trigger] bounds@[j] as int,
                    bounds@[j + 1] as int,
                ) <= max_tokens || bounds@[j + 1] == bounds@[j] + 1) && sum_range(
                    sizes@,
                    bounds@[j] as int,
                    bounds@[j + 1] as int,
                ) + sizes@[bounds@[j + 1] as int] > max_tokens by {
                    if j < bounds0.len() - 1 {
                        assert(bounds@[j] == bounds0[j]);
                        assert(bounds@[j + 1] == bounds0[j + 1]);
                    } else {
                        assert(bounds@[j] == bounds0.last());
                        assert(bounds@[j + 1] == i);
                        assert(sum_range(sizes@, start as int, i as int) == acc);
                    }
                }
                assert(sum_range(sizes@, i as int, i as int) == 0);
                assert(sum_range(sizes@, i as int, i + 1) == sizes@[i as int]);
            }
            acc = s;
        } else {
            proof {
                assert(sum_range(sizes@, start as int, i + 1) == sum_range(
                    sizes@,
                    start as int,
                    i as int,
                ) + sizes@[i as int]);
            }
            acc = acc + s;
        }
        i = i + 1;
    }
    let last = bounds[bounds.len() - 1];
    if last != n {
        let ghost bounds0 = bounds@;
        bounds.push(n);
        proof {
            assert forall|j: int| 0 <= j < bounds@.len() - 1 implies (#[trigger] bounds@[j])
                < bounds@[j + 1] by {
                if j < bounds0.len() - 1 {
                    assert(bounds@[j] == bounds0[j]);
                    assert(bounds@[j + 1] == bounds0[j + 1]);
                } else {
                    assert(bounds@[j] == bounds0.last());
                }
            }
            assert forall|j: int| 0 <= j < bounds@.len() - 1 implies (sum_range(
                sizes@,
                #[trigger] bounds@[j] as int,
                bounds@[j + 1] as int,
            ) <= max_tokens || bounds@[j + 1] == bounds@[j] + 1) by {
                if j < bounds0.len() - 1 {
                    assert(bounds@[j] == bounds0[j]);
                    assert(bounds@[j + 1] == bounds0[j + 1]);
                } else {
                    assert(bounds@[j] == bounds0.last());
                    assert(sum_range(sizes@, last as int, n as int) == acc);
                }
            }
            assert forall|j: int| 0 <= j < bounds@.len() - 2 implies sum_range(
                sizes@,
                #[trigger] bounds@[j] as int,
                bounds@[j + 1] as int,
            ) + sizes@[bounds@[j + 1] as int] > max_tokens by {
                assert(bounds@[j] == bounds0[j]);
                assert(bounds@[j + 1] == bounds0[j + 1]);
            }
        }
    }
    bounds
}

/// A chunk list built from a line split under a plan is empty exactly
/// when the text is empty, and its texts concatenate back to the text.
proof fn lemma_chunking_shape(
    text: Seq<u8>,
    units: Seq<Seq<u8>>,
    sizes: Seq<usize>,
    bounds: Seq<usize>,
    cs: Seq<Chunk>,
    max: int,
)
    requires
        is_unit_split(text, units),
        sizes.len() == units.len(),
        is_greedy_plan(sizes, max, bounds),
        chunks_follow_plan(cs, units, bounds),
        concat_all(chunk_texts(cs)) == concat_all(units),
    ensures
        concat_all(chunk_texts(cs)) == text,
        cs.len() == 0 <==> text.len() == 0,
{
    if text.len() == 0 {
        if units.len() > 0 {
            assert(concat_all(units) == concat_all(units.drop_last()) + units.last());
            assert(units.last().len() > 0);
        }
        assert(units.len() == 0);
        if bounds.len() >= 2 {
            lemma_bounds_mono(bounds, 1, bounds.len() - 1);
            assert(bounds[0] < bounds[1]);
            assert(false);
        }
    } else {
        assert(units.len() > 0);
        if bounds.len() == 1 {
            assert(bounds.last() == bounds[0]);
            assert(false);
        }
    }
}

/// Some cut in `pb` falls at `pos`.
pub open spec fn cut_at(pb: Seq<usize>, pos: int) -> bool {
    exists|j: int| 0 <= j < pb.len() && (#[trigger] pb[j]) == pos
}

/// A line holding only a newline: the blank line that ends a paragraph.
pub open spec fn blank_line() -> Seq<u8> {
    seq![NL]
}

/// `pb` cuts the line list into paragraphs: cut points strictly
/// increase from 0 to the line count, every interior cut falls right
/// after a blank line, and a cut falls after every blank line.
pub open spec fn is_paragraph_cut(lines: Seq<Seq<u8>>, pb: Seq<usize>) -> bool {
    &&& pb.len() >= 1
    &&& pb[0] == 0
    &&& pb.last() == lines.len()
    &&& forall|j: int| 0 <= j < pb.len() - 1 ==> (#[trigger] pb[j]) < pb[j + 1]
    &&& forall|j: int| 0 < j < pb.len() - 1 ==> lines[(#[trigger] pb[j]) - 1] == blank_line()
    &&& forall|i: int|
        0 <= i < lines.len() - 1 && lines[i] == blank_line() ==> #[trigger] cut_at(pb, i + 1)
}

/// Cuts the line list into paragraphs, one cut after each blank line.
#[verifier::loop_isolation(false)]
pub fn group_paragraphs(lines: &Vec<Vec<u8>>) -> (pb: Vec<usize>)
    ensures
        is_paragraph_cut(seq_views(lines@), pb@),
{
    let ghost lv = seq_views(lines@);
    let n = lines.len();
    let mut pb: Vec<usize> = Vec::new();
    pb.push(0);
    let mut i: usize = 0;
    while i < n
        invariant
            i <= n,
            pb@.len() >= 1,
            pb@[0] == 0,
            pb@.last() <= i,
            forall|j: int| 0 <= j < pb@.len() - 1 ==> (#[trigger] pb@[j]) < pb@[j + 1],
            forall|j: int|
                0 < j < pb@.len() ==> lv[(#[trigger] pb@[j]) - 1] == blank_line() && pb@[j] < n,
            forall|w: int|
                0 <= w < i && w < n - 1 && lv[w] == blank_line() ==> #[trigger] cut_at(pb@, w + 1),
        decreases n - i,
    {
        if lines[i].len() == 1 && lines[i][0] == NL && i + 1 < n {
            let ghost pb0 = pb@;
            pb.push(i + 1);
            proof {
                assert(lv[i as int] =~= blank_line());
                assert forall|j: int| 0 <= j < pb@.len() - 1 implies (#[trigger] pb@[j]) < pb@[j
                    + 1] by {
                    if j < pb0.len() - 1 {
                        assert(pb@[j] == pb0[j]);
                        assert(pb@[j + 1] == pb0[j + 1]);
                    } else {
                        assert(pb@[j] == pb0.last());
                    }
                }
                assert forall|j: int| 0 < j < pb@.len() implies lv[(#[trigger] pb@[j]) - 1]
                    == blank_line() && pb@[j] < n by {
                    if j < pb0.len() {
                        assert(pb@[j] == pb0[j]);
                    } else {
                        assert(pb@[j] == i + 1);
                    }
                }
                assert forall|w: int|
                    0 <= w < i + 1 && w < n - 1 && lv[w] == blank_line() implies #[trigger] cut_at(
                    pb@,
                    w + 1,
                ) by {
                    if w < i {
                        assert(cut_at(pb0, w + 1));
                        let jj = choose|jj: int| 0 <= jj < pb0.len() && pb0[jj] == w + 1;
                        assert(pb@[jj] == w + 1);
                    } else {
                        assert(pb@[pb@.len() - 1] == w + 1);
                    }
                }
            }
        } else {
            proof {
                if i < n - 1 && lv[i as int] == blank_line() {
                    assert(lv[i as int].len() == 1 && lv[i as int][0] == NL);
                    assert(false);
                }
            }
        }
        i = i + 1;
    }
    let last = pb[pb.len() - 1];
    if last != n {
        let ghost pb0 = pb@;
        pb.push(n);
        proof {
            assert forall|j: int| 0 <= j < pb@.len() - 1 implies (#[trigger] pb@[j]) < pb@[j
                + 1] by {
                if j < pb0.len() - 1 {
                    assert(pb@[j] == pb0[j]);
                    assert(pb@[j + 1] == pb0[j + 1]);
                } else {
                    assert(pb@[j] == pb0.last());
                }
            }
            assert forall|w: int|
                0 <= w < n - 1 && lv[w] == blank_line() implies #[trigger] cut_at(pb@, w + 1) by {
                assert(cut_at(pb0, w + 1));
                let jj = choose|jj: int| 0 <= jj < pb0.len() && pb0[jj] == w + 1;
                assert(pb@[jj] == w + 1);
            }
        }
    }
    pb
}

/// The unit list of one paragraph: the whole paragraph where it fits
/// the budget, its single lines where it does not.
pub open spec fn group_view(lines: Seq<Seq<u8>>, pb: Seq<usize>, fits: Seq<bool>, g: int) -> Seq<
    Seq<u8>,
> {
    if fits[g] {
        seq![concat_all(lines.subrange(pb[g] as int, pb[g + 1] as int))]
    } else {
        lines.subrange(pb[g] as int, pb[g + 1] as int)
    }
}

/// The units of the first `j` paragraphs.
pub open spec fn refined_prefix(
    lines: Seq<Seq<u8>>,
    pb: Seq<usize>,
    fits: Seq<bool>,
    j: int,
) -> Seq<Seq<u8>>
    decreases j,
{
    if j <= 0 {
        Seq::empty()
    } else {
        refined_prefix(lines, pb, fits, j - 1) + group_view(lines, pb, fits, j - 1)
    }
}

/// The refined unit list of the whole document: paragraphs where they
/// fit the budget, lines where they do not.
pub open spec fn refined_units(lines: Seq<Seq<u8>>, pb: Seq<usize>, fits: Seq<bool>) -> Seq<
    Seq<u8>,
> {
    refined_prefix(lines, pb, fits, fits.len() as int)
}

proof fn lemma_refined_prefix_ext(
    lines: Seq<Seq<u8>>,
    pb: Seq<usize>,
    f1: Seq<bool>,
    f2: Seq<bool>,
    j: int,
)
    requires
        forall|w: int| 0 <= w < j ==> #[trigger] f1[w] == f2[w],
    ensures
        refined_prefix(lines, pb, f1, j) == refined_prefix(lines, pb, f2, j),
    decreases j,
{
    if j > 0 {
        lemma_refined_prefix_ext(lines, pb, f1, f2, j - 1);
        assert(group_view(lines, pb, f1, j - 1) == group_view(lines, pb, f2, j - 1));
    }
}

/// The refined units of a line split are a unit split of the same text:
/// they concatenate back to it, none is empty, and each one except
/// possibly the last ends with a newline.
proof fn lemma_refined_prefix_props(lines: Seq<Seq<u8>>, pb: Seq<usize>, fits: Seq<bool>, j: int)
    requires
        forall|i: int| 0 <= i < lines.len() ==> (#[trigger] lines[i]).len() > 0,
        forall|i: int| 0 <= i < lines.len() - 1 ==> (#[trigger] lines[i]).last() == NL,
        pb.len() >= 1,
        pb[0] == 0,
        pb.last() == lines.len(),
        forall|jj: int| 0 <= jj < pb.len() - 1 ==> (#[trigger] pb[jj]) < pb[jj + 1],
        fits.len() + 1 == pb.len(),
        0 <= j <= fits.len(),
    ensures
        concat_all(refined_prefix(lines, pb, fits, j)) == concat_all(lines.take(pb[j] as int)),
        forall|u: int|
            0 <= u < refined_prefix(lines, pb, fits, j).len() ==> (#[trigger] refined_prefix(
                lines,
                pb,
                fits,
                j,
            )[u]).len() > 0,
        forall|u: int|
            0 <= u < refined_prefix(lines, pb, fits, j).len() - 1 ==> (#[trigger] refined_prefix(
                lines,
                pb,
                fits,
                j,
            )[u]).last() == NL,
        refined_prefix(lines, pb, fits, j).len() > 0 && pb[j] < lines.len()
            ==> refined_prefix(lines, pb, fits, j).last().last() == NL,
    decreases j,
{
    let pre = refined_prefix(lines, pb, fits, j);
    if j == 0 {
        assert(lines.take(0) =~= Seq::<Seq<u8>>::empty());
    } else {
        lemma_refined_prefix_props(lines, pb, fits, j - 1);
        let pre0 = refined_prefix(lines, pb, fits, j - 1);
        let a = pb[j - 1] as int;
        let b = pb[j] as int;
        lemma_bounds_mono(pb, j, pb.len() - 1);
        let sub = lines.subrange(a, b);
        let grp = group_view(lines, pb, fits, j - 1);
        assert(sub.len() > 0);
        assert(sub.last() == lines[b - 1]);
        assert(concat_all(sub) == concat_all(sub.drop_last()) + sub.last());
        if fits[j - 1] {
            lemma_concat_all_single(concat_all(sub));
        }
        assert(concat_all(grp) == concat_all(sub));
        lemma_concat_all_app(pre0, grp);
        assert(lines.take(b) =~= lines.take(a) + sub);
        lemma_concat_all_app(lines.take(a), sub);
        assert(concat_all(pre) == concat_all(lines.take(b)));
        assert forall|u: int| 0 <= u < grp.len() implies (#[trigger] grp[u]).len() > 0 by {
            if fits[j - 1] {
                assert(grp[u] == concat_all(sub));
            } else {
                assert(grp[u] == lines[a + u]);
            }
        }
        if b < lines.len() {
            assert(lines[b - 1].last() == NL);
            if fits[j - 1] {
                assert(grp.last() == concat_all(sub));
                assert(concat_all(sub).last() == sub.last().last());
            } else {
                assert(grp.last() == lines[b - 1]);
            }
            assert(grp.last().last() == NL);
        }
        assert forall|u: int| 0 <= u < grp.len() - 1 implies (#[trigger] grp[u]).last() == NL by {
            assert(!fits[j - 1]);
            assert(grp[u] == lines[a + u]);
            assert(a + u < b - 1);
        }
        assert forall|u: int| 0 <= u < pre.len() implies (#[trigger] pre[u]).len() > 0 by {
            if u < pre0.len() {
                assert(pre[u] == pre0[u]);
            } else {
                assert(pre[u] == grp[u - pre0.len()]);
            }
        }
        assert forall|u: int| 0 <= u < pre.len() - 1 implies (#[trigger] pre[u]).last() == NL by {
            if u < pre0.len() - 1 {
                assert(pre[u] == pre0[u]);
            } else if u == pre0.len() - 1 {
                assert(pre[u] == pre0[u]);
                assert(a < lines.len());
                assert(pre0.last().last() == NL);
            } else {
                assert(pre[u] == grp[u - pre0.len()]);
                assert(u - pre0.len() < grp.len() - 1);
            }
        }
        if pre.len() > 0 && b < lines.len() {
            assert(pre.last() == grp.last());
        }
    }
}

/// Copies the lines `a .. b` into one byte vector.
#[verifier::loop_isolation(false)]
fn concat_range(lines: &Vec<Vec<u8>>, a: usize, b: usize) -> (out: Vec<u8>)
    requires
        a <= b <= lines@.len(),
    ensures
        out@ == concat_all(seq_views(lines@).subrange(a as int, b as int)),
{
    let ghost lv = seq_views(lines@);
    let mut out: Vec<u8> = Vec::new();
    let mut w: usize = a;
    while w < b
        invariant
            a <= w <= b,
            out@ =~= concat_all(lv.subrange(a as int, w as int)),
        decreases b - w,
    {
        push_bytes(&mut out, &lines[w]);
        proof {
            assert(lv.subrange(a as int, w + 1).drop_last() =~= lv.subrange(a as int, w as int));
            assert(lv.subrange(a as int, w + 1).last() == lv[w as int]);
        }
        w = w + 1;
    }
    out
}

/// Builds the refined units and their byte sizes: a paragraph that fits
/// the budget stands as one unit, one that does not falls back to its
/// lines.
#[verifier::loop_isolation(false)]
#[verifier::rlimit(60)]
fn refine_by_bytes(lines: &Vec<Vec<u8>>, pb: &Vec<usize>, max_tokens: usize) -> (out: (
    Vec<Vec<u8>>,
    Vec<usize>,
    Ghost<Seq<bool>>,
))
    requires
        pb@.len() >= 1,
        pb@[0] == 0,
        pb@.last() == lines@.len(),
        forall|j: int| 0 <= j < pb@.len() - 1 ==> (#[trigger] pb@[j]) < pb@[j + 1],
    ensures
        out.2@.len() + 1 == pb@.len(),
        seq_views(out.0@) == refined_units(seq_views(lines@), pb@, out.2@),
        out.1@.len() == out.0@.len(),
        forall|i: int|
            0 <= i < out.1@.len() ==> (#[trigger] out.1@[i]) as int == seq_views(out.0@)[i].len(),
        forall|g: int|
            0 <= g < out.2@.len() ==> ((#[trigger] out.2@[g]) <==> concat_all(
                seq_views(lines@).subrange(pb@[g] as int, pb@[g + 1] as int),
            ).len() <= max_tokens),
{
    let ghost lv = seq_views(lines@);
    let ng = pb.len() - 1;
    let mut units: Vec<Vec<u8>> = Vec::new();
    let mut sizes: Vec<usize> = Vec::new();
    let ghost mut fits: Seq<bool> = Seq::empty();
    let mut g: usize = 0;
    while g < ng
        invariant
            g <= ng,
            fits.len() == g,
            sizes@.len() == units@.len(),
            seq_views(units@) == refined_prefix(lv, pb@, fits, g as int),
            forall|i: int|
                0 <= i < sizes@.len() ==> (#[trigger] sizes@[i]) as int == seq_views(
                    units@,
                )[i].len(),
            forall|w: int|
                0 <= w < g ==> ((#[trigger] fits[w]) <==> concat_all(
                    lv.subrange(pb@[w] as int, pb@[w + 1] as int),
                ).len() <= max_tokens),
        decreases ng - g,
    {
        let a = pb[g];
        let b = pb[g + 1];
        proof {
            lemma_bounds_mono(pb@, g + 1, pb@.len() - 1);
        }
        let ptext = concat_range(lines, a, b);
        let ghost fits0 = fits;
        let ghost units0 = seq_views(units@);
        if ptext.len() <= max_tokens {
            let psize = ptext.len();
            proof {
                fits = fits.push(true);
            }
            let ghost pv = ptext@;
            let ghost uprev = units@;
            units.push(ptext);
            sizes.push(psize);
            proof {
                lemma_refined_prefix_ext(lv, pb@, fits0, fits, g as int);
                assert(seq_views(units@) =~= seq_views(uprev) + seq![pv]);
                assert(seq_views(units@) =~= units0 + group_view(lv, pb@, fits, g as int));
            }
        } else {
            proof {
                fits = fits.push(false);
            }
            let mut w: usize = a;
            while w < b
                invariant
                    a <= w <= b,
                    sizes@.len() == units@.len(),
                    seq_views(units@) =~= units0 + lv.subrange(a as int, w as int),
                    forall|i: int|
                        0 <= i < sizes@.len() ==> (#[trigger] sizes@[i]) as int == seq_views(
                            units@,
                        )[i].len(),
                decreases b - w,
            {
                let line = concat_range(lines, w, w + 1);
                proof {
                    assert(lv.subrange(w as int, w + 1) =~= seq![lv[w as int]]);
                    lemma_concat_all_single(lv[w as int]);
                }
                let s = line.len();
                let ghost uprev = units@;
                units.push(line);
                sizes.push(s);
                proof {
                    assert(seq_views(units@) =~= seq_views(uprev) + seq![lv[w as int]]);
                    assert(seq_views(units@) =~= units0 + lv.subrange(a as int, w + 1));
                }
                w = w + 1;
            }
            proof {
                lemma_refined_prefix_ext(lv, pb@, fits0, fits, g as int);
                assert(group_view(lv, pb@, fits, g as int) == lv.subrange(a as int, b as int));
                assert(seq_views(units@) =~= units0 + group_view(lv, pb@, fits, g as int));
            }
        }
        g = g + 1;
    }
    (units, sizes, Ghost(fits))
}

/// Declares tokenizers::Tokenizer so the chunker can carry one through;
/// the value is opaque here and only the wrapper below touches it.
#[verifier::external_type_specification]
#[verifier::external_body]
pub struct ExTokenizer(tokenizers::Tokenizer);

/// Relies on tokenizers::Tokenizer::encode (without special tokens): the
/// number of tokens the wrapped tokenizer assigns to the unit's text,
/// decoded leniently from its bytes. The count depends on the tokenizer
/// value, so nothing more is promised of the result.
#[verifier::external_body]
fn token_count(tok: &tokenizers::Tokenizer, unit: &Vec<u8>) -> (r: Result<usize, Error>)
    ensures
        r matches Err(e) ==> e == Error::TokenizerError,
{
    let text = String::from_utf8_lossy(unit.as_slice());
    match tok.encode(text.as_ref(), false) {
        Ok(enc) => Ok(enc.get_ids().len()),
        Err(_) => Err(Error::TokenizerError),
    }
}

/// Builds the refined units and their token counts with the injected
/// tokenizer: a paragraph counted within the budget stands as one unit,
/// one counted over it falls back to its lines, counted one by one.
/// An empty line list makes no tokenizer call.
#[verifier::loop_isolation(false)]
#[verifier::rlimit(60)]
fn refine_with_tokenizer(
    lines: &Vec<Vec<u8>>,
    pb: &Vec<usize>,
    tok: &tokenizers::Tokenizer,
    max_tokens: usize,
) -> (r: Result<(Vec<Vec<u8>>, Vec<usize>, Ghost<Seq<bool>>), Error>)
    requires
        pb@.len() >= 1,
        pb@[0] == 0,
        pb@.last() == lines@.len(),
        forall|j: int| 0 <= j < pb@.len() - 1 ==> (#[trigger] pb@[j]) < pb@[j + 1],
    ensures
        (r matches Ok(out) ==> out.2@.len() + 1 == pb@.len()),
        (r matches Ok(out) ==> seq_views(out.0@) == refined_units(
            seq_views(lines@),
            pb@,
            out.2@,
        )),
        (r matches Ok(out) ==> out.1@.len() == out.0@.len()),
        (r matches Err(e) ==> e == Error::TokenizerError && lines@.len() > 0),
{
    let ghost lv = seq_views(lines@);
    let ng = pb.len() - 1;
    let mut units: Vec<Vec<u8>> = Vec::new();
    let mut sizes: Vec<usize> = Vec::new();
    let ghost mut fits: Seq<bool> = Seq::empty();
    let mut g: usize = 0;
    while g < ng
        invariant
            g <= ng,
            fits.len() == g,
            sizes@.len() == units@.len(),
            seq_views(units@) == refined_prefix(lv, pb@, fits, g as int),
        decreases ng - g,
    {
        let a = pb[g];
        let b = pb[g + 1];
        proof {
            lemma_bounds_mono(pb@, g + 1, pb@.len() - 1);
        }
        let ptext = concat_range(lines, a, b);
        let psize = match token_count(tok, &ptext) {
            Ok(s) => s,
            Err(e) => {
                return Err(e);
            },
        };
        let ghost fits0 = fits;
        let ghost units0 = seq_views(units@);
        if psize <= max_tokens {
            proof {
                fits = fits.push(true);
            }
            let ghost pv = ptext@;
            let ghost uprev = units@;
            units.push(ptext);
            sizes.push(psize);
            proof {
                lemma_refined_prefix_ext(lv, pb@, fits0, fits, g as int);
                assert(seq_views(units@) =~= seq_views(uprev) + seq![pv]);
                assert(seq_views(units@) =~= units0 + group_view(lv, pb@, fits, g as int));
            }
        } else {
            proof {
                fits = fits.push(false);
            }
            let mut w: usize = a;
            while w < b
                invariant
                    a <= w <= b,
                    sizes@.len() == units@.len(),
                    seq_views(units@) =~= units0 + lv.subrange(a as int, w as int),
                decreases b - w,
            {
                let line = concat_range(lines, w, w + 1);
                proof {
                    assert(lv.subrange(w as int, w + 1) =~= seq![lv[w as int]]);
                    lemma_concat_all_single(lv[w as int]);
                }
                let s = match token_count(tok, &line) {
                    Ok(s) => s,
                    Err(e) => {
                        return Err(e);
                    },
                };
                let ghost uprev = units@;
                units.push(line);
                sizes.push(s);
                proof {
                    assert(seq_views(units@) =~= seq_views(uprev) + seq![lv[w as int]]);
                    assert(seq_views(units@) =~= units0 + lv.subrange(a as int, w + 1));
                }
                w = w + 1;
            }
            proof {
                lemma_refined_prefix_ext(lv, pb@, fits0, fits, g as int);
                assert(group_view(lv, pb@, fits, g as int) == lv.subrange(a as int, b as int));
                assert(seq_views(units@) =~= units0 + group_view(lv, pb@, fits, g as int));
            }
        }
        g = g + 1;
    }
    Ok((units, sizes, Ghost(fits)))
}

/// Chunks `text` with token counts stood in by byte lengths: the
/// built-in fallback sizer, used where no tokenizer is injected.
/// Paragraphs that fit the budget are kept whole; one over the budget
/// falls back to its lines, and an oversized line stands alone.
pub fn chunk_by_bytes(text: &Vec<u8>, max_tokens: usize) -> (cs: Vec<Chunk>)
    requires
        max_tokens >= 1,
        text@.len() < usize::MAX,
    ensures
        concat_all(chunk_texts(cs@)) == text@,
        lines_contiguous(cs@),
        cs@.len() == 0 <==> text@.len() == 0,
        cs@.len() > 0 ==> cs@.last().end_line == line_count(text@),
        exists|
            lines: Seq<Seq<u8>>,
            pb: Seq<usize>,
            fits: Seq<bool>,
            sizes: Seq<usize>,
            bounds: Seq<usize>,
        |
            {
                &&& is_line_split(text@, lines)
                &&& is_paragraph_cut(lines, pb)
                &&& fits.len() + 1 == pb.len()
                &&& (forall|g: int|
                    0 <= g < fits.len() ==> ((#[trigger] fits[g]) <==> concat_all(
                        lines.subrange(pb[g] as int, pb[g + 1] as int),
                    ).len() <= max_tokens))
                &&& sizes.len() == refined_units(lines, pb, fits).len()
                &&& (forall|i: int|
                    0 <= i < sizes.len() ==> (#[trigger] sizes[i]) as int == refined_units(
                        lines,
                        pb,
                        fits,
                    )[i].len())
                &&& is_greedy_plan(sizes, max_tokens as int, bounds)
                &&& chunks_follow_plan(cs@, refined_units(lines, pb, fits), bounds)
            },
{
    let lines = split_lines(text);
    let pb = group_paragraphs(&lines);
    let (units, sizes, fits) = refine_by_bytes(&lines, &pb, max_tokens);
    proof {
        lemma_refined_prefix_props(seq_views(lines@), pb@, fits@, fits@.len() as int);
        assert(seq_views(lines@).take(pb@[fits@.len() as int] as int) =~= seq_views(lines@));
    }
    let bounds = plan_chunks(&sizes, max_tokens);
    let cs = assemble_chunks(&units, &bounds);
    proof {
        lemma_chunking_shape(
            text@,
            seq_views(units@),
            sizes@,
            bounds@,
            cs@,
            max_tokens as int,
        );
    }
    cs
}

/// Chunks `text`, measuring paragraphs and fallback lines with the
/// injected tokenizer. The coverage and line-provenance laws hold
/// whatever counts the tokenizer reports; the boundaries are the greedy
/// plan over exactly those counts. Fails only where the tokenizer
/// itself fails, and the tokenizer is never consulted for an empty
/// text.
pub fn chunk_with_tokenizer(text: &Vec<u8>, tok: &tokenizers::Tokenizer, max_tokens: usize) -> (r:
    Result<Vec<Chunk>, Error>)
    requires
        max_tokens >= 1,
        text@.len() < usize::MAX,
    ensures
        (text@.len() == 0 ==> r is Ok),
        (r matches Ok(cs) ==> concat_all(chunk_texts(cs@)) == text@),
        (r matches Ok(cs) ==> lines_contiguous(cs@)),
        (r matches Ok(cs) ==> (cs@.len() == 0 <==> text@.len() == 0)),
        (r matches Ok(cs) ==> (cs@.len() > 0 ==> cs@.last().end_line == line_count(text@))),
        (r matches Ok(cs) ==> exists|
            lines: Seq<Seq<u8>>,
            pb: Seq<usize>,
            fits: Seq<bool>,
            sizes: Seq<usize>,
            bounds: Seq<usize>,
        |
            {
                &&& is_line_split(text@, lines)
                &&& is_paragraph_cut(lines, pb)
                &&& fits.len() + 1 == pb.len()
                &&& sizes.len() == refined_units(lines, pb, fits).len()
                &&& is_greedy_plan(sizes, max_tokens as int, bounds)
                &&& chunks_follow_plan(cs@, refined_units(lines, pb, fits), bounds)
            }),
        (r matches Err(e) ==> e == Error::TokenizerError),
{
    let lines = split_lines(text);
    let pb = group_paragraphs(&lines);
    let (units, sizes, fits) = match refine_with_tokenizer(&lines, &pb, tok, max_tokens) {
        Ok(out) => out,
        Err(e) => {
            proof {
                // a line exists, so the text cannot be empty
                let lv = seq_views(lines@);
                assert(lv.last().len() > 0);
                assert(concat_all(lv) == concat_all(lv.drop_last()) + lv.last());
            }
            return Err(e);
        },
    };
    proof {
        lemma_refined_prefix_props(seq_views(lines@), pb@, fits@, fits@.len() as int);
        assert(seq_views(lines@).take(pb@[fits@.len() as int] as int) =~= seq_views(lines@));
    }
    let bounds = plan_chunks(&sizes, max_tokens);
    let cs = assemble_chunks(&units, &bounds);
    proof {
        lemma_chunking_shape(
            text@,
            seq_views(units@),
            sizes@,
            bounds@,
            cs@,
            max_tokens as int,
        );
    }
    Ok(cs)
}

/// Strictly increasing cut points are monotone across any distance.
proof fn lemma_bounds_mono(bounds: Seq<usize>, a: int, b: int)
    requires
        forall|j: int| 0 <= j < bounds.len() - 1 ==> (#[trigger] bounds[j]) < bounds[j + 1],
        0 <= a <= b < bounds.len(),
    ensures
        bounds[a] <= bounds[b],
    decreases b - a,
{
    if a < b {
        lemma_bounds_mono(bounds, a + 1, b);
    }
}

/// Builds the chunks of `units` under `bounds`, attaching line ranges.
#[verifier::loop_isolation(false)]
#[verifier::rlimit(60)]
pub fn assemble_chunks(units: &Vec<Vec<u8>>, bounds: &Vec<usize>) -> (cs: Vec<Chunk>)
    requires
        bounds@.len() >= 1,
        bounds@[0] == 0,
        bounds@.last() == units@.len(),
        forall|j: int| 0 <= j < bounds@.len() - 1 ==> (#[trigger] bounds@[j]) < bounds@[j + 1],
        forall|i: int| 0 <= i < units@.len() ==> (#[trigger] seq_views(units@)[i]).len() > 0,
        forall|i: int| 0 <= i < units@.len() - 1 ==> (#[trigger] seq_views(units@)[i]).last() == NL,
        concat_all(seq_views(units@)).len() < usize::MAX,
    ensures
        chunks_follow_plan(cs@, seq_views(units@), bounds@),
        lines_contiguous(cs@),
        concat_all(chunk_texts(cs@)) == concat_all(seq_views(units@)),
        cs@.len() > 0 ==> cs@.last().end_line == line_count(concat_all(seq_views(units@))),
{
    let ghost uv = seq_views(units@);
    let nb = bounds.len();
    let mut cs: Vec<Chunk> = Vec::new();
    let mut j: usize = 0;
    let mut next_start: usize = 1;
    proof {
        assert(uv.take(0) =~= Seq::<Seq<u8>>::empty());
        assert(concat_all(Seq::<Seq<u8>>::empty()) == Seq::<u8>::empty());
        assert(bounds@.take(1) =~= seq![bounds@[0]]);
    }
    while j < nb - 1
        invariant
            j <= nb - 1,
            cs@.len() == j,
            chunks_follow_plan(cs@, uv, bounds@.take(j + 1)),
            lines_contiguous(cs@),
            concat_all(chunk_texts(cs@)) =~= concat_all(uv.take(bounds@[j as int] as int)),
            // the consumed prefix ends at a line boundary
            j < nb - 1 ==> (concat_all(uv.take(bounds@[j as int] as int)).len() == 0 || concat_all(
                uv.take(bounds@[j as int] as int),
            ).last() == NL),
            next_start == 1 + line_count(concat_all(uv.take(bounds@[j as int] as int))),
            next_start <= 1 + concat_all(uv.take(bounds@[j as int] as int)).len(),
            cs@.len() > 0 ==> cs@.last().end_line + 1 == next_start,
        decreases nb - 1 - j,
    {
        let a = bounds[j];
        let b = bounds[j + 1];
        proof {
            lemma_bounds_mono(bounds@, j + 1, nb - 1);
            lemma_bounds_mono(bounds@, 0, j as int);
        }
        // chunk text: units a .. b
        let mut txt: Vec<u8> = Vec::new();
        let mut u: usize = a;
        while u < b
            invariant
                a <= u <= b,
                b <= units@.len(),
                txt@ =~= concat_all(uv.subrange(a as int, u as int)),
            decreases b - u,
        {
            push_bytes(&mut txt, &units[u]);
            proof {
                assert(uv.subrange(a as int, u + 1).drop_last() =~= uv.subrange(
                    a as int,
                    u as int,
                ));
                assert(uv.subrange(a as int, u + 1).last() == uv[u as int]);
            }
            u = u + 1;
        }
        proof {
            // the new prefix splits as old prefix + this chunk
            assert(uv.take(b as int) =~= uv.take(a as int) + uv.subrange(a as int, b as int));
            lemma_concat_all_app(uv.take(a as int), uv.subrange(a as int, b as int));
        }
        let lc = count_lines(txt.as_slice());
        proof {
            // the chunk is non-empty, so it has at least one line
            assert(uv.subrange(a as int, b as int).last() == uv[b - 1]);
            assert(uv[b - 1].len() > 0);
            assert(concat_all(uv.subrange(a as int, b as int)) =~= concat_all(
                uv.subrange(a as int, b as int).drop_last(),
            ) + uv[b - 1]);
            lemma_line_count_pos(txt@);
            lemma_line_count_concat(concat_all(uv.take(bounds@[j as int] as int)), txt@);
            crate::text::lemma_line_count_bounds(concat_all(uv.take(b as int)));
            // the new prefix is no longer than the whole document
            assert(uv =~= uv.take(b as int) + uv.skip(b as int));
            lemma_concat_all_app(uv.take(b as int), uv.skip(b as int));
        }
        let start = next_start;
        let end = start + (lc - 1);
        let ghost cs0 = cs@;
        cs.push(Chunk { text: txt, start_line: start, end_line: end });
        next_start = end + 1;
        proof {
            assert(chunk_texts(cs@) =~= chunk_texts(cs0) + seq![cs@.last().text@]);
            lemma_concat_all_app(chunk_texts(cs0), seq![cs@.last().text@]);
            lemma_concat_all_single(cs@.last().text@);
            // if more chunks follow, this chunk's last unit ends with NL
            if j + 1 < nb - 1 {
                lemma_bounds_mono(bounds@, j + 2, nb - 1);
                assert(b < units@.len());
                assert(uv[b - 1].last() == NL);
                if concat_all(uv.take(b as int)).len() > 0 {
                    assert(concat_all(uv.take(b as int)).last() == NL);
                }
            }
            assert(chunks_follow_plan(cs@, uv, bounds@.take(j + 2)));
        }
        j = j + 1;
    }
    proof {
        assert(bounds@.take(nb as int) =~= bounds@);
        assert(uv.take(bounds@.last() as int) =~= uv);
    }
    cs
}

} // verus!
