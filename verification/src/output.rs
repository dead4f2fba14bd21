//! Builders for everything the commands print or write: labeled texts
//! for embedding, chunk file names and headers, and the query output.

use vstd::prelude::*;

use crate::chunker::Chunk;
use crate::ranker::RankedResult;
use crate::text::push_bytes;

verus! {

/// Decimal digits of `n`, most significant first.
pub open spec fn dec_digits(n: int) -> Seq<u8>
    decreases n,
{
    if n < 10 {
        seq![(48 + n) as u8]
    } else {
        dec_digits(n / 10) + seq![(48 + n % 10) as u8]
    }
}

/// Appends the decimal digits of `n`.
pub fn push_dec(out: &mut Vec<u8>, n: u64)
    ensures
        final(out)@ == old(out)@ + dec_digits(n as int),
    decreases n,
{
    if n < 10 {
        out.push(48 + n as u8);
        assert(out@ =~= old(out)@ + dec_digits(n as int));
    } else {
        push_dec(out, n / 10);
        out.push(48 + (n % 10) as u8);
        assert(out@ =~= old(out)@ + dec_digits(n as int));
    }
}

/// The bytes of `"From "`.
pub open spec fn from_word() -> Seq<u8> {
    seq![70u8, 114u8, 111u8, 109u8, 32u8]
}

/// The bytes of `"From: "`.
pub open spec fn from_label_prefix() -> Seq<u8> {
    seq![70u8, 114u8, 111u8, 109u8, 58u8, 32u8]
}

/// The bytes of `", lines "`.
pub open spec fn lines_infix() -> Seq<u8> {
    seq![44u8, 32u8, 108u8, 105u8, 110u8, 101u8, 115u8, 32u8]
}

/// The bytes of `" - "`.
pub open spec fn dash_infix() -> Seq<u8> {
    seq![32u8, 45u8, 32u8]
}

/// The text a document is embedded as: `From: <name>` on its own line,
/// then the content, so provenance influences the embedding.
pub open spec fn labeled_spec(name: Seq<u8>, content: Seq<u8>) -> Seq<u8> {
    from_label_prefix() + name + seq![10u8] + content
}

/// Builds the labeled text of one document.
pub fn labeled_text(name: &Vec<u8>, content: &Vec<u8>) -> (out: Vec<u8>)
    ensures
        out@ == labeled_spec(name@, content@),
{
    let mut out: Vec<u8> = Vec::new();
    out.push(70);
    out.push(114);
    out.push(111);
    out.push(109);
    out.push(58);
    out.push(32);
    assert(out@ =~= from_label_prefix());
    push_bytes(&mut out, name);
    out.push(10);
    push_bytes(&mut out, content);
    assert(out@ =~= labeled_spec(name@, content@));
    out
}

/// The provenance header of a chunk file:
/// `From <base>, lines <start> - <end>`, then a blank line.
pub open spec fn header_spec(base: Seq<u8>, start: int, end: int) -> Seq<u8> {
    from_word() + base + lines_infix() + dec_digits(start) + dash_infix() + dec_digits(end) + seq![
        10u8,
        10u8,
    ]
}

/// The full contents of one chunk file: header, blank line, chunk text.
pub open spec fn chunk_file_spec(base: Seq<u8>, c: Chunk) -> Seq<u8> {
    header_spec(base, c.start_line as int, c.end_line as int) + c.text@
}

/// Builds the contents of one chunk's output file.
pub fn chunk_file_contents(base: &Vec<u8>, c: &Chunk) -> (out: Vec<u8>)
    ensures
        out@ == chunk_file_spec(base@, *c),
{
    let mut out: Vec<u8> = Vec::new();
    out.push(70);
    out.push(114);
    out.push(111);
    out.push(109);
    out.push(32);
    assert(out@ =~= from_word());
    push_bytes(&mut out, base);
    out.push(44);
    out.push(32);
    out.push(108);
    out.push(105);
    out.push(110);
    out.push(101);
    out.push(115);
    out.push(32);
    assert(out@ =~= from_word() + base@ + lines_infix());
    push_dec(&mut out, c.start_line as u64);
    out.push(32);
    out.push(45);
    out.push(32);
    assert(out@ =~= from_word() + base@ + lines_infix() + dec_digits(c.start_line as int)
        + dash_infix());
    push_dec(&mut out, c.end_line as u64);
    out.push(10);
    out.push(10);
    assert(out@ =~= header_spec(base@, c.start_line as int, c.end_line as int));
    push_bytes(&mut out, &c.text);
    out
}

/// The name of a chunk's output file: `<base>-<ordinal>.<ext>`.
pub open spec fn chunk_name_spec(base: Seq<u8>, ordinal: int, ext: Seq<u8>) -> Seq<u8> {
    base + seq![45u8] + dec_digits(ordinal) + seq![46u8] + ext
}

/// Builds the file name of the chunk with the given 1-based ordinal.
pub fn chunk_file_name(base: &Vec<u8>, ordinal: u64, ext: &Vec<u8>) -> (out: Vec<u8>)
    ensures
        out@ == chunk_name_spec(base@, ordinal as int, ext@),
{
    let mut out: Vec<u8> = Vec::new();
    push_bytes(&mut out, base);
    out.push(45);
    assert(out@ =~= base@ + seq![45u8]);
    push_dec(&mut out, ordinal);
    out.push(46);
    assert(out@ =~= base@ + seq![45u8] + dec_digits(ordinal as int) + seq![46u8]);
    push_bytes(&mut out, ext);
    out
}

/// A one-byte whitespace character: the ASCII whitespace set.
pub open spec fn is_ws1(a: u8) -> bool {
    a == 9 || a == 10 || a == 11 || a == 12 || a == 13 || a == 32
}

/// A two-byte UTF-8 whitespace encoding: next line and no-break space.
pub open spec fn is_ws2(a: u8, b: u8) -> bool {
    a == 0xC2 && (b == 0x85 || b == 0xA0)
}

/// A three-byte UTF-8 whitespace encoding: ogham space mark, the en
/// quad through hair space range, line and paragraph separators,
/// narrow no-break space, medium mathematical space, ideographic space.
pub open spec fn is_ws3(a: u8, b: u8, c: u8) -> bool {
    (a == 0xE1 && b == 0x9A && c == 0x80) || (a == 0xE2 && b == 0x80 && (0x80 <= c <= 0x8A || c
        == 0xA8 || c == 0xA9 || c == 0xAF)) || (a == 0xE2 && b == 0x81 && c == 0x9F) || (a == 0xE3
        && b == 0x80 && c == 0x80)
}

/// Length of the UTF-8 whitespace encoding at the front of `s`, 0 where
/// there is none. On valid UTF-8 the recognized encodings are exactly
/// the characters with the Unicode White_Space property, the set that
/// `str::trim` removes.
pub open spec fn ws_front(s: Seq<u8>) -> int {
    if s.len() >= 3 && is_ws3(s[0], s[1], s[2]) {
        3
    } else if s.len() >= 2 && is_ws2(s[0], s[1]) {
        2
    } else if s.len() >= 1 && is_ws1(s[0]) {
        1
    } else {
        0
    }
}

/// Length of the UTF-8 whitespace encoding at the back of `s`, 0 where
/// there is none. On valid UTF-8 a match is exact: no whitespace
/// encoding ends inside another character's encoding.
pub open spec fn ws_back(s: Seq<u8>) -> int {
    if s.len() >= 3 && is_ws3(s[s.len() - 3], s[s.len() - 2], s[s.len() - 1]) {
        3
    } else if s.len() >= 2 && is_ws2(s[s.len() - 2], s[s.len() - 1]) {
        2
    } else if s.len() >= 1 && is_ws1(s.last()) {
        1
    } else {
        0
    }
}

/// `s` without leading whitespace characters.
pub open spec fn trim_front(s: Seq<u8>) -> Seq<u8>
    decreases s.len(),
{
    if ws_front(s) > 0 {
        trim_front(s.skip(ws_front(s)))
    } else {
        s
    }
}

/// `s` without trailing whitespace characters.
pub open spec fn trim_back(s: Seq<u8>) -> Seq<u8>
    decreases s.len(),
{
    if ws_back(s) > 0 {
        trim_back(s.take(s.len() - ws_back(s)))
    } else {
        s
    }
}

/// `s` without leading and trailing whitespace characters.
pub open spec fn trim_spec(s: Seq<u8>) -> Seq<u8> {
    trim_back(trim_front(s))
}

/// Reads the whitespace encoding length at position `lo`.
fn ws_len_at(s: &Vec<u8>, lo: usize) -> (k: usize)
    requires
        lo <= s@.len(),
    ensures
        k as int == ws_front(s@.skip(lo as int)),
        lo + k <= s@.len(),
{
    let n = s.len();
    if n >= 3 && lo <= n - 3 && (s[lo] == 0xE1 && s[lo + 1] == 0x9A && s[lo + 2] == 0x80 || s[lo] == 0xE2
        && s[lo + 1] == 0x80 && (0x80 <= s[lo + 2] && s[lo + 2] <= 0x8A || s[lo + 2] == 0xA8 || s[lo
        + 2] == 0xA9 || s[lo + 2] == 0xAF) || s[lo] == 0xE2 && s[lo + 1] == 0x81 && s[lo + 2]
        == 0x9F || s[lo] == 0xE3 && s[lo + 1] == 0x80 && s[lo + 2] == 0x80) {
        3
    } else if n >= 2 && lo <= n - 2 && s[lo] == 0xC2 && (s[lo + 1] == 0x85 || s[lo + 1] == 0xA0) {
        2
    } else if lo < n && (s[lo] == 9 || s[lo] == 10 || s[lo] == 11 || s[lo] == 12 || s[lo] == 13
        || s[lo] == 32) {
        1
    } else {
        0
    }
}

/// Reads the whitespace encoding length ending right before `hi`,
/// looking no further back than `lo`.
fn ws_len_before(s: &Vec<u8>, lo: usize, hi: usize) -> (k: usize)
    requires
        lo <= hi <= s@.len(),
    ensures
        k as int == ws_back(s@.subrange(lo as int, hi as int)),
        k <= hi - lo,
{
    if hi - lo >= 3 && (s[hi - 3] == 0xE1 && s[hi - 2] == 0x9A && s[hi - 1] == 0x80 || s[hi - 3]
        == 0xE2 && s[hi - 2] == 0x80 && (0x80 <= s[hi - 1] && s[hi - 1] <= 0x8A || s[hi - 1] == 0xA8
        || s[hi - 1] == 0xA9 || s[hi - 1] == 0xAF) || s[hi - 3] == 0xE2 && s[hi - 2] == 0x81 && s[hi
        - 1] == 0x9F || s[hi - 3] == 0xE3 && s[hi - 2] == 0x80 && s[hi - 1] == 0x80) {
        3
    } else if hi - lo >= 2 && s[hi - 2] == 0xC2 && (s[hi - 1] == 0x85 || s[hi - 1] == 0xA0) {
        2
    } else if hi - lo >= 1 && (s[hi - 1] == 9 || s[hi - 1] == 10 || s[hi - 1] == 11 || s[hi - 1]
        == 12 || s[hi - 1] == 13 || s[hi - 1] == 32) {
        1
    } else {
        0
    }
}

/// Copies `s` with leading and trailing whitespace characters removed:
/// on valid UTF-8, exactly what `str::trim` removes.
#[verifier::loop_isolation(false)]
pub fn trim_bytes(s: &Vec<u8>) -> (out: Vec<u8>)
    ensures
        out@ == trim_spec(s@),
{
    let n = s.len();
    let mut lo: usize = 0;
    proof {
        assert(s@.skip(0) =~= s@);
    }
    let mut k = ws_len_at(s, lo);
    while k > 0
        invariant
            lo <= n,
            k as int == ws_front(s@.skip(lo as int)),
            lo + k <= n,
            trim_front(s@) == trim_front(s@.skip(lo as int)),
        decreases n - lo,
    {
        proof {
            assert(s@.skip(lo as int).skip(k as int) =~= s@.skip(lo + k));
        }
        lo = lo + k;
        k = ws_len_at(s, lo);
    }
    assert(trim_front(s@) == s@.skip(lo as int));
    let mut hi: usize = n;
    proof {
        assert(s@.subrange(lo as int, n as int) =~= s@.skip(lo as int));
    }
    let mut k2 = ws_len_before(s, lo, hi);
    while k2 > 0
        invariant
            lo <= hi <= n,
            k2 as int == ws_back(s@.subrange(lo as int, hi as int)),
            k2 <= hi - lo,
            trim_back(s@.skip(lo as int)) == trim_back(s@.subrange(lo as int, hi as int)),
        decreases hi,
    {
        proof {
            let cur = s@.subrange(lo as int, hi as int);
            assert(cur.take(cur.len() - k2) =~= s@.subrange(lo as int, hi - k2));
        }
        hi = hi - k2;
        k2 = ws_len_before(s, lo, hi);
    }
    assert(trim_back(s@.skip(lo as int)) == s@.subrange(lo as int, hi as int));
    let mut out: Vec<u8> = Vec::new();
    let mut i: usize = lo;
    while i < hi
        invariant
            lo <= i <= hi <= n,
            out@ == s@.subrange(lo as int, i as int),
        decreases hi - i,
    {
        out.push(s[i]);
        assert(out@ =~= s@.subrange(lo as int, i + 1));
        i = i + 1;
    }
    out
}

/// The printed form of the ranked answers: each label trimmed, followed
/// by a blank line.
pub open spec fn rendered(labels: Seq<Seq<u8>>) -> Seq<u8>
    decreases labels.len(),
{
    if labels.len() == 0 {
        Seq::empty()
    } else {
        rendered(labels.drop_last()) + trim_spec(labels.last()) + seq![10u8, 10u8]
    }
}

/// The labels of ranked results.
pub open spec fn result_labels(rs: Seq<RankedResult>) -> Seq<Seq<u8>> {
    rs.map_values(|r: RankedResult| r.label@)
}

/// Builds the query command's output: every matched label, trimmed,
/// each followed by a blank line, in ranked order.
#[verifier::loop_isolation(false)]
pub fn render_results(results: &Vec<RankedResult>) -> (out: Vec<u8>)
    ensures
        out@ == rendered(result_labels(results@)),
{
    let mut out: Vec<u8> = Vec::new();
    let mut i: usize = 0;
    while i < results.len()
        invariant
            i <= results@.len(),
            out@ == rendered(result_labels(results@).take(i as int)),
        decreases results@.len() - i,
    {
        let t = trim_bytes(&results[i].label);
        push_bytes(&mut out, &t);
        out.push(10);
        out.push(10);
        proof {
            let lbls = result_labels(results@);
            assert(lbls.take(i + 1).drop_last() =~= lbls.take(i as int));
            assert(lbls.take(i + 1).last() == lbls[i as int]);
            assert(out@ =~= rendered(lbls.take(i as int)) + trim_spec(lbls[i as int]) + seq![
                10u8,
                10u8,
            ]);
        }
        i = i + 1;
    }
    proof {
        assert(result_labels(results@).take(results@.len() as int) =~= result_labels(results@));
    }
    out
}

} // verus!
