//! Top-k similarity ranking.
//!
//! A caller scores every record against the query (cosine similarity,
//! computed in IEEE-754 `f32` outside the library) and hands the scores
//! over as `u32` bit patterns. The ranker turns each bit pattern into a
//! total-order key, sorts the records by descending key with ties broken
//! by insertion order, and keeps the first `top_k`. The whole ordering is
//! a function of the inputs, so two runs on equal inputs return the same
//! sequence.

use vstd::prelude::*;

use crate::errors::Error;
use crate::store::Record;

verus! {

/// One ranked answer: the score's f32 bit pattern and the record's label.
pub struct RankedResult {
    pub score_bits: u32,
    pub label: Vec<u8>,
}

/// Total-order key of an f32 bit pattern: unsigned comparison of keys is
/// IEEE-754 sign-magnitude (totalOrder) comparison of the floats, with
/// negative values below positives, `-0.0` below `+0.0`, and NaN payloads
/// at the two extremes.
pub open spec fn key_spec(bits: u32) -> u32 {
    if bits >= 0x8000_0000 {
        !bits
    } else {
        bits | 0x8000_0000
    }
}

/// Sign-magnitude order on f32 bit patterns: `a` is below or equal to `b`.
pub open spec fn sm_le(a: u32, b: u32) -> bool {
    if a >= 0x8000_0000 {
        b < 0x8000_0000 || a >= b
    } else {
        b < 0x8000_0000 && a <= b
    }
}

/// Key comparison agrees with sign-magnitude comparison.
pub proof fn lemma_key_orders(a: u32, b: u32)
    ensures
        key_spec(a) <= key_spec(b) <==> sm_le(a, b),
        key_spec(a) == key_spec(b) <==> a == b,
{
    assert(((if a >= 0x8000_0000u32 {
        !a
    } else {
        a | 0x8000_0000u32
    }) <= (if b >= 0x8000_0000u32 {
        !b
    } else {
        b | 0x8000_0000u32
    })) <==> (if a >= 0x8000_0000u32 {
        b < 0x8000_0000u32 || a >= b
    } else {
        b < 0x8000_0000u32 && a <= b
    })) by (bit_vector);
    assert(((if a >= 0x8000_0000u32 {
        !a
    } else {
        a | 0x8000_0000u32
    }) == (if b >= 0x8000_0000u32 {
        !b
    } else {
        b | 0x8000_0000u32
    })) <==> a == b) by (bit_vector);
}

/// The total-order key of a score's bit pattern.
pub fn order_key(bits: u32) -> (k: u32)
    ensures
        k == key_spec(bits),
{
    if bits >= 0x8000_0000 {
        !bits
    } else {
        bits | 0x8000_0000
    }
}

/// Inserts `(key, index)` into a list sorted by descending key: the new
/// pair goes after every pair with a key at least as large, so equal keys
/// keep insertion order.
pub open spec fn insert_desc(s: Seq<(u32, usize)>, p: (u32, usize)) -> Seq<(u32, usize)>
    decreases s.len(),
{
    if s.len() == 0 {
        seq![p]
    } else if s[0].0 < p.0 {
        seq![p] + s
    } else {
        seq![s[0]] + insert_desc(s.drop_first(), p)
    }
}

/// The `(key, index)` pairs of the first `n` scores, sorted by descending
/// key with ties in index order.
pub open spec fn sorted_pairs(keys: Seq<u32>, n: int) -> Seq<(u32, usize)>
    decreases n,
{
    if n <= 0 {
        Seq::empty()
    } else {
        insert_desc(sorted_pairs(keys, n - 1), (keys[n - 1], (n - 1) as usize))
    }
}

/// The ranked order of a score list: every index, best score first,
/// ties by ascending index.
pub open spec fn rank_order(score_bits: Seq<u32>) -> Seq<(u32, usize)> {
    sorted_pairs(score_bits.map_values(|b: u32| key_spec(b)), score_bits.len() as int)
}

/// Some position of `s` holds index `i`.
pub open spec fn index_appears(s: Seq<(u32, usize)>, i: int) -> bool {
    exists|j: int| 0 <= j < s.len() && (#[trigger] s[j].1) == i
}

/// Pairs strictly ordered by (key descending, index ascending).
pub open spec fn sorted_stable(s: Seq<(u32, usize)>) -> bool {
    forall|j1: int, j2: int|
        0 <= j1 < j2 < s.len() ==> #[trigger] s[j1].0 > #[trigger] s[j2].0 || (s[j1].0 == s[j2].0
            && s[j1].1 < s[j2].1)
}

proof fn lemma_insert_desc_props(s: Seq<(u32, usize)>, p: (u32, usize))
    requires
        sorted_stable(s),
        forall|j: int| 0 <= j < s.len() ==> (#[trigger] s[j].1) < p.1,
    ensures
        insert_desc(s, p).len() == s.len() + 1,
        sorted_stable(insert_desc(s, p)),
        forall|q: (u32, usize)| #[trigger] insert_desc(s, p).contains(q) <==> (s.contains(q) || q == p),
        forall|j: int|
            0 <= j < insert_desc(s, p).len() ==> s.contains(#[trigger] insert_desc(s, p)[j])
                || insert_desc(s, p)[j] == p,
    decreases s.len(),
{
    let r = insert_desc(s, p);
    if s.len() == 0 {
        assert(r =~= seq![p]);
        assert(r[0] == p);
        assert(r.contains(p));
        assert forall|q: (u32, usize)| #[trigger] r.contains(q) implies (s.contains(q) || q == p) by {
            let w = choose|w: int| 0 <= w < r.len() && r[w] == q;
            assert(r[w] == p);
        }
    } else if s[0].0 < p.0 {
        assert(r =~= seq![p] + s);
        assert forall|q: (u32, usize)| #[trigger] r.contains(q) implies (s.contains(q) || q == p) by {
            let w = choose|w: int| 0 <= w < r.len() && r[w] == q;
            if w > 0 {
                assert(s[w - 1] == q);
            }
        }
        assert forall|q: (u32, usize)| s.contains(q) || q == p implies #[trigger] r.contains(q) by {
            if s.contains(q) {
                let w = choose|w: int| 0 <= w < s.len() && s[w] == q;
                assert(r[w + 1] == q);
            } else {
                assert(r[0] == q);
            }
        }
    } else {
        let tail = s.drop_first();
        assert forall|j: int| 0 <= j < tail.len() implies (#[trigger] tail[j].1) < p.1 by {
            assert(tail[j] == s[j + 1]);
        }
        lemma_insert_desc_props(tail, p);
        let rt = insert_desc(tail, p);
        assert(r =~= seq![s[0]] + rt);
        // head is at least every inserted element
        assert forall|j: int| 0 <= j < rt.len() implies r[0].0 > rt[j].0 || (r[0].0 == rt[j].0
            && r[0].1 < rt[j].1) by {
            assert(rt[j] == r[j + 1]);
            if rt[j] == p {
                assert(s[0].0 >= p.0);
                assert(s[0].1 < p.1);
            } else {
                assert(tail.contains(rt[j]));
                let w = choose|w: int| 0 <= w < tail.len() && tail[w] == rt[j];
                assert(s[w + 1] == rt[j]);
            }
        }
        assert(sorted_stable(r));
        assert forall|q: (u32, usize)| #[trigger] r.contains(q) implies (s.contains(q) || q == p) by {
            let w = choose|w: int| 0 <= w < r.len() && r[w] == q;
            if w == 0 {
                assert(s[0] == q);
            } else {
                assert(rt[w - 1] == q);
                assert(rt.contains(q));
                if tail.contains(q) {
                    let w2 = choose|w2: int| 0 <= w2 < tail.len() && tail[w2] == q;
                    assert(s[w2 + 1] == q);
                }
            }
        }
        assert forall|q: (u32, usize)| s.contains(q) || q == p implies #[trigger] r.contains(q) by {
            if s.contains(q) {
                let w = choose|w: int| 0 <= w < s.len() && s[w] == q;
                if w == 0 {
                    assert(r[0] == q);
                } else {
                    assert(tail[w - 1] == q);
                    assert(tail.contains(q));
                    assert(rt.contains(q));
                    let w2 = choose|w2: int| 0 <= w2 < rt.len() && rt[w2] == q;
                    assert(r[w2 + 1] == q);
                }
            } else {
                assert(rt.contains(q));
                let w2 = choose|w2: int| 0 <= w2 < rt.len() && rt[w2] == q;
                assert(r[w2 + 1] == q);
            }
        }
    }
}

/// What the ranked order guarantees: it lists every index exactly once,
/// each paired with its own key, best first, ties by insertion order.
pub proof fn lemma_rank_order_props(score_bits: Seq<u32>)
    requires
        score_bits.len() <= usize::MAX,
    ensures
        rank_order(score_bits).len() == score_bits.len(),
        forall|j: int|
            0 <= j < score_bits.len() ==> (#[trigger] rank_order(score_bits)[j].1) < score_bits.len()
                && rank_order(score_bits)[j].0 == key_spec(
                score_bits[rank_order(score_bits)[j].1 as int],
            ),
        forall|i: int| 0 <= i < score_bits.len() ==> #[trigger] index_appears(
            rank_order(score_bits),
            i,
        ),
        sorted_stable(rank_order(score_bits)),
{
    let keys = score_bits.map_values(|b: u32| key_spec(b));
    lemma_sorted_pairs_props(keys, score_bits.len() as int);
}

proof fn lemma_sorted_pairs_props(keys: Seq<u32>, n: int)
    requires
        0 <= n <= keys.len(),
        n <= usize::MAX,
    ensures
        sorted_pairs(keys, n).len() == n,
        forall|j: int|
            0 <= j < n ==> (#[trigger] sorted_pairs(keys, n)[j].1) < n && sorted_pairs(keys, n)[j].0
                == keys[sorted_pairs(keys, n)[j].1 as int],
        forall|i: int| 0 <= i < n ==> #[trigger] index_appears(sorted_pairs(keys, n), i),
        sorted_stable(sorted_pairs(keys, n)),
    decreases n,
{
    if n > 0 {
        lemma_sorted_pairs_props(keys, n - 1);
        let prev = sorted_pairs(keys, n - 1);
        let p = (keys[n - 1], (n - 1) as usize);
        lemma_insert_desc_props(prev, p);
        let cur = sorted_pairs(keys, n);
        assert forall|i: int| 0 <= i < n implies #[trigger] index_appears(cur, i) by {
            if i < n - 1 {
                assert(index_appears(prev, i));
                let j0 = choose|j0: int| 0 <= j0 < prev.len() && (#[trigger] prev[j0].1) == i;
                assert(cur.contains(prev[j0]));
                let j1 = choose|j1: int| 0 <= j1 < cur.len() && cur[j1] == prev[j0];
                assert(cur[j1].1 == i);
            } else {
                assert(cur.contains(p));
                let j1 = choose|j1: int| 0 <= j1 < cur.len() && cur[j1] == p;
                assert(cur[j1].1 == i);
            }
        }
    }
}

/// The ranked results read from `order`: for each kept position, the
/// record's own score bits and label.
pub open spec fn results_match(
    results: Seq<(u32, Seq<u8>)>,
    records: Seq<Record>,
    score_bits: Seq<u32>,
    top_k: int,
) -> bool {
    let order = rank_order(score_bits);
    &&& results.len() == (if top_k <= records.len() {
        top_k
    } else {
        records.len() as int
    })
    &&& forall|j: int|
        0 <= j < results.len() ==> (#[trigger] results[j]) == (
            score_bits[order[j].1 as int],
            records[order[j].1 as int].label@,
        )
}

/// The views of ranked results.
pub open spec fn results_view(rs: Seq<RankedResult>) -> Seq<(u32, Seq<u8>)> {
    rs.map_values(|r: RankedResult| (r.score_bits, r.label@))
}

proof fn lemma_insert_at(s: Seq<(u32, usize)>, p: (u32, usize), j: int)
    requires
        0 <= j <= s.len(),
        forall|m: int| 0 <= m < j ==> (#[trigger] s[m].0) >= p.0,
        j < s.len() ==> s[j].0 < p.0,
    ensures
        insert_desc(s, p) == s.insert(j, p),
    decreases s.len(),
{
    if s.len() == 0 {
        assert(insert_desc(s, p) =~= s.insert(0, p));
    } else if j == 0 {
        assert(s[0].0 < p.0);
        assert(insert_desc(s, p) =~= s.insert(0, p));
    } else {
        assert(s[0].0 >= p.0);
        let tail = s.drop_first();
        assert forall|m: int| 0 <= m < j - 1 implies (#[trigger] tail[m].0) >= p.0 by {
            assert(tail[m] == s[m + 1]);
        }
        assert(j - 1 < tail.len() ==> tail[j - 1].0 < p.0);
        lemma_insert_at(tail, p, j - 1);
        assert(seq![s[0]] + tail.insert(j - 1, p) =~= s.insert(j, p));
    }
}

/// Ranks the scored records: sorts by descending score under the
/// sign-magnitude order, breaks ties by store position, keeps the first
/// `top_k`. The result is pinned to `rank_order`, so equal inputs always
/// give equal output.
#[verifier::loop_isolation(false)]
pub fn rank(records: &Vec<Record>, score_bits: &Vec<u32>, top_k: usize) -> (out: Vec<RankedResult>)
    requires
        score_bits@.len() == records@.len(),
    ensures
        results_match(results_view(out@), records@, score_bits@, top_k as int),
{
    let ghost keys = score_bits@.map_values(|b: u32| key_spec(b));
    let n = records.len();
    let mut order: Vec<(u32, usize)> = Vec::new();
    let mut i: usize = 0;
    while i < n
        invariant
            i <= n,
            order@ == sorted_pairs(keys, i as int),
        decreases n - i,
    {
        proof {
            lemma_sorted_pairs_props(keys, i as int);
        }
        let key = order_key(score_bits[i]);
        let mut j: usize = 0;
        while j < order.len()
            invariant
                j <= order@.len(),
                forall|m: int| 0 <= m < j ==> (#[trigger] order@[m].0) >= key,
            decreases order@.len() - j,
        {
            if order[j].0 < key {
                break ;
            }
            j = j + 1;
        }
        proof {
            lemma_insert_at(order@, (key, i), j as int);
        }
        order.insert(j, (key, i));
        i = i + 1;
    }
    proof {
        lemma_sorted_pairs_props(keys, n as int);
    }
    let m = if top_k <= n {
        top_k
    } else {
        n
    };
    let mut out: Vec<RankedResult> = Vec::new();
    let mut j: usize = 0;
    while j < m
        invariant
            j <= m,
            out@.len() == j,
            forall|w: int|
                0 <= w < j ==> (#[trigger] out@[w]).score_bits == score_bits@[rank_order(
                    score_bits@,
                )[w].1 as int] && out@[w].label@ == records@[rank_order(score_bits@)[w].1 as int].label@,
        decreases m - j,
    {
        let idx = order[j].1;
        let mut label: Vec<u8> = Vec::new();
        let src = &records[idx].label;
        let mut w: usize = 0;
        while w < src.len()
            invariant
                w <= src@.len(),
                label@ == src@.take(w as int),
            decreases src@.len() - w,
        {
            label.push(src[w]);
            assert(label@ =~= src@.take(w + 1));
            w = w + 1;
        }
        assert(label@ =~= src@);
        out.push(RankedResult { score_bits: score_bits[idx], label });
        j = j + 1;
    }
    proof {
        assert forall|w: int| 0 <= w < out@.len() implies (#[trigger] results_view(out@)[w]) == (
            score_bits@[rank_order(score_bits@)[w].1 as int],
            records@[rank_order(score_bits@)[w].1 as int].label@,
        ) by {
            assert(results_view(out@)[w] == (out@[w].score_bits, out@[w].label@));
        }
    }
    out
}

/// Ranked scores never increase: at any two kept positions, the later
/// score is below or equal to the earlier one in the sign-magnitude
/// order on f32 bit patterns.
pub proof fn lemma_results_sorted(
    results: Seq<(u32, Seq<u8>)>,
    records: Seq<Record>,
    score_bits: Seq<u32>,
    top_k: int,
    j1: int,
    j2: int,
)
    requires
        score_bits.len() == records.len(),
        score_bits.len() <= usize::MAX,
        results_match(results, records, score_bits, top_k),
        0 <= j1 <= j2 < results.len(),
    ensures
        sm_le(results[j2].0, results[j1].0),
{
    lemma_rank_order_props(score_bits);
    let ord = rank_order(score_bits);
    assert(ord[j1].0 == key_spec(score_bits[ord[j1].1 as int]));
    assert(ord[j2].0 == key_spec(score_bits[ord[j2].1 as int]));
    lemma_key_orders(results[j2].0, results[j1].0);
}

/// The ranking is a permutation: every store index appears, and no two
/// positions hold the same index. With `top_k >= N` every record is
/// listed exactly once.
pub proof fn lemma_rank_complete(score_bits: Seq<u32>)
    requires
        score_bits.len() <= usize::MAX,
    ensures
        rank_order(score_bits).len() == score_bits.len(),
        forall|i: int| 0 <= i < score_bits.len() ==> #[trigger] index_appears(
            rank_order(score_bits),
            i,
        ),
        forall|j1: int, j2: int|
            0 <= j1 < j2 < score_bits.len() ==> (#[trigger] rank_order(score_bits)[j1]).1 != (
            #[trigger] rank_order(score_bits)[j2]).1,
{
    lemma_rank_order_props(score_bits);
    let ord = rank_order(score_bits);
    assert forall|j1: int, j2: int| 0 <= j1 < j2 < score_bits.len() implies (#[trigger] ord[j1]).1
        != (#[trigger] ord[j2]).1 by {
        if ord[j1].1 == ord[j2].1 {
            assert(ord[j1].0 == key_spec(score_bits[ord[j1].1 as int]));
            assert(ord[j2].0 == key_spec(score_bits[ord[j2].1 as int]));
        }
    }
}

/// Two result sequences that both match the ranking of the same inputs
/// are one and the same: ranking is deterministic.
pub proof fn lemma_rank_deterministic(
    r1: Seq<(u32, Seq<u8>)>,
    r2: Seq<(u32, Seq<u8>)>,
    records: Seq<Record>,
    score_bits: Seq<u32>,
    top_k: int,
)
    requires
        results_match(r1, records, score_bits, top_k),
        results_match(r2, records, score_bits, top_k),
    ensures
        r1 == r2,
{
    assert(r1 =~= r2);
}

/// Checks that every stored vector has the query's dimension; the error
/// comes exactly when one differs.
pub fn check_dims(query_dim: usize, records: &Vec<Record>) -> (r: Result<(), Error>)
    ensures
        (r is Ok <==> forall|i: int|
            0 <= i < records@.len() ==> (#[trigger] records@[i].vector@.len()) == query_dim),
        (r matches Err(e) ==> e == Error::DimensionMismatch),
{
    let mut i: usize = 0;
    while i < records.len()
        invariant
            i <= records@.len(),
            forall|w: int| 0 <= w < i ==> (#[trigger] records@[w].vector@.len()) == query_dim,
        decreases records@.len() - i,
    {
        if records[i].vector.len() != query_dim {
            return Err(Error::DimensionMismatch);
        }
        i = i + 1;
    }
    Ok(())
}

} // verus!
