//! The vector store: labeled embedding records and their lossless
//! byte encoding.
//!
//! A record pairs a label with the components of its embedding vector,
//! each component carried as the `u32` bit pattern of an IEEE-754 `f32`,
//! so encoding and decoding move every component bit-for-bit.
//!
//! Layout of an encoded store, all integers little-endian:
//! an 8-byte record count, then per record an 8-byte label length, the
//! label bytes, an 8-byte component count, and 4 bytes per component.

use vstd::prelude::*;

use crate::errors::Error;
use crate::text::push_bytes;

verus! {

/// One persisted embedding: a label and the vector's f32 components as
/// IEEE-754 bit patterns.
#[derive(Debug, PartialEq, Eq)]
pub struct Record {
    pub label: Vec<u8>,
    pub vector: Vec<u32>,
}

/// The mathematical value of a record: its label bytes and components.
pub open spec fn record_view(r: Record) -> (Seq<u8>, Seq<u32>) {
    (r.label@, r.vector@)
}

/// The mathematical value of a whole store.
pub open spec fn records_view(rs: Seq<Record>) -> Seq<(Seq<u8>, Seq<u32>)> {
    rs.map_values(|r: Record| record_view(r))
}

/// The `k` little-endian base-256 digits of `v`.
pub open spec fn le_digits(v: int, k: nat) -> Seq<u8>
    decreases k,
{
    if k == 0 {
        Seq::empty()
    } else {
        seq![(v % 256) as u8] + le_digits(v / 256, (k - 1) as nat)
    }
}

/// The value of a little-endian base-256 digit string.
pub open spec fn le_val(b: Seq<u8>) -> int
    decreases b.len(),
{
    if b.len() == 0 {
        0
    } else {
        b[0] + 256 * le_val(b.drop_first())
    }
}

/// 256 to the `k`: the first value that does not fit in `k` digits.
pub open spec fn pow256(k: nat) -> int
    decreases k,
{
    if k == 0 {
        1
    } else {
        256 * pow256((k - 1) as nat)
    }
}

proof fn lemma_pow256_vals()
    ensures
        pow256(4) == 0x1_0000_0000,
        pow256(7) == 0x100_0000_0000_0000,
        pow256(8) == 0x1_0000_0000_0000_0000,
{
    reveal_with_fuel(pow256, 9);
}

/// `le_digits` writes `k` digits and `le_val` reads the value back.
pub proof fn lemma_le_digits_val(v: int, k: nat)
    requires
        0 <= v < pow256(k),
    ensures
        le_digits(v, k).len() == k,
        le_val(le_digits(v, k)) == v,
    decreases k,
{
    if k != 0 {
        let p1 = pow256((k - 1) as nat);
        assert(v / 256 < p1) by (nonlinear_arith)
            requires
                0 <= v,
                v < 256 * p1,
        ;
        lemma_le_digits_val(v / 256, (k - 1) as nat);
        let s = seq![(v % 256) as u8] + le_digits(v / 256, (k - 1) as nat);
        assert(s.drop_first() =~= le_digits(v / 256, (k - 1) as nat));
        assert(s[0] == v % 256);
        assert(v % 256 + 256 * (v / 256) == v);
    }
}

/// Byte encoding of a component list: 4 bytes per component.
pub open spec fn comps_bytes(cs: Seq<u32>) -> Seq<u8>
    decreases cs.len(),
{
    if cs.len() == 0 {
        Seq::empty()
    } else {
        le_digits(cs[0] as int, 4) + comps_bytes(cs.drop_first())
    }
}

/// Byte encoding of one record.
pub open spec fn record_bytes(r: (Seq<u8>, Seq<u32>)) -> Seq<u8> {
    le_digits(r.0.len() as int, 8) + r.0 + le_digits(r.1.len() as int, 8) + comps_bytes(r.1)
}

/// Byte encoding of a record list, record after record.
pub open spec fn records_bytes(rv: Seq<(Seq<u8>, Seq<u32>)>) -> Seq<u8>
    decreases rv.len(),
{
    if rv.len() == 0 {
        Seq::empty()
    } else {
        record_bytes(rv[0]) + records_bytes(rv.drop_first())
    }
}

/// Byte encoding of a whole store: record count, then the records.
pub open spec fn encode_spec(rv: Seq<(Seq<u8>, Seq<u32>)>) -> Seq<u8> {
    le_digits(rv.len() as int, 8) + records_bytes(rv)
}

/// A digit string's value is bounded by 256 to its length.
pub proof fn lemma_le_val_bound(b: Seq<u8>)
    ensures
        0 <= le_val(b) < pow256(b.len()),
    decreases b.len(),
{
    if b.len() > 0 {
        lemma_le_val_bound(b.drop_first());
        let r = le_val(b.drop_first());
        let p = pow256((b.len() - 1) as nat);
        assert(256 * r <= 256 * (p - 1)) by (nonlinear_arith)
            requires
                r <= p - 1,
        ;
    }
}

/// Parses `n` components of 4 bytes each.
pub open spec fn parse_comps(b: Seq<u8>, n: nat) -> Option<(Seq<u32>, Seq<u8>)>
    decreases n,
{
    if n == 0 {
        Some((Seq::empty(), b))
    } else if b.len() < 4 {
        None
    } else {
        let c = le_val(b.take(4)) as u32;
        match parse_comps(b.skip(4), (n - 1) as nat) {
            Some((cs, rest)) => Some((seq![c] + cs, rest)),
            None => None,
        }
    }
}

/// Parses one record: label length, label, component count, components.
pub open spec fn parse_record(b: Seq<u8>) -> Option<((Seq<u8>, Seq<u32>), Seq<u8>)> {
    if b.len() < 8 {
        None
    } else {
        let l = le_val(b.take(8));
        if b.len() < 8 + l {
            None
        } else {
            let label = b.subrange(8, 8 + l);
            let b2 = b.skip(8 + l);
            if b2.len() < 8 {
                None
            } else {
                let d = le_val(b2.take(8));
                match parse_comps(b2.skip(8), d as nat) {
                    Some((cs, rest)) => Some(((label, cs), rest)),
                    None => None,
                }
            }
        }
    }
}

/// Parses `n` records in a row.
pub open spec fn parse_records(b: Seq<u8>, n: nat) -> Option<(Seq<(Seq<u8>, Seq<u32>)>, Seq<u8>)>
    decreases n,
{
    if n == 0 {
        Some((Seq::empty(), b))
    } else {
        match parse_record(b) {
            Some((r, rest)) => match parse_records(rest, (n - 1) as nat) {
                Some((rs, rest2)) => Some((seq![r] + rs, rest2)),
                None => None,
            },
            None => None,
        }
    }
}

/// The stored records, if `b` is a well-formed store image; `None` otherwise.
pub open spec fn decode_spec(b: Seq<u8>) -> Option<Seq<(Seq<u8>, Seq<u32>)>> {
    if b.len() < 8 {
        None
    } else {
        let n = le_val(b.take(8));
        match parse_records(b.skip(8), n as nat) {
            Some((rs, rest)) => if rest.len() == 0 {
                Some(rs)
            } else {
                None
            },
            None => None,
        }
    }
}

proof fn lemma_parse_comps_rt(cs: Seq<u32>, rest: Seq<u8>)
    ensures
        parse_comps(comps_bytes(cs) + rest, cs.len()) == Some((cs, rest)),
    decreases cs.len(),
{
    lemma_pow256_vals();
    if cs.len() == 0 {
        assert(comps_bytes(cs) + rest =~= rest);
    } else {
        let head = le_digits(cs[0] as int, 4);
        lemma_le_digits_val(cs[0] as int, 4);
        let b = comps_bytes(cs) + rest;
        assert(b =~= head + (comps_bytes(cs.drop_first()) + rest));
        assert(b.take(4) =~= head);
        assert(b.skip(4) =~= comps_bytes(cs.drop_first()) + rest);
        lemma_parse_comps_rt(cs.drop_first(), rest);
        assert(le_val(b.take(4)) as u32 == cs[0]);
        assert(seq![cs[0]] + cs.drop_first() =~= cs);
    }
}

proof fn lemma_parse_record_rt(r: (Seq<u8>, Seq<u32>), rest: Seq<u8>)
    requires
        r.0.len() < pow256(8),
        r.1.len() < pow256(8),
    ensures
        parse_record(record_bytes(r) + rest) == Some((r, rest)),
{
    lemma_pow256_vals();
    let l = r.0.len() as int;
    let d = r.1.len() as int;
    lemma_le_digits_val(l, 8);
    lemma_le_digits_val(d, 8);
    let b = record_bytes(r) + rest;
    let b2exp = le_digits(d, 8) + (comps_bytes(r.1) + rest);
    assert(b =~= le_digits(l, 8) + (r.0 + b2exp));
    assert(b.take(8) =~= le_digits(l, 8));
    assert(b.len() >= 8 + l);
    assert(b.subrange(8, 8 + l) =~= r.0);
    assert(b.skip(8 + l) =~= b2exp);
    assert(b2exp.take(8) =~= le_digits(d, 8));
    assert(b2exp.skip(8) =~= comps_bytes(r.1) + rest);
    lemma_parse_comps_rt(r.1, rest);
}

proof fn lemma_parse_records_rt(rv: Seq<(Seq<u8>, Seq<u32>)>, rest: Seq<u8>)
    requires
        forall|i: int| 0 <= i < rv.len() ==> #[trigger] rv[i].0.len() < pow256(8) && rv[i].1.len() < pow256(8),
    ensures
        parse_records(records_bytes(rv) + rest, rv.len()) == Some((rv, rest)),
    decreases rv.len(),
{
    if rv.len() > 0 {
        let tail = rv.drop_first();
        assert forall|i2: int| 0 <= i2 < tail.len() implies #[trigger] tail[i2].0.len() < pow256(8)
            && tail[i2].1.len() < pow256(8) by {
            assert(tail[i2] == rv[i2 + 1]);
        }
        let b = records_bytes(rv) + rest;
        assert(b =~= record_bytes(rv[0]) + (records_bytes(tail) + rest));
        lemma_parse_record_rt(rv[0], records_bytes(tail) + rest);
        lemma_parse_records_rt(tail, rest);
        assert(seq![rv[0]] + tail =~= rv);
    }
}

/// Round trip: decoding an encoded store gives back exactly the records
/// that were written, labels and every component bit included.
pub proof fn lemma_store_round_trip(rv: Seq<(Seq<u8>, Seq<u32>)>)
    requires
        rv.len() < pow256(8),
        forall|i: int| 0 <= i < rv.len() ==> #[trigger] rv[i].0.len() < pow256(8) && rv[i].1.len() < pow256(8),
    ensures
        decode_spec(encode_spec(rv)) == Some(rv),
{
    lemma_pow256_vals();
    lemma_le_digits_val(rv.len() as int, 8);
    let b = encode_spec(rv);
    assert(b.take(8) =~= le_digits(rv.len() as int, 8));
    assert(b.skip(8) =~= records_bytes(rv) + Seq::<u8>::empty());
    lemma_parse_records_rt(rv, Seq::empty());
}

/// Encodings of record lists concatenate.
proof fn lemma_records_bytes_app(a: Seq<(Seq<u8>, Seq<u32>)>, b: Seq<(Seq<u8>, Seq<u32>)>)
    ensures
        records_bytes(a + b) == records_bytes(a) + records_bytes(b),
    decreases a.len(),
{
    if a.len() == 0 {
        assert(a + b =~= b);
        assert(records_bytes(a) + records_bytes(b) =~= records_bytes(b));
    } else {
        assert((a + b).drop_first() =~= a.drop_first() + b);
        lemma_records_bytes_app(a.drop_first(), b);
        assert(records_bytes(a + b) =~= records_bytes(a) + records_bytes(b));
    }
}

proof fn lemma_comps_bytes_app(a: Seq<u32>, b: Seq<u32>)
    ensures
        comps_bytes(a + b) == comps_bytes(a) + comps_bytes(b),
    decreases a.len(),
{
    if a.len() == 0 {
        assert(a + b =~= b);
        assert(comps_bytes(a) + comps_bytes(b) =~= comps_bytes(b));
    } else {
        assert((a + b).drop_first() =~= a.drop_first() + b);
        lemma_comps_bytes_app(a.drop_first(), b);
        assert(comps_bytes(a + b) =~= comps_bytes(a) + comps_bytes(b));
    }
}

/// Appends the `k` little-endian digits of `v`.
fn push_le(out: &mut Vec<u8>, v: u64, k: usize)
    ensures
        final(out)@ == old(out)@ + le_digits(v as int, k as nat),
    decreases k,
{
    if k == 0 {
        assert(out@ =~= out@ + le_digits(v as int, 0));
    } else {
        out.push((v % 256) as u8);
        push_le(out, v / 256, k - 1);
        assert(out@ =~= old(out)@ + le_digits(v as int, k as nat));
    }
}

/// Appends the 4-byte encodings of all components.
fn push_comps(out: &mut Vec<u8>, cs: &Vec<u32>)
    ensures
        final(out)@ == old(out)@ + comps_bytes(cs@),
{
    let mut i: usize = 0;
    while i < cs.len()
        invariant
            i <= cs.len(),
            out@ == old(out)@ + comps_bytes(cs@.take(i as int)),
        decreases cs.len() - i,
    {
        push_le(out, cs[i] as u64, 4);
        proof {
            let single = seq![cs@[i as int]];
            lemma_comps_bytes_app(cs@.take(i as int), single);
            assert(cs@.take(i + 1) =~= cs@.take(i as int) + single);
            assert(single.drop_first() =~= Seq::<u32>::empty());
            assert(comps_bytes(single) == le_digits(single[0] as int, 4) + comps_bytes(
                single.drop_first(),
            ));
            assert(comps_bytes(Seq::<u32>::empty()) == Seq::<u8>::empty());
            assert(comps_bytes(single) =~= le_digits(cs@[i as int] as int, 4));
        }
        assert(out@ =~= old(out)@ + comps_bytes(cs@.take(i + 1)));
        i = i + 1;
    }
    assert(cs@.take(cs@.len() as int) =~= cs@);
}

/// Serializes the records; `decode_records` reads them back exactly.
pub fn encode_records(records: &Vec<Record>) -> (out: Vec<u8>)
    ensures
        out@ == encode_spec(records_view(records@)),
{
    let rv = Ghost(records_view(records@));
    let mut out: Vec<u8> = Vec::new();
    push_le(&mut out, records.len() as u64, 8);
    assert(out@ =~= le_digits(rv@.len() as int, 8) + records_bytes(rv@.take(0)));
    let mut i: usize = 0;
    while i < records.len()
        invariant
            i <= records.len(),
            rv@ == records_view(records@),
            rv@.len() == records@.len(),
            forall|j: int| 0 <= j < records@.len() ==> #[trigger] rv@[j] == record_view(records@[j]),
            out@ == le_digits(rv@.len() as int, 8) + records_bytes(rv@.take(i as int)),
        decreases records.len() - i,
    {
        let r = &records[i];
        push_le(&mut out, r.label.len() as u64, 8);
        push_bytes(&mut out, &r.label);
        push_le(&mut out, r.vector.len() as u64, 8);
        push_comps(&mut out, &r.vector);
        proof {
            let single = seq![rv@[i as int]];
            lemma_records_bytes_app(rv@.take(i as int), single);
            assert(rv@.take(i + 1) =~= rv@.take(i as int) + single);
            assert(single.drop_first() =~= Seq::<(Seq<u8>, Seq<u32>)>::empty());
            assert(records_bytes(single) == record_bytes(single[0]) + records_bytes(
                single.drop_first(),
            ));
            assert(records_bytes(Seq::<(Seq<u8>, Seq<u32>)>::empty()) == Seq::<u8>::empty());
            assert(records_bytes(single) =~= record_bytes(rv@[i as int]));
        }
        assert(out@ =~= le_digits(rv@.len() as int, 8) + records_bytes(rv@.take(i + 1)));
        i = i + 1;
    }
    assert(rv@.take(rv@.len() as int) =~= rv@);
    out
}

/// Reads the `k`-digit little-endian value at `pos`.
fn read_le(bytes: &[u8], pos: usize, k: usize) -> (v: u64)
    requires
        pos + k <= bytes@.len(),
        bytes@.len() <= usize::MAX,
        k <= 8,
    ensures
        v as int == le_val(bytes@.subrange(pos as int, pos + k)),
    decreases k,
{
    proof {
        lemma_pow256_vals();
    }
    if k == 0 {
        assert(bytes@.subrange(pos as int, pos as int) =~= Seq::<u8>::empty());
        0
    } else {
        let rest = read_le(bytes, pos + 1, k - 1);
        proof {
            lemma_le_val_bound(bytes@.subrange(pos + 1, pos + k));
            assert(pow256((k - 1) as nat) <= pow256(7)) by {
                reveal_with_fuel(pow256, 9);
            }
            assert(256 * (rest as int) <= 256 * (pow256(7) - 1)) by (nonlinear_arith)
                requires
                    rest as int <= pow256(7) - 1,
            ;
            assert(bytes@.subrange(pos as int, pos + k).drop_first() =~= bytes@.subrange(
                pos + 1,
                pos + k,
            ));
        }
        bytes[pos] as u64 + 256 * rest
    }
}

/// Deserializes a store image; returns `FormatError` exactly when the
/// bytes are not a well-formed image.
#[verifier::loop_isolation(false)]
pub fn decode_records(bytes: &[u8]) -> (r: Result<Vec<Record>, Error>)
    ensures
        (r matches Ok(rs) ==> decode_spec(bytes@) == Some(records_view(rs@))),
        (r matches Err(e) ==> decode_spec(bytes@) is None && e == Error::FormatError),
{
    proof {
        lemma_pow256_vals();
    }
    if bytes.len() < 8 {
        return Err(Error::FormatError);
    }
    let n = read_le(bytes, 0, 8);
    proof {
        assert(bytes@.subrange(0, 8) =~= bytes@.take(8));
        lemma_le_val_bound(bytes@.take(8));
    }
    let mut rs: Vec<Record> = Vec::new();
    let mut pos: usize = 8;
    let mut i: u64 = 0;
    while i < n
        invariant
            8 <= pos <= bytes@.len(),
            i <= n,
            rs@.len() == i,
            parse_records(bytes@.skip(8), n as nat) == (match parse_records(
                bytes@.skip(pos as int),
                (n - i) as nat,
            ) {
                Some((tail, rest)) => Some((records_view(rs@) + tail, rest)),
                None => None::<(Seq<(Seq<u8>, Seq<u32>)>, Seq<u8>)>,
            }),
        decreases n - i,
    {
        let ghost b = bytes@.skip(pos as int);
        // label length
        if bytes.len() - pos < 8 {
            assert(parse_record(b) is None);
            return Err(Error::FormatError);
        }
        let l64 = read_le(bytes, pos, 8);
        proof {
            assert(b.take(8) =~= bytes@.subrange(pos as int, pos + 8));
        }
        if ((bytes.len() - pos - 8) as u64) < l64 {
            assert(parse_record(b) is None);
            return Err(Error::FormatError);
        }
        let l = l64 as usize;
        // label bytes
        let mut label: Vec<u8> = Vec::new();
        let mut j: usize = 0;
        while j < l
            invariant
                j <= l,
                label@ == bytes@.subrange(pos + 8, pos + 8 + j),
            decreases l - j,
        {
            label.push(bytes[pos + 8 + j]);
            assert(label@ =~= bytes@.subrange(pos + 8, pos + 8 + j + 1));
            j = j + 1;
        }
        proof {
            assert(b.subrange(8, 8 + l64 as int) =~= bytes@.subrange(pos + 8, pos + 8 + l));
        }
        let pos2 = pos + 8 + l;
        let ghost b2 = bytes@.skip(pos2 as int);
        proof {
            assert(b.skip(8 + l64 as int) =~= b2);
        }
        // component count
        if bytes.len() - pos2 < 8 {
            assert(b2.len() < 8);
            assert(parse_record(b) is None);
            return Err(Error::FormatError);
        }
        let d64 = read_le(bytes, pos2, 8);
        proof {
            assert(b2.take(8) =~= bytes@.subrange(pos2 as int, pos2 + 8));
        }
        // components
        let mut comps: Vec<u32> = Vec::new();
        let mut cur: usize = pos2 + 8;
        let mut c: u64 = 0;
        proof {
            assert(b2.skip(8) =~= bytes@.skip(pos2 + 8));
            assert(comps@ + (match parse_comps(b2.skip(8), d64 as nat) {
                Some((cs, rest)) => cs,
                None => Seq::empty(),
            }) =~= (match parse_comps(b2.skip(8), d64 as nat) {
                Some((cs, rest)) => cs,
                None => Seq::empty(),
            }));
        }
        while c < d64
            invariant
                c <= d64,
                pos2 + 8 <= cur <= bytes@.len(),
                comps@.len() == c,
                parse_comps(b2.skip(8), d64 as nat) == (match parse_comps(
                    bytes@.skip(cur as int),
                    (d64 - c) as nat,
                ) {
                    Some((cs, rest)) => Some((comps@ + cs, rest)),
                    None => None::<(Seq<u32>, Seq<u8>)>,
                }),
            decreases d64 - c,
        {
            if bytes.len() - cur < 4 {
                assert(parse_comps(bytes@.skip(cur as int), (d64 - c) as nat) is None);
                assert(parse_record(b) is None);
                return Err(Error::FormatError);
            }
            let v = read_le(bytes, cur, 4);
            proof {
                lemma_le_val_bound(bytes@.subrange(cur as int, cur + 4));
                assert(bytes@.skip(cur as int).take(4) =~= bytes@.subrange(cur as int, cur + 4));
                assert(bytes@.skip(cur as int).skip(4) =~= bytes@.skip(cur + 4));
            }
            let comp = v as u32;
            let ghost comps0 = comps@;
            comps.push(comp);
            proof {
                let nb = bytes@.skip(cur + 4);
                let rem = (d64 - c - 1) as nat;
                if parse_comps(nb, rem) is Some {
                    let tail = parse_comps(nb, rem).unwrap().0;
                    assert(comps0 + (seq![comp] + tail) =~= comps@ + tail);
                }
            }
            cur = cur + 4;
            c = c + 1;
        }
        // the parsed record
        let rec = Record { label, vector: comps };
        proof {
            assert(parse_comps(b2.skip(8), d64 as nat) == Some(
                (comps@ + Seq::<u32>::empty(), bytes@.skip(cur as int)),
            ));
            assert(comps@ + Seq::<u32>::empty() =~= comps@);
            assert(parse_record(b) == Some(
                ((rec.label@, rec.vector@), bytes@.skip(cur as int)),
            ));
        }
        let ghost rs0 = rs@;
        rs.push(rec);
        proof {
            assert(records_view(rs@) =~= records_view(rs0) + seq![record_view(rec)]);
            let nb = bytes@.skip(cur as int);
            let rem = (n - i - 1) as nat;
            if parse_records(nb, rem) is Some {
                let tail = parse_records(nb, rem).unwrap().0;
                assert(records_view(rs0) + (seq![record_view(rec)] + tail) =~= records_view(rs@)
                    + tail);
            }
        }
        pos = cur;
        i = i + 1;
    }
    if pos != bytes.len() {
        assert(bytes@.skip(pos as int).len() != 0);
        return Err(Error::FormatError);
    }
    proof {
        assert(bytes@.skip(pos as int) =~= Seq::<u8>::empty());
        assert(records_view(rs@) + Seq::<(Seq<u8>, Seq<u32>)>::empty() =~= records_view(rs@));
    }
    Ok(rs)
}

/// Pairs each label with its embedding vector, enforcing the store
/// invariant: the batch sizes agree and every vector has the same
/// dimension. Succeeds exactly on such inputs.
#[verifier::loop_isolation(false)]
pub fn build_records(labels: Vec<Vec<u8>>, vectors: Vec<Vec<u32>>) -> (r: Result<
    Vec<Record>,
    Error,
>)
    ensures
        (r is Ok <==> labels@.len() == vectors@.len() && (forall|i: int|
            0 <= i < vectors@.len() ==> (#[trigger] vectors@[i])@.len() == vectors@[0]@.len())),
        (r matches Ok(rs) ==> rs@.len() == labels@.len() && (forall|i: int|
            0 <= i < rs@.len() ==> (#[trigger] rs@[i]).label@ == labels@[i]@ && rs@[i].vector@
                == vectors@[i]@)),
        (r matches Err(e) ==> (if labels@.len() != vectors@.len() {
            e == Error::EmbeddingError
        } else {
            e == Error::DimensionMismatch
        })),
{
    if labels.len() != vectors.len() {
        return Err(Error::EmbeddingError);
    }
    let mut i: usize = 0;
    while i < vectors.len()
        invariant
            i <= vectors@.len(),
            forall|w: int|
                0 <= w < i ==> (#[trigger] vectors@[w])@.len() == vectors@[0]@.len(),
        decreases vectors@.len() - i,
    {
        if vectors[i].len() != vectors[0].len() {
            return Err(Error::DimensionMismatch);
        }
        i = i + 1;
    }
    let ghost labels0 = labels@;
    let ghost vectors0 = vectors@;
    let mut labels = labels;
    let mut vectors = vectors;
    let mut rs: Vec<Record> = Vec::new();
    while labels.len() > 0
        invariant
            labels@.len() == vectors@.len(),
            rs@.len() + labels@.len() == labels0.len(),
            labels@ == labels0.skip(rs@.len() as int),
            vectors@ == vectors0.skip(rs@.len() as int),
            forall|w: int|
                0 <= w < rs@.len() ==> (#[trigger] rs@[w]).label@ == labels0[w]@ && rs@[w].vector@
                    == vectors0[w]@,
        decreases labels@.len(),
    {
        let label = labels.remove(0);
        let vector = vectors.remove(0);
        rs.push(Record { label, vector });
        proof {
            assert(labels@ =~= labels0.skip(rs@.len() as int));
            assert(vectors@ =~= vectors0.skip(rs@.len() as int));
        }
    }
    Ok(rs)
}

} // verus!
