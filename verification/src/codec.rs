//! Persistence: a verified byte codec for the collection.
//!
//! A non-empty buffer is laid out as four magic bytes, the dimensionality
//! and the record count as little-endian 64-bit integers, and then one
//! entry per record: the value and the description, each as a 64-bit byte
//! length followed by UTF-8 bytes, and the embedding row as one
//! little-endian 32-bit pattern per component.  An empty buffer is the
//! valid empty collection; any other buffer that does not parse exactly to
//! this shape, or whose dimensionality differs from the configured one, is
//! rejected as `CorruptData`.  `lemma_encode_decode` is the round-trip law:
//! decoding an encoded collection yields the collection unchanged, records
//! in their original order with their exact texts and rows.
//! `lemma_decode_encode` is its converse: a buffer that parses is exactly
//! the encoding of its parse, so every collection has one byte form.

use vstd::prelude::*;
use vstd::bytes::{
    lemma_auto_spec_u32_to_from_le_bytes, lemma_auto_spec_u64_to_from_le_bytes,
    spec_u32_from_le_bytes, spec_u32_to_le_bytes, spec_u64_from_le_bytes, spec_u64_to_le_bytes,
    u32_from_le_bytes, u32_to_le_bytes, u64_from_le_bytes, u64_to_le_bytes,
};
use vstd::slice::{slice_index_get, slice_subrange, slice_to_vec};
use vstd::utf8::{
    decode_utf8, decode_utf8_encode_utf8, encode_utf8, encode_utf8_decode_utf8,
    encode_utf8_valid_utf8, valid_utf8,
};

use crate::error::StoreError;
use crate::store::{wf_view, CollectionView, Memory, MemoryCollection, MemoryView};

verus! {

/// The four bytes that begin every non-empty buffer.
pub open spec fn magic() -> Seq<u8> {
    seq![0x4du8, 0x45u8, 0x4du8, 0x31u8]
}

/// The serialized form of a text: its UTF-8 byte length, then its bytes.
pub open spec fn encode_str(s: Seq<char>) -> Seq<u8> {
    spec_u64_to_le_bytes(encode_utf8(s).len() as u64) + encode_utf8(s)
}

/// The serialized form of an embedding row.
pub open spec fn encode_row(row: Seq<u32>) -> Seq<u8>
    decreases row.len(),
{
    if row.len() == 0 {
        Seq::empty()
    } else {
        spec_u32_to_le_bytes(row[0]) + encode_row(row.drop_first())
    }
}

/// The serialized form of one record and its row.
pub open spec fn encode_record(m: MemoryView, row: Seq<u32>) -> Seq<u8> {
    encode_str(m.value) + encode_str(m.description) + encode_row(row)
}

/// The serialized forms of all records, in storage order.
pub open spec fn encode_records(ms: Seq<MemoryView>, rows: Seq<Seq<u32>>) -> Seq<u8>
    decreases ms.len(),
{
    if ms.len() == 0 {
        Seq::empty()
    } else {
        encode_record(ms[0], rows[0]) + encode_records(ms.drop_first(), rows.drop_first())
    }
}

/// The header of the serialized form.
pub open spec fn header(v: CollectionView) -> Seq<u8> {
    magic() + spec_u64_to_le_bytes(v.dim as u64) + spec_u64_to_le_bytes(v.records.len() as u64)
}

/// The serialized form of a collection.
pub open spec fn spec_encode(v: CollectionView) -> Seq<u8> {
    header(v) + encode_records(v.records, v.rows)
}

/// The collection's counts fit the length fields of the format.
pub open spec fn bounded(v: CollectionView) -> bool {
    &&& v.dim <= u64::MAX
    &&& v.records.len() <= u64::MAX
    &&& forall|i: int|
        0 <= i < v.records.len() ==> encode_utf8((#[trigger] v.records[i]).value).len() <= u64::MAX
            && encode_utf8(v.records[i].description).len() <= u64::MAX
}

/// Parse a 64-bit little-endian integer from the front of a buffer.
pub open spec fn take_u64(b: Seq<u8>) -> Option<(u64, Seq<u8>)> {
    if b.len() >= 8 {
        Some((spec_u64_from_le_bytes(b.take(8)), b.skip(8)))
    } else {
        None
    }
}

/// Parse a 32-bit little-endian pattern from the front of a buffer.
pub open spec fn take_u32(b: Seq<u8>) -> Option<(u32, Seq<u8>)> {
    if b.len() >= 4 {
        Some((spec_u32_from_le_bytes(b.take(4)), b.skip(4)))
    } else {
        None
    }
}

/// Parse a length-prefixed UTF-8 text from the front of a buffer.
pub open spec fn take_str(b: Seq<u8>) -> Option<(Seq<char>, Seq<u8>)> {
    match take_u64(b) {
        Some((len, r)) => if r.len() >= len && valid_utf8(r.take(len as int)) {
            Some((decode_utf8(r.take(len as int)), r.skip(len as int)))
        } else {
            None
        },
        None => None,
    }
}

/// Parse `d` row components from the front of a buffer.
pub open spec fn take_row(b: Seq<u8>, d: nat) -> Option<(Seq<u32>, Seq<u8>)>
    decreases d,
{
    if d == 0 {
        Some((Seq::empty(), b))
    } else {
        match take_u32(b) {
            Some((x, r)) => match take_row(r, (d - 1) as nat) {
                Some((xs, r2)) => Some((seq![x] + xs, r2)),
                None => None,
            },
            None => None,
        }
    }
}

/// Parse `k` records of dimensionality `d` from the front of a buffer.
pub open spec fn take_records(b: Seq<u8>, d: nat, k: nat) -> Option<
    (Seq<MemoryView>, Seq<Seq<u32>>, Seq<u8>),
>
    decreases k,
{
    if k == 0 {
        Some((Seq::empty(), Seq::empty(), b))
    } else {
        match take_str(b) {
            Some((value, r1)) => match take_str(r1) {
                Some((description, r2)) => match take_row(r2, d) {
                    Some((row, r3)) => match take_records(r3, d, (k - 1) as nat) {
                        Some((ms, rows, r4)) => Some(
                            (seq![MemoryView { value, description }] + ms, seq![row] + rows, r4),
                        ),
                        None => None,
                    },
                    None => None,
                },
                None => None,
            },
            None => None,
        }
    }
}

/// The parse of a whole buffer at configured dimensionality `d`.
///
/// The empty buffer is the empty collection; everything else must carry
/// the magic bytes, the configured dimensionality, and exactly the
/// announced records with no bytes left over.
pub open spec fn spec_decode(b: Seq<u8>, d: nat) -> Option<CollectionView> {
    if b.len() == 0 {
        Some(CollectionView { dim: d, records: Seq::empty(), rows: Seq::empty() })
    } else if b.len() >= 4 && b.take(4) == magic() {
        match take_u64(b.skip(4)) {
            Some((dim64, r1)) => if dim64 == d {
                match take_u64(r1) {
                    Some((n, r2)) => match take_records(r2, d, n as nat) {
                        Some((ms, rows, r3)) => if r3.len() == 0 {
                            Some(CollectionView { dim: d, records: ms, rows })
                        } else {
                            None
                        },
                        None => None,
                    },
                    None => None,
                }
            } else {
                None
            },
            None => None,
        }
    } else {
        None
    }
}

proof fn lemma_take_u64(x: u64, rest: Seq<u8>)
    ensures
        take_u64(spec_u64_to_le_bytes(x) + rest) == Some((x, rest)),
{
    lemma_auto_spec_u64_to_from_le_bytes();
    let b = spec_u64_to_le_bytes(x) + rest;
    assert(b.take(8) =~= spec_u64_to_le_bytes(x));
    assert(b.skip(8) =~= rest);
}

proof fn lemma_take_u32(x: u32, rest: Seq<u8>)
    ensures
        take_u32(spec_u32_to_le_bytes(x) + rest) == Some((x, rest)),
{
    lemma_auto_spec_u32_to_from_le_bytes();
    let b = spec_u32_to_le_bytes(x) + rest;
    assert(b.take(4) =~= spec_u32_to_le_bytes(x));
    assert(b.skip(4) =~= rest);
}

proof fn lemma_take_str(s: Seq<char>, rest: Seq<u8>)
    requires
        encode_utf8(s).len() <= u64::MAX,
    ensures
        take_str(encode_str(s) + rest) == Some((s, rest)),
{
    let u = encode_utf8(s);
    assert(encode_str(s) + rest =~= spec_u64_to_le_bytes(u.len() as u64) + (u + rest));
    lemma_take_u64(u.len() as u64, u + rest);
    assert((u + rest).take(u.len() as int) =~= u);
    assert((u + rest).skip(u.len() as int) =~= rest);
    encode_utf8_valid_utf8(s);
    encode_utf8_decode_utf8(s);
}

proof fn lemma_take_row(row: Seq<u32>, rest: Seq<u8>)
    ensures
        take_row(encode_row(row) + rest, row.len() as nat) == Some((row, rest)),
    decreases row.len(),
{
    if row.len() == 0 {
        assert(encode_row(row) + rest =~= rest);
    } else {
        let tail = row.drop_first();
        assert(encode_row(row) + rest =~= spec_u32_to_le_bytes(row[0]) + (encode_row(tail) + rest));
        lemma_take_u32(row[0], encode_row(tail) + rest);
        lemma_take_row(tail, rest);
        assert(seq![row[0]] + tail =~= row);
    }
}

proof fn lemma_take_records(ms: Seq<MemoryView>, rows: Seq<Seq<u32>>, d: nat, rest: Seq<u8>)
    requires
        ms.len() == rows.len(),
        forall|i: int| 0 <= i < rows.len() ==> (#[trigger] rows[i]).len() == d,
        forall|i: int|
            0 <= i < ms.len() ==> encode_utf8((#[trigger] ms[i]).value).len() <= u64::MAX
                && encode_utf8(ms[i].description).len() <= u64::MAX,
    ensures
        take_records(encode_records(ms, rows) + rest, d, ms.len() as nat) == Some(
            (ms, rows, rest),
        ),
    decreases ms.len(),
{
    if ms.len() == 0 {
        assert(encode_records(ms, rows) + rest =~= rest);
    } else {
        let m = ms[0];
        let row = rows[0];
        let mt = ms.drop_first();
        let rt = rows.drop_first();
        let rest1 = encode_str(m.description) + (encode_row(row) + (encode_records(mt, rt) + rest));
        assert(encode_records(ms, rows) + rest =~= encode_str(m.value) + rest1);
        lemma_take_str(m.value, rest1);
        let rest2 = encode_row(row) + (encode_records(mt, rt) + rest);
        lemma_take_str(m.description, rest2);
        let rest3 = encode_records(mt, rt) + rest;
        lemma_take_row(row, rest3);
        assert(row.len() == d);
        lemma_take_records(mt, rt, d, rest);
        assert(seq![MemoryView { value: m.value, description: m.description }] + mt =~= ms);
        assert(seq![row] + rt =~= rows);
    }
}

proof fn lemma_take_row_split(b: Seq<u8>, j: nat, k: nat)
    ensures
        take_row(b, j + k) == (match take_row(b, j) {
            Some((xs, r)) => match take_row(r, k) {
                Some((ys, r2)) => Some((xs + ys, r2)),
                None => None,
            },
            None => None::<(Seq<u32>, Seq<u8>)>,
        }),
    decreases j,
{
    if j == 0 {
        match take_row(b, k) {
            Some((ys, r2)) => {
                assert(Seq::<u32>::empty() + ys =~= ys);
            },
            None => {},
        }
    } else {
        match take_u32(b) {
            Some((x, r)) => {
                lemma_take_row_split(r, (j - 1) as nat, k);
                match take_row(r, (j - 1) as nat) {
                    Some((xs, r1)) => {
                        match take_row(r1, k) {
                            Some((ys, r2)) => {
                                assert((seq![x] + xs) + ys =~= seq![x] + (xs + ys));
                            },
                            None => {},
                        }
                    },
                    None => {},
                }
            },
            None => {},
        }
    }
}

proof fn lemma_take_records_split(b: Seq<u8>, d: nat, j: nat, k: nat)
    ensures
        take_records(b, d, j + k) == (match take_records(b, d, j) {
            Some((ms, rows, r)) => match take_records(r, d, k) {
                Some((ms2, rows2, r2)) => Some((ms + ms2, rows + rows2, r2)),
                None => None,
            },
            None => None::<(Seq<MemoryView>, Seq<Seq<u32>>, Seq<u8>)>,
        }),
    decreases j,
{
    if j == 0 {
        match take_records(b, d, k) {
            Some((ms2, rows2, r2)) => {
                assert(Seq::<MemoryView>::empty() + ms2 =~= ms2);
                assert(Seq::<Seq<u32>>::empty() + rows2 =~= rows2);
            },
            None => {},
        }
    } else {
        match take_str(b) {
            Some((value, r1)) => {
                match take_str(r1) {
                    Some((description, r2)) => {
                        match take_row(r2, d) {
                            Some((row, r3)) => {
                                lemma_take_records_split(r3, d, (j - 1) as nat, k);
                                match take_records(r3, d, (j - 1) as nat) {
                                    Some((ms, rows, r4)) => {
                                        match take_records(r4, d, k) {
                                            Some((ms2, rows2, r5)) => {
                                                let mv = MemoryView { value, description };
                                                assert((seq![mv] + ms) + ms2 =~= seq![mv] + (ms
                                                    + ms2));
                                                assert((seq![row] + rows) + rows2 =~= seq![row] + (
                                                rows + rows2));
                                            },
                                            None => {},
                                        }
                                    },
                                    None => {},
                                }
                            },
                            None => {},
                        }
                    },
                    None => {},
                }
            },
            None => {},
        }
    }
}

/// A parse of one record that fails dooms any parse that starts with it.
proof fn lemma_take_records_first_none(b: Seq<u8>, d: nat, k: nat)
    requires
        k >= 1,
        take_records(b, d, 1) is None,
    ensures
        take_records(b, d, k) is None,
{
    match take_str(b) {
        Some((value, r1)) => {
            match take_str(r1) {
                Some((description, r2)) => {
                    match take_row(r2, d) {
                        Some((row, r3)) => {
                            assert(take_records(r3, d, 0) == Some(
                                (Seq::<MemoryView>::empty(), Seq::<Seq<u32>>::empty(), r3),
                            ));
                            assert(take_records(b, d, 1) is Some);
                            assert(false);
                        },
                        None => {},
                    }
                },
                None => {},
            }
        },
        None => {},
    }
}

/// Round-trip law: decoding the encoding of a well-formed collection, at
/// its own dimensionality, yields the collection unchanged — records in
/// their original order with their exact texts and embedding rows.
pub proof fn lemma_encode_decode(v: CollectionView)
    requires
        wf_view(v),
        bounded(v),
    ensures
        spec_decode(spec_encode(v), v.dim) == Some(v),
{
    lemma_auto_spec_u64_to_from_le_bytes();
    let b = spec_encode(v);
    let dimb = spec_u64_to_le_bytes(v.dim as u64);
    let nb = spec_u64_to_le_bytes(v.records.len() as u64);
    let body = encode_records(v.records, v.rows);
    assert(b.len() >= 4 + dimb.len());
    assert(b.take(4) =~= magic());
    assert(b.skip(4) =~= dimb + (nb + body));
    lemma_take_u64(v.dim as u64, nb + body);
    lemma_take_u64(v.records.len() as u64, body);
    assert(body =~= body + Seq::<u8>::empty());
    lemma_take_records(v.records, v.rows, v.dim, Seq::empty());
    assert(take_records(body, v.dim, v.records.len() as nat) == Some(
        (v.records, v.rows, Seq::<u8>::empty()),
    ));
    assert(spec_decode(b, v.dim) == Some(CollectionView { dim: v.dim, records: v.records, rows: v.rows }));
    assert(CollectionView { dim: v.dim, records: v.records, rows: v.rows } == v);
}

proof fn lemma_take_u64_canon(b: Seq<u8>)
    requires
        take_u64(b) is Some,
    ensures
        b =~= spec_u64_to_le_bytes(take_u64(b).unwrap().0) + take_u64(b).unwrap().1,
{
    lemma_auto_spec_u64_to_from_le_bytes();
    assert(b =~= b.take(8) + b.skip(8));
}

proof fn lemma_take_u32_canon(b: Seq<u8>)
    requires
        take_u32(b) is Some,
    ensures
        b =~= spec_u32_to_le_bytes(take_u32(b).unwrap().0) + take_u32(b).unwrap().1,
{
    lemma_auto_spec_u32_to_from_le_bytes();
    assert(b =~= b.take(4) + b.skip(4));
}

proof fn lemma_take_str_canon(b: Seq<u8>)
    requires
        take_str(b) is Some,
    ensures
        encode_utf8(take_str(b).unwrap().0).len() <= u64::MAX,
        b =~= encode_str(take_str(b).unwrap().0) + take_str(b).unwrap().1,
{
    let len = take_u64(b).unwrap().0;
    let r = take_u64(b).unwrap().1;
    let taken = r.take(len as int);
    decode_utf8_encode_utf8(taken);
    assert(encode_utf8(decode_utf8(taken)) == taken);
    assert(taken.len() == len);
    lemma_take_u64_canon(b);
    assert(r =~= taken + r.skip(len as int));
}

proof fn lemma_take_row_canon(b: Seq<u8>, d: nat)
    requires
        take_row(b, d) is Some,
    ensures
        take_row(b, d).unwrap().0.len() == d,
        b =~= encode_row(take_row(b, d).unwrap().0) + take_row(b, d).unwrap().1,
    decreases d,
{
    if d == 0 {
        assert(encode_row(Seq::<u32>::empty()) =~= Seq::<u8>::empty());
        assert(b =~= Seq::<u8>::empty() + b);
    } else {
        let x = take_u32(b).unwrap().0;
        let r = take_u32(b).unwrap().1;
        lemma_take_u32_canon(b);
        lemma_take_row_canon(r, (d - 1) as nat);
        let xs = take_row(r, (d - 1) as nat).unwrap().0;
        let row = take_row(b, d).unwrap().0;
        assert(row =~= seq![x] + xs);
        assert(row[0] == x);
        assert(row.drop_first() =~= xs);
        assert(b =~= spec_u32_to_le_bytes(x) + (encode_row(xs) + take_row(b, d).unwrap().1));
    }
}

proof fn lemma_take_records_canon(b: Seq<u8>, d: nat, k: nat)
    requires
        take_records(b, d, k) is Some,
    ensures
        take_records(b, d, k).unwrap().0.len() == k,
        take_records(b, d, k).unwrap().1.len() == k,
        forall|i: int|
            0 <= i < k ==> (#[trigger] take_records(b, d, k).unwrap().1[i]).len() == d,
        forall|i: int|
            0 <= i < k ==> encode_utf8(
                (#[trigger] take_records(b, d, k).unwrap().0[i]).value,
            ).len() <= u64::MAX && encode_utf8(
                take_records(b, d, k).unwrap().0[i].description,
            ).len() <= u64::MAX,
        b =~= encode_records(take_records(b, d, k).unwrap().0, take_records(b, d, k).unwrap().1)
            + take_records(b, d, k).unwrap().2,
    decreases k,
{
    if k == 0 {
        assert(encode_records(Seq::<MemoryView>::empty(), Seq::<Seq<u32>>::empty())
            =~= Seq::<u8>::empty());
        assert(b =~= Seq::<u8>::empty() + b);
    } else {
        let value = take_str(b).unwrap().0;
        let r1 = take_str(b).unwrap().1;
        let description = take_str(r1).unwrap().0;
        let r2 = take_str(r1).unwrap().1;
        let row = take_row(r2, d).unwrap().0;
        let r3 = take_row(r2, d).unwrap().1;
        lemma_take_str_canon(b);
        lemma_take_str_canon(r1);
        lemma_take_row_canon(r2, d);
        lemma_take_records_canon(r3, d, (k - 1) as nat);
        let mt = take_records(r3, d, (k - 1) as nat).unwrap().0;
        let rt = take_records(r3, d, (k - 1) as nat).unwrap().1;
        let rest = take_records(r3, d, (k - 1) as nat).unwrap().2;
        let ms = take_records(b, d, k).unwrap().0;
        let rows = take_records(b, d, k).unwrap().1;
        let mv = MemoryView { value, description };
        assert(ms =~= seq![mv] + mt);
        assert(rows =~= seq![row] + rt);
        assert(ms[0] == mv);
        assert(rows[0] == row);
        assert(ms.drop_first() =~= mt);
        assert(rows.drop_first() =~= rt);
        assert forall|i: int| 0 <= i < k implies (#[trigger] rows[i]).len() == d by {
            if i > 0 {
                assert(rows[i] == rt[i - 1]);
            }
        }
        assert forall|i: int|
            0 <= i < k implies encode_utf8((#[trigger] ms[i]).value).len() <= u64::MAX
                && encode_utf8(ms[i].description).len() <= u64::MAX by {
            if i > 0 {
                assert(ms[i] == mt[i - 1]);
            }
        }
        assert(b =~= encode_str(value) + (encode_str(description) + (encode_row(row) + (
        encode_records(mt, rt) + rest))));
        assert(encode_records(ms, rows) =~= encode_record(mv, row) + encode_records(mt, rt));
        assert(b =~= encode_records(ms, rows) + rest);
    }
}

/// Canonicity: a non-empty buffer that parses is exactly the encoding of
/// its parse, which is well formed and within the format's bounds.  With
/// the round-trip law this makes the byte form of every collection unique.
pub proof fn lemma_decode_encode(b: Seq<u8>, d: nat)
    requires
        b.len() > 0,
        spec_decode(b, d) is Some,
    ensures
        wf_view(spec_decode(b, d).unwrap()),
        bounded(spec_decode(b, d).unwrap()),
        spec_encode(spec_decode(b, d).unwrap()) == b,
{
    let r1 = take_u64(b.skip(4)).unwrap().1;
    let n = take_u64(r1).unwrap().0;
    let r2 = take_u64(r1).unwrap().1;
    lemma_take_u64_canon(b.skip(4));
    lemma_take_u64_canon(r1);
    lemma_take_records_canon(r2, d, n as nat);
    let v = spec_decode(b, d).unwrap();
    assert(v.records == take_records(r2, d, n as nat).unwrap().0);
    assert(v.rows == take_records(r2, d, n as nat).unwrap().1);
    assert(v.records.len() as u64 == n);
    assert(d <= u64::MAX) by {
        assert(take_u64(b.skip(4)).unwrap().0 == d);
    }
    assert(r2 =~= encode_records(v.records, v.rows) + take_records(r2, d, n as nat).unwrap().2);
    assert(take_records(r2, d, n as nat).unwrap().2.len() == 0);
    assert(r2 =~= encode_records(v.records, v.rows));
    assert(b =~= b.take(4) + b.skip(4));
    assert(spec_encode(v) =~= b);
}

proof fn lemma_encode_row_push(row: Seq<u32>, x: u32)
    ensures
        encode_row(row.push(x)) == encode_row(row) + spec_u32_to_le_bytes(x),
    decreases row.len(),
{
    if row.len() == 0 {
        assert(row.push(x)[0] == x);
        assert(row.push(x).drop_first() =~= Seq::<u32>::empty());
        assert(encode_row(Seq::<u32>::empty()) == Seq::<u8>::empty());
        assert(encode_row(row.push(x)) == spec_u32_to_le_bytes(x) + Seq::<u8>::empty());
        assert(row =~= Seq::<u32>::empty());
        assert(spec_u32_to_le_bytes(x) + Seq::<u8>::empty() =~= spec_u32_to_le_bytes(x));
        assert(Seq::<u8>::empty() + spec_u32_to_le_bytes(x) =~= spec_u32_to_le_bytes(x));
    } else {
        assert(row.push(x)[0] == row[0]);
        assert(row.push(x).drop_first() =~= row.drop_first().push(x));
        lemma_encode_row_push(row.drop_first(), x);
        assert(encode_row(row.push(x)) =~= (spec_u32_to_le_bytes(row[0]) + encode_row(
            row.drop_first(),
        )) + spec_u32_to_le_bytes(x));
    }
}

proof fn lemma_encode_records_push(ms: Seq<MemoryView>, rows: Seq<Seq<u32>>, m: MemoryView, row: Seq<u32>)
    requires
        ms.len() == rows.len(),
    ensures
        encode_records(ms.push(m), rows.push(row)) == encode_records(ms, rows) + encode_record(
            m,
            row,
        ),
    decreases ms.len(),
{
    if ms.len() == 0 {
        assert(ms.push(m)[0] == m);
        assert(rows.push(row)[0] == row);
        assert(ms.push(m).drop_first() =~= Seq::<MemoryView>::empty());
        assert(rows.push(row).drop_first() =~= Seq::<Seq<u32>>::empty());
        assert(encode_records(Seq::<MemoryView>::empty(), Seq::<Seq<u32>>::empty())
            == Seq::<u8>::empty());
        assert(encode_records(ms.push(m), rows.push(row)) == encode_record(m, row)
            + Seq::<u8>::empty());
        assert(ms =~= Seq::<MemoryView>::empty());
        assert(rows =~= Seq::<Seq<u32>>::empty());
        assert(encode_record(m, row) + Seq::<u8>::empty() =~= encode_record(m, row));
        assert(Seq::<u8>::empty() + encode_record(m, row) =~= encode_record(m, row));
    } else {
        assert(ms.push(m)[0] == ms[0]);
        assert(rows.push(row)[0] == rows[0]);
        assert(ms.push(m).drop_first() =~= ms.drop_first().push(m));
        assert(rows.push(row).drop_first() =~= rows.drop_first().push(row));
        lemma_encode_records_push(ms.drop_first(), rows.drop_first(), m, row);
        assert(encode_records(ms.push(m), rows.push(row)) =~= (encode_record(ms[0], rows[0])
            + encode_records(ms.drop_first(), rows.drop_first())) + encode_record(m, row));
    }
}

/// Relies on `String::from_utf8`: it succeeds exactly on valid UTF-8 input
/// and then returns the string those bytes spell.
#[verifier::external_body]
fn string_from_utf8(bytes: Vec<u8>) -> (r: Option<String>)
    ensures
        r is Some <==> valid_utf8(bytes@),
        r is Some ==> r.unwrap()@ == decode_utf8(bytes@),
{
    match String::from_utf8(bytes) {
        Ok(s) => Some(s),
        Err(_) => None,
    }
}

/// Read a 64-bit little-endian integer at byte offset `pos`.
fn read_u64(bytes: &[u8], pos: usize) -> (r: Option<(u64, usize)>)
    requires
        pos <= bytes@.len(),
    ensures
        match r {
            Some(p) => {
                &&& take_u64(bytes@.skip(pos as int)) == Some((p.0, bytes@.skip(p.1 as int)))
                &&& p.1 == pos + 8 <= bytes@.len()
            },
            None => take_u64(bytes@.skip(pos as int)) is None,
        },
{
    if bytes.len() - pos >= 8 {
        let s = slice_subrange(bytes, pos, pos + 8);
        let x = u64_from_le_bytes(s);
        proof {
            assert(bytes@.skip(pos as int).take(8) =~= bytes@.subrange(pos as int, pos + 8));
            assert(bytes@.skip(pos as int).skip(8) =~= bytes@.skip(pos + 8));
        }
        Some((x, pos + 8))
    } else {
        None
    }
}

/// Read a 32-bit little-endian pattern at byte offset `pos`.
fn read_u32(bytes: &[u8], pos: usize) -> (r: Option<(u32, usize)>)
    requires
        pos <= bytes@.len(),
    ensures
        match r {
            Some(p) => {
                &&& take_u32(bytes@.skip(pos as int)) == Some((p.0, bytes@.skip(p.1 as int)))
                &&& p.1 == pos + 4 <= bytes@.len()
            },
            None => take_u32(bytes@.skip(pos as int)) is None,
        },
{
    if bytes.len() - pos >= 4 {
        let s = slice_subrange(bytes, pos, pos + 4);
        let x = u32_from_le_bytes(s);
        proof {
            assert(bytes@.skip(pos as int).take(4) =~= bytes@.subrange(pos as int, pos + 4));
            assert(bytes@.skip(pos as int).skip(4) =~= bytes@.skip(pos + 4));
        }
        Some((x, pos + 4))
    } else {
        None
    }
}

/// Read a length-prefixed UTF-8 text at byte offset `pos`.
fn read_str(bytes: &[u8], pos: usize) -> (r: Option<(String, usize)>)
    requires
        pos <= bytes@.len(),
    ensures
        match r {
            Some(p) => {
                &&& take_str(bytes@.skip(pos as int)) == Some((p.0@, bytes@.skip(p.1 as int)))
                &&& pos <= p.1 <= bytes@.len()
            },
            None => take_str(bytes@.skip(pos as int)) is None,
        },
{
    match read_u64(bytes, pos) {
        None => None,
        Some((len, p1)) => {
            let rem = bytes.len() - p1;
            if (rem as u64) < len {
                proof {
                    assert(bytes@.skip(p1 as int).len() < len);
                }
                None
            } else {
                let l: usize = len as usize;
                let sl = slice_subrange(bytes, p1, p1 + l);
                proof {
                    assert(sl@ =~= bytes@.skip(p1 as int).take(len as int));
                }
                let v = slice_to_vec(sl);
                match string_from_utf8(v) {
                    None => None,
                    Some(s) => {
                        proof {
                            assert(bytes@.skip(p1 as int).skip(len as int) =~= bytes@.skip(
                                p1 + l,
                            ));
                        }
                        Some((s, p1 + l))
                    },
                }
            }
        },
    }
}

/// Read one embedding row of `d` components at byte offset `pos`.
fn read_row(bytes: &[u8], pos: usize, d: usize) -> (r: Option<(Vec<u32>, usize)>)
    requires
        pos <= bytes@.len(),
    ensures
        match r {
            Some(p) => {
                &&& take_row(bytes@.skip(pos as int), d as nat) == Some(
                    (p.0@, bytes@.skip(p.1 as int)),
                )
                &&& pos <= p.1 <= bytes@.len()
                &&& p.0@.len() == d
            },
            None => take_row(bytes@.skip(pos as int), d as nat) is None,
        },
{
    let mut out: Vec<u32> = Vec::new();
    let mut cur = pos;
    let mut j: usize = 0;
    let mut failed = false;
    while j < d && !failed
        invariant
            j <= d,
            pos <= cur <= bytes@.len(),
            !failed ==> out@.len() == j,
            !failed ==> take_row(bytes@.skip(pos as int), j as nat) == Some(
                (out@, bytes@.skip(cur as int)),
            ),
            failed ==> take_row(bytes@.skip(pos as int), d as nat) is None,
        decreases d - j, 1int - (if failed { 1int } else { 0int }),
    {
        match read_u32(bytes, cur) {
            None => {
                proof {
                    lemma_take_row_prefix_none(bytes@.skip(pos as int), bytes@.skip(
                        cur as int,
                    ), out@, j as nat, d as nat);
                }
                failed = true;
            },
            Some((x, p2)) => {
                let ghost out_pre = out@;
                out.push(x);
                proof {
                    lemma_take_row_split(bytes@.skip(pos as int), j as nat, 1);
                    assert(take_row(bytes@.skip(cur as int), 1) == Some(
                        (seq![x], bytes@.skip(p2 as int)),
                    )) by {
                        assert(take_row(bytes@.skip(p2 as int), 0) == Some(
                            (Seq::<u32>::empty(), bytes@.skip(p2 as int)),
                        ));
                        assert(seq![x] + Seq::<u32>::empty() =~= seq![x]);
                    }
                    assert(out@ =~= out_pre + seq![x]);
                }
                cur = p2;
                j += 1;
            },
        }
    }
    if failed {
        None
    } else {
        Some((out, cur))
    }
}

/// A row parse that fails after `j` good components fails as a whole.
proof fn lemma_take_row_prefix_none(
    b: Seq<u8>,
    cur: Seq<u8>,
    got: Seq<u32>,
    j: nat,
    d: nat,
)
    requires
        j < d,
        take_row(b, j) == Some((got, cur)),
        take_u32(cur) is None,
    ensures
        take_row(b, d) is None,
{
    lemma_take_row_split(b, j, (d - j) as nat);
}

/// Read one record (two texts and a row) at byte offset `pos`.
fn read_record(bytes: &[u8], pos: usize, d: usize) -> (r: Option<(Memory, Vec<u32>, usize)>)
    requires
        pos <= bytes@.len(),
    ensures
        match r {
            Some(p) => {
                &&& take_records(bytes@.skip(pos as int), d as nat, 1) == Some(
                    (seq![p.0@], seq![p.1@], bytes@.skip(p.2 as int)),
                )
                &&& pos <= p.2 <= bytes@.len()
                &&& p.1@.len() == d
            },
            None => take_records(bytes@.skip(pos as int), d as nat, 1) is None,
        },
{
    match read_str(bytes, pos) {
        None => None,
        Some((value, p1)) => {
            match read_str(bytes, p1) {
                None => None,
                Some((description, p2)) => {
                    match read_row(bytes, p2, d) {
                        None => None,
                        Some((row, p3)) => {
                            let m = Memory { value, description };
                            proof {
                                assert(take_records(bytes@.skip(p3 as int), d as nat, 0) == Some(
                                    (
                                        Seq::<MemoryView>::empty(),
                                        Seq::<Seq<u32>>::empty(),
                                        bytes@.skip(p3 as int),
                                    ),
                                ));
                                assert(seq![m@] + Seq::<MemoryView>::empty() =~= seq![m@]);
                                assert(seq![row@] + Seq::<Seq<u32>>::empty() =~= seq![row@]);
                            }
                            Some((m, row, p3))
                        },
                    }
                },
            }
        },
    }
}

/// Parse a buffer into a collection at the configured dimensionality.
///
/// An empty buffer is the empty collection.  A non-empty buffer must parse
/// exactly (`spec_decode`); anything else — bad magic, a truncated field,
/// invalid UTF-8, a dimensionality other than `dim`, or trailing bytes —
/// is rejected as `CorruptData`, never a panic and never mistaken for an
/// empty store.
pub fn decode(bytes: &[u8], dim: usize) -> (r: Result<MemoryCollection, StoreError>)
    ensures
        match r {
            Ok(c) => {
                &&& c.wf()
                &&& c@.dim == dim
                &&& spec_decode(bytes@, dim as nat) == Some(c@)
            },
            Err(e) => {
                &&& spec_decode(bytes@, dim as nat) is None
                &&& e == StoreError::CorruptData
                &&& bytes@.len() > 0
            },
        },
{
    let n_bytes = bytes.len();
    if n_bytes == 0 {
        let c = MemoryCollection::new(dim);
        proof {
            assert(c@.records =~= Seq::<MemoryView>::empty());
            assert(c@.rows =~= Seq::<Seq<u32>>::empty());
        }
        return Ok(c);
    }
    if n_bytes < 4 {
        return Err(StoreError::CorruptData);
    }
    let b0 = *slice_index_get(bytes, 0);
    let b1 = *slice_index_get(bytes, 1);
    let b2 = *slice_index_get(bytes, 2);
    let b3 = *slice_index_get(bytes, 3);
    if !(b0 == 0x4d && b1 == 0x45 && b2 == 0x4d && b3 == 0x31) {
        proof {
            if bytes@.take(4) == magic() {
                assert(bytes@.take(4)[0] == 0x4d && bytes@.take(4)[1] == 0x45 && bytes@.take(
                    4,
                )[2] == 0x4d && bytes@.take(4)[3] == 0x31);
            }
        }
        return Err(StoreError::CorruptData);
    }
    proof {
        assert(bytes@.take(4) =~= magic());
    }
    let (dim64, p1) = match read_u64(bytes, 4) {
        Some(p) => p,
        None => {
            return Err(StoreError::CorruptData);
        },
    };
    if dim64 != dim as u64 {
        return Err(StoreError::CorruptData);
    }
    let (n64, p2) = match read_u64(bytes, p1) {
        Some(p) => p,
        None => {
            return Err(StoreError::CorruptData);
        },
    };
    let mut c = MemoryCollection::new(dim);
    proof {
        assert(c@.records =~= Seq::<MemoryView>::empty());
        assert(c@.rows =~= Seq::<Seq<u32>>::empty());
    }
    let mut pos = p2;
    let mut i: u64 = 0;
    while i < n64
        invariant
            c.wf(),
            c@.dim == dim,
            i <= n64,
            p2 <= pos <= bytes@.len(),
            n_bytes == bytes@.len(),
            take_records(bytes@.skip(p2 as int), dim as nat, i as nat) == Some(
                (c@.records, c@.rows, bytes@.skip(pos as int)),
            ),
            bytes@.len() >= 4,
            bytes@.take(4) == magic(),
            take_u64(bytes@.skip(4)) == Some((dim as u64, bytes@.skip(p1 as int))),
            take_u64(bytes@.skip(p1 as int)) == Some((n64, bytes@.skip(p2 as int))),
        decreases n64 - i,
    {
        match read_record(bytes, pos, dim) {
            None => {
                proof {
                    lemma_take_records_first_none(
                        bytes@.skip(pos as int),
                        dim as nat,
                        (n64 - i) as nat,
                    );
                    lemma_take_records_split(
                        bytes@.skip(p2 as int),
                        dim as nat,
                        i as nat,
                        (n64 - i) as nat,
                    );
                }
                return Err(StoreError::CorruptData);
            },
            Some((mem, row, p3)) => {
                let ghost pre = c@;
                let ghost mv = mem@;
                let ghost rowv = row@;
                let Memory { value, description } = mem;
                let ins = c.insert(value, description, row);
                proof {
                    assert(ins is Ok);
                    lemma_take_records_split(bytes@.skip(p2 as int), dim as nat, i as nat, 1);
                    assert(c@.records =~= pre.records + seq![mv]);
                    assert(c@.rows =~= pre.rows + seq![rowv]);
                }
                pos = p3;
                i = i + 1;
            },
        }
    }
    if pos != n_bytes {
        proof {
            assert(bytes@.skip(pos as int).len() > 0);
        }
        return Err(StoreError::CorruptData);
    }
    proof {
        assert(bytes@.skip(pos as int).len() == 0);
        assert(spec_decode(bytes@, dim as nat) == Some(
            CollectionView { dim: dim as nat, records: c@.records, rows: c@.rows },
        ));
        assert(CollectionView { dim: dim as nat, records: c@.records, rows: c@.rows } == c@);
    }
    Ok(c)
}

/// Serialize a collection to its exact byte form (`spec_encode`).
pub fn encode(c: &MemoryCollection) -> (out: Vec<u8>)
    requires
        c.wf(),
    ensures
        out@ == spec_encode(c@),
        bounded(c@),
{
    let n = c.len();
    let d = c.dim();
    let mut out: Vec<u8> = Vec::new();
    out.push(0x4d);
    out.push(0x45);
    out.push(0x4d);
    out.push(0x31);
    let mut dim_bytes = u64_to_le_bytes(d as u64);
    out.append(&mut dim_bytes);
    let mut count_bytes = u64_to_le_bytes(n as u64);
    out.append(&mut count_bytes);
    proof {
        assert(out@ =~= header(c@) + encode_records(c@.records.take(0), c@.rows.take(0)));
    }
    let mut i: usize = 0;
    while i < n
        invariant
            i <= n,
            n == c@.records.len(),
            d == c@.dim,
            c.wf(),
            out@ == header(c@) + encode_records(c@.records.take(i as int), c@.rows.take(i as int)),
            forall|jj: int|
                0 <= jj < i ==> encode_utf8((#[trigger] c@.records[jj]).value).len() <= u64::MAX
                    && encode_utf8(c@.records[jj].description).len() <= u64::MAX,
        decreases n - i,
    {
        let ghost rec = c@.records[i as int];
        let ghost rowv = c@.rows[i as int];
        let ghost out0 = out@;
        let m = c.memory_at(i);
        let mut vb = slice_to_vec(m.value.as_str().as_bytes());
        proof {
            assert(vb@ == encode_utf8(rec.value));
        }
        let vlen = vb.len();
        let mut vlb = u64_to_le_bytes(vlen as u64);
        out.append(&mut vlb);
        out.append(&mut vb);
        let mut db = slice_to_vec(m.description.as_str().as_bytes());
        proof {
            assert(db@ == encode_utf8(rec.description));
        }
        let dlen = db.len();
        let mut dlb = u64_to_le_bytes(dlen as u64);
        out.append(&mut dlb);
        out.append(&mut db);
        proof {
            assert(out@ =~= out0 + encode_str(rec.value) + encode_str(rec.description)
                + encode_row(rowv.take(0)));
        }
        let rows = c.embeddings();
        let row = &rows[i];
        proof {
            assert(rows@.map_values(|r2: Vec<u32>| r2@)[i as int] == row@);
            assert(row@ == rowv);
            assert(rowv.len() == d);
        }
        let mut j: usize = 0;
        while j < d
            invariant
                j <= d,
                d == c@.dim,
                row@ == rowv,
                rowv.len() == d,
                out@ == out0 + encode_str(rec.value) + encode_str(rec.description) + encode_row(
                    rowv.take(j as int),
                ),
            decreases d - j,
        {
            let ghost out1 = out@;
            let mut xb = u32_to_le_bytes(row[j]);
            out.append(&mut xb);
            proof {
                assert(rowv.take(j + 1) =~= rowv.take(j as int).push(rowv[j as int]));
                lemma_encode_row_push(rowv.take(j as int), rowv[j as int]);
                assert(out@ =~= out1 + spec_u32_to_le_bytes(rowv[j as int]));
                assert(out@ =~= out0 + encode_str(rec.value) + encode_str(rec.description)
                    + encode_row(rowv.take(j + 1)));
            }
            j += 1;
        }
        proof {
            assert(rowv.take(d as int) =~= rowv);
            assert(c@.records.take(i + 1) =~= c@.records.take(i as int).push(rec));
            assert(c@.rows.take(i + 1) =~= c@.rows.take(i as int).push(rowv));
            lemma_encode_records_push(c@.records.take(i as int), c@.rows.take(i as int), rec, rowv);
            assert(out@ =~= header(c@) + encode_records(
                c@.records.take(i + 1),
                c@.rows.take(i + 1),
            ));
        }
        i += 1;
    }
    proof {
        assert(c@.records.take(n as int) =~= c@.records);
        assert(c@.rows.take(n as int) =~= c@.rows);
    }
    out
}

} // verus!
