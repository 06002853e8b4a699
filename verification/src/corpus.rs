//! The corpus codec: a deterministic, length-prefixed, tagged binary
//! serialization of a row's value vector.
//!
//! A row is written as an 8-byte big-endian value count followed by the
//! values, each a tag byte and a payload.  Variable-width payloads carry
//! an 8-byte big-endian length.  Decoding is exact: a byte string is
//! accepted only if it is the encoding of precisely one value vector,
//! and decoding an encoding yields the vector that was written.

use vstd::prelude::*;

use crate::byteorder::{be_bytes, be_to_u64, copy_bytes, from_be, lemma_be_bytes_len,
    lemma_be_bytes_round_trip, lemma_from_be_bound, lemma_pow256_values, pow256, u64_to_be};
use crate::error::ExothermError;
use crate::rowid::RowId;
use crate::values_indices::{i32_sort_key, i64_sort_key, DbVal, DbValue};

verus! {

/// The mathematical values of a vector of stored values.
pub open spec fn row_view(vs: Seq<DbValue>) -> Seq<DbVal> {
    vs.map_values(|v: DbValue| v@)
}

/// Whether a value's variable-width payloads fit the 8-byte length
/// fields of the wire format, and its id — if it is one — is 16 bytes
/// wide.  True of every value a program can build.
pub open spec fn val_fits(v: DbVal) -> bool {
    match v {
        DbVal::Text(t) => t.len() < pow256(8),
        DbVal::Blob(t) => t.len() < pow256(8),
        DbVal::Vector(e) => e.len() < pow256(8),
        DbVal::Uuid(id) => id.len() == 16,
        _ => true,
    }
}

/// The encoding of the elements of a vector value, four bytes each.
pub open spec fn spec_enc_words(e: Seq<u32>) -> Seq<u8>
    decreases e.len(),
{
    if e.len() == 0 {
        Seq::empty()
    } else {
        be_bytes(e[0] as nat, 4) + spec_enc_words(e.drop_first())
    }
}

/// The encoding of one value: a tag byte, then the payload.
pub open spec fn spec_enc_value(v: DbVal) -> Seq<u8> {
    match v {
        DbVal::Bool(b) => seq![1u8, if b { 1u8 } else { 0u8 }],
        DbVal::Int32(x) => seq![2u8] + be_bytes(i32_sort_key(x), 4),
        DbVal::Int64(x) => seq![3u8] + be_bytes(i64_sort_key(x), 8),
        DbVal::Uint32(x) => seq![4u8] + be_bytes(x as nat, 4),
        DbVal::Uint64(x) => seq![5u8] + be_bytes(x as nat, 8),
        DbVal::Float(b) => seq![6u8] + be_bytes(b as nat, 4),
        DbVal::Double(b) => seq![7u8] + be_bytes(b as nat, 8),
        DbVal::Text(t) => seq![8u8] + be_bytes(t.len(), 8) + t,
        DbVal::Blob(t) => seq![9u8] + be_bytes(t.len(), 8) + t,
        DbVal::Vector(e) => seq![10u8] + be_bytes(e.len(), 8) + spec_enc_words(e),
        DbVal::Uuid(id) => seq![11u8] + id,
        DbVal::EnumOrdinal(x) => seq![12u8] + be_bytes(i32_sort_key(x), 4),
        DbVal::Absent => seq![13u8],
    }
}

/// The concatenated encodings of a vector of values.
pub open spec fn spec_enc_values(vs: Seq<DbVal>) -> Seq<u8>
    decreases vs.len(),
{
    if vs.len() == 0 {
        Seq::empty()
    } else {
        spec_enc_value(vs[0]) + spec_enc_values(vs.drop_first())
    }
}

/// The full encoding of a row: the value count, then the values.
pub open spec fn spec_encode_row(vs: Seq<DbVal>) -> Seq<u8> {
    be_bytes(vs.len(), 8) + spec_enc_values(vs)
}

pub proof fn lemma_enc_words_snoc(e: Seq<u32>, w: u32)
    ensures
        spec_enc_words(e.push(w)) == spec_enc_words(e) + be_bytes(w as nat, 4),
    decreases e.len(),
{
    let p = e.push(w);
    assert(p.len() == e.len() + 1);
    if e.len() == 0 {
        assert(p[0] == w);
        assert(p.drop_first() =~= Seq::<u32>::empty());
        assert(spec_enc_words(p) == be_bytes(p[0] as nat, 4) + spec_enc_words(p.drop_first()));
        assert(spec_enc_words(p.drop_first()) == Seq::<u8>::empty());
        assert(spec_enc_words(e) == Seq::<u8>::empty());
        assert(spec_enc_words(p) =~= spec_enc_words(e) + be_bytes(w as nat, 4));
    } else {
        assert(p[0] == e[0]);
        assert(p.drop_first() =~= e.drop_first().push(w));
        lemma_enc_words_snoc(e.drop_first(), w);
        assert(spec_enc_words(p) == be_bytes(p[0] as nat, 4) + spec_enc_words(p.drop_first()));
        assert(spec_enc_words(p) =~= spec_enc_words(e) + be_bytes(w as nat, 4));
    }
}

pub proof fn lemma_enc_values_snoc(vs: Seq<DbVal>, v: DbVal)
    ensures
        spec_enc_values(vs.push(v)) == spec_enc_values(vs) + spec_enc_value(v),
    decreases vs.len(),
{
    let p = vs.push(v);
    assert(p.len() == vs.len() + 1);
    if vs.len() == 0 {
        assert(p[0] == v);
        assert(p.drop_first() =~= Seq::<DbVal>::empty());
        assert(spec_enc_values(p) == spec_enc_value(p[0]) + spec_enc_values(p.drop_first()));
        assert(spec_enc_values(p.drop_first()) == Seq::<u8>::empty());
        assert(spec_enc_values(vs) == Seq::<u8>::empty());
        assert(spec_enc_values(p) =~= spec_enc_values(vs) + spec_enc_value(v));
    } else {
        assert(p[0] == vs[0]);
        assert(p.drop_first() =~= vs.drop_first().push(v));
        lemma_enc_values_snoc(vs.drop_first(), v);
        assert(spec_enc_values(p) == spec_enc_value(p[0]) + spec_enc_values(p.drop_first()));
        assert(spec_enc_values(p) =~= spec_enc_values(vs) + spec_enc_value(v));
    }
}

/// Reads back the elements of a vector value: `m` words of four bytes
/// each, from the front of `b`.  Yields the words and the bytes
/// consumed, or nothing if `b` is too short.
pub open spec fn spec_dec_words(b: Seq<u8>, m: nat) -> Option<(Seq<u32>, int)>
    decreases m,
{
    if m == 0 {
        Some((Seq::empty(), 0))
    } else if b.len() < 4 {
        None
    } else {
        match spec_dec_words(b.skip(4), (m - 1) as nat) {
            Option::None => None,
            Option::Some((ws, c)) => Some(
                (seq![from_be(b.subrange(0, 4)) as u32] + ws, 4 + c),
            ),
        }
    }
}

/// Reads back one value from the front of `b`: the decoded value and
/// the bytes consumed, or nothing if `b` does not open with a valid
/// encoding.
pub open spec fn spec_dec_value(b: Seq<u8>) -> Option<(DbVal, int)> {
    if b.len() < 1 {
        None
    } else {
        let tag = b[0];
        if tag == 1 {
            if b.len() < 2 {
                None
            } else if b[1] == 0 {
                Some((DbVal::Bool(false), 2))
            } else if b[1] == 1 {
                Some((DbVal::Bool(true), 2))
            } else {
                None
            }
        } else if tag == 2 {
            if b.len() < 5 {
                None
            } else {
                Some((DbVal::Int32((from_be(b.subrange(1, 5)) - 0x8000_0000) as i32), 5))
            }
        } else if tag == 3 {
            if b.len() < 9 {
                None
            } else {
                Some(
                    (
                        DbVal::Int64(
                            (from_be(b.subrange(1, 9)) - 0x8000_0000_0000_0000) as i64,
                        ),
                        9,
                    ),
                )
            }
        } else if tag == 4 {
            if b.len() < 5 {
                None
            } else {
                Some((DbVal::Uint32(from_be(b.subrange(1, 5)) as u32), 5))
            }
        } else if tag == 5 {
            if b.len() < 9 {
                None
            } else {
                Some((DbVal::Uint64(from_be(b.subrange(1, 9)) as u64), 9))
            }
        } else if tag == 6 {
            if b.len() < 5 {
                None
            } else {
                Some((DbVal::Float(from_be(b.subrange(1, 5)) as u32), 5))
            }
        } else if tag == 7 {
            if b.len() < 9 {
                None
            } else {
                Some((DbVal::Double(from_be(b.subrange(1, 9)) as u64), 9))
            }
        } else if tag == 8 {
            if b.len() < 9 {
                None
            } else {
                let n = from_be(b.subrange(1, 9));
                if b.len() < 9 + n as int {
                    None
                } else {
                    Some((DbVal::Text(b.subrange(9, 9 + n as int)), 9 + n as int))
                }
            }
        } else if tag == 9 {
            if b.len() < 9 {
                None
            } else {
                let n = from_be(b.subrange(1, 9));
                if b.len() < 9 + n as int {
                    None
                } else {
                    Some((DbVal::Blob(b.subrange(9, 9 + n as int)), 9 + n as int))
                }
            }
        } else if tag == 10 {
            if b.len() < 9 {
                None
            } else {
                let m = from_be(b.subrange(1, 9));
                match spec_dec_words(b.skip(9), m) {
                    Option::None => None,
                    Option::Some((ws, c)) => Some((DbVal::Vector(ws), 9 + c)),
                }
            }
        } else if tag == 11 {
            if b.len() < 17 {
                None
            } else {
                Some((DbVal::Uuid(b.subrange(1, 17)), 17))
            }
        } else if tag == 12 {
            if b.len() < 5 {
                None
            } else {
                Some((DbVal::EnumOrdinal((from_be(b.subrange(1, 5)) - 0x8000_0000) as i32), 5))
            }
        } else if tag == 13 {
            Some((DbVal::Absent, 1))
        } else {
            None
        }
    }
}

/// Reads back `n` values from the front of `b`.
pub open spec fn spec_dec_values(b: Seq<u8>, n: nat) -> Option<(Seq<DbVal>, int)>
    decreases n,
{
    if n == 0 {
        Some((Seq::empty(), 0))
    } else {
        match spec_dec_value(b) {
            Option::None => None,
            Option::Some((v, c)) => match spec_dec_values(b.skip(c), (n - 1) as nat) {
                Option::None => None,
                Option::Some((vs, c2)) => Some((seq![v] + vs, c + c2)),
            },
        }
    }
}

/// The value vector held in a corpus byte string, if the string is
/// exactly one valid row encoding.
pub open spec fn spec_decode_row(b: Seq<u8>) -> Option<Seq<DbVal>> {
    if b.len() < 8 {
        None
    } else {
        let n = from_be(b.subrange(0, 8));
        match spec_dec_values(b.skip(8), n) {
            Option::None => None,
            Option::Some((vs, c)) => if c == b.len() - 8 {
                Some(vs)
            } else {
                None
            },
        }
    }
}

pub proof fn lemma_dec_enc_words(e: Seq<u32>, rest: Seq<u8>)
    ensures
        spec_dec_words(spec_enc_words(e) + rest, e.len()) == Some(
            (e, spec_enc_words(e).len() as int),
        ),
    decreases e.len(),
{
    lemma_pow256_values();
    if e.len() == 0 {
        assert(spec_enc_words(e) + rest =~= rest);
        assert(e =~= Seq::<u32>::empty());
        assert(spec_enc_words(e).len() == 0);
    } else {
        let w = e[0];
        let enc0 = be_bytes(w as nat, 4);
        lemma_be_bytes_len(w as nat, 4);
        let tail = spec_enc_words(e.drop_first());
        let s = spec_enc_words(e) + rest;
        assert(spec_enc_words(e) == enc0 + tail);
        assert(s =~= enc0 + (tail + rest));
        assert(s.subrange(0, 4) =~= enc0);
        lemma_be_bytes_round_trip(w as nat, 4);
        assert(from_be(s.subrange(0, 4)) as u32 == w);
        assert(s.skip(4) =~= tail + rest);
        lemma_dec_enc_words(e.drop_first(), rest);
        assert(seq![w] + e.drop_first() =~= e);
    }
}

/// `spec_dec_words` fails exactly when the input is too short.
pub proof fn lemma_dec_words_short(b: Seq<u8>, m: nat)
    requires
        b.len() < 4 * m,
    ensures
        spec_dec_words(b, m) is None,
    decreases m,
{
    if m > 0 && b.len() >= 4 {
        lemma_dec_words_short(b.skip(4), (m - 1) as nat);
    }
}

pub proof fn lemma_dec_enc_value(v: DbVal, rest: Seq<u8>)
    requires
        val_fits(v),
    ensures
        spec_dec_value(spec_enc_value(v) + rest) == Some((v, spec_enc_value(v).len() as int)),
{
    lemma_pow256_values();
    let enc = spec_enc_value(v);
    let s = enc + rest;
    match v {
        DbVal::Bool(b) => {
            assert(s[0] == 1);
            assert(s[1] == (if b { 1u8 } else { 0u8 }));
            assert(enc.len() == 2);
        },
        DbVal::Int32(x) => {
            lemma_be_bytes_len(i32_sort_key(x), 4);
            assert(s[0] == 2);
            assert(s.subrange(1, 5) =~= be_bytes(i32_sort_key(x), 4));
            lemma_be_bytes_round_trip(i32_sort_key(x), 4);
            assert(enc.len() == 5);
        },
        DbVal::Int64(x) => {
            lemma_be_bytes_len(i64_sort_key(x), 8);
            assert(s[0] == 3);
            assert(s.subrange(1, 9) =~= be_bytes(i64_sort_key(x), 8));
            lemma_be_bytes_round_trip(i64_sort_key(x), 8);
            assert(enc.len() == 9);
        },
        DbVal::Uint32(x) => {
            lemma_be_bytes_len(x as nat, 4);
            assert(s[0] == 4);
            assert(s.subrange(1, 5) =~= be_bytes(x as nat, 4));
            lemma_be_bytes_round_trip(x as nat, 4);
            assert(enc.len() == 5);
        },
        DbVal::Uint64(x) => {
            lemma_be_bytes_len(x as nat, 8);
            assert(s[0] == 5);
            assert(s.subrange(1, 9) =~= be_bytes(x as nat, 8));
            lemma_be_bytes_round_trip(x as nat, 8);
            assert(enc.len() == 9);
        },
        DbVal::Float(b) => {
            lemma_be_bytes_len(b as nat, 4);
            assert(s[0] == 6);
            assert(s.subrange(1, 5) =~= be_bytes(b as nat, 4));
            lemma_be_bytes_round_trip(b as nat, 4);
            assert(enc.len() == 5);
        },
        DbVal::Double(b) => {
            lemma_be_bytes_len(b as nat, 8);
            assert(s[0] == 7);
            assert(s.subrange(1, 9) =~= be_bytes(b as nat, 8));
            lemma_be_bytes_round_trip(b as nat, 8);
            assert(enc.len() == 9);
        },
        DbVal::Text(t) => {
            lemma_be_bytes_len(t.len(), 8);
            assert(s[0] == 8);
            assert(s.subrange(1, 9) =~= be_bytes(t.len(), 8));
            lemma_be_bytes_round_trip(t.len(), 8);
            assert(s.len() >= 9 + t.len());
            assert(s.subrange(9, 9 + t.len() as int) =~= t);
            assert(enc.len() == 9 + t.len());
        },
        DbVal::Blob(t) => {
            lemma_be_bytes_len(t.len(), 8);
            assert(s[0] == 9);
            assert(s.subrange(1, 9) =~= be_bytes(t.len(), 8));
            lemma_be_bytes_round_trip(t.len(), 8);
            assert(s.len() >= 9 + t.len());
            assert(s.subrange(9, 9 + t.len() as int) =~= t);
            assert(enc.len() == 9 + t.len());
        },
        DbVal::Vector(e) => {
            lemma_be_bytes_len(e.len(), 8);
            assert(s[0] == 10);
            assert(s.subrange(1, 9) =~= be_bytes(e.len(), 8));
            lemma_be_bytes_round_trip(e.len(), 8);
            assert(s.skip(9) =~= spec_enc_words(e) + rest);
            lemma_dec_enc_words(e, rest);
            assert(enc.len() == 9 + spec_enc_words(e).len());
        },
        DbVal::Uuid(id) => {
            assert(s[0] == 11);
            assert(s.len() >= 17);
            assert(s.subrange(1, 17) =~= id);
            assert(enc.len() == 17);
        },
        DbVal::EnumOrdinal(x) => {
            lemma_be_bytes_len(i32_sort_key(x), 4);
            assert(s[0] == 12);
            assert(s.subrange(1, 5) =~= be_bytes(i32_sort_key(x), 4));
            lemma_be_bytes_round_trip(i32_sort_key(x), 4);
            assert(enc.len() == 5);
        },
        DbVal::Absent => {
            assert(s[0] == 13);
            assert(enc.len() == 1);
        },
    }
}

pub proof fn lemma_dec_enc_values(vs: Seq<DbVal>, rest: Seq<u8>)
    requires
        forall|i: int| 0 <= i < vs.len() ==> val_fits(#[trigger] vs[i]),
    ensures
        spec_dec_values(spec_enc_values(vs) + rest, vs.len()) == Some(
            (vs, spec_enc_values(vs).len() as int),
        ),
    decreases vs.len(),
{
    if vs.len() == 0 {
        assert(vs =~= Seq::<DbVal>::empty());
        assert(spec_enc_values(vs).len() == 0);
    } else {
        let enc0 = spec_enc_value(vs[0]);
        let tail = spec_enc_values(vs.drop_first());
        let s = spec_enc_values(vs) + rest;
        assert(spec_enc_values(vs) == enc0 + tail);
        assert(s =~= enc0 + (tail + rest));
        lemma_dec_enc_value(vs[0], tail + rest);
        assert(spec_dec_value(s) == Some((vs[0], enc0.len() as int)));
        assert(s.skip(enc0.len() as int) =~= tail + rest);
        lemma_dec_enc_values(vs.drop_first(), rest);
        assert(seq![vs[0]] + vs.drop_first() =~= vs);
    }
}

/// Round trip: decoding an encoded row yields exactly the row that was
/// written.
pub proof fn lemma_decode_encode_row(vs: Seq<DbVal>)
    requires
        vs.len() < pow256(8),
        forall|i: int| 0 <= i < vs.len() ==> val_fits(#[trigger] vs[i]),
    ensures
        spec_decode_row(spec_encode_row(vs)) == Some(vs),
{
    let b = spec_encode_row(vs);
    lemma_be_bytes_len(vs.len(), 8);
    assert(b.subrange(0, 8) =~= be_bytes(vs.len(), 8));
    lemma_be_bytes_round_trip(vs.len(), 8);
    assert(b.skip(8) =~= spec_enc_values(vs) + Seq::<u8>::empty());
    lemma_dec_enc_values(vs, Seq::empty());
    assert((spec_enc_values(vs) + Seq::<u8>::empty()).len() == spec_enc_values(vs).len());
}

/// Appends the encoding of one value to `out`.
pub fn encode_value(v: &DbValue, out: &mut Vec<u8>)
    ensures
        final(out)@ == old(out)@ + spec_enc_value(v@),
{
    match v {
        DbValue::Bool(b) => {
            out.push(1);
            if *b {
                out.push(1);
            } else {
                out.push(0);
            }
            proof {
                assert(out@ =~= old(out)@ + spec_enc_value(v@));
            }
        },
        DbValue::Int32(x) => {
            out.push(2);
            let k = (*x as i64) + 0x8000_0000i64;
            let mut bs = u64_to_be(k as u64, 4);
            out.append(&mut bs);
            proof {
                assert(out@ =~= old(out)@ + spec_enc_value(v@));
            }
        },
        DbValue::Int64(x) => {
            out.push(3);
            let k = (*x as i128) + 0x8000_0000_0000_0000i128;
            let mut bs = u64_to_be(k as u64, 8);
            out.append(&mut bs);
            proof {
                assert(out@ =~= old(out)@ + spec_enc_value(v@));
            }
        },
        DbValue::Uint32(x) => {
            out.push(4);
            let mut bs = u64_to_be(*x as u64, 4);
            out.append(&mut bs);
            proof {
                assert(out@ =~= old(out)@ + spec_enc_value(v@));
            }
        },
        DbValue::Uint64(x) => {
            out.push(5);
            let mut bs = u64_to_be(*x, 8);
            out.append(&mut bs);
            proof {
                assert(out@ =~= old(out)@ + spec_enc_value(v@));
            }
        },
        DbValue::Float(b) => {
            out.push(6);
            let mut bs = u64_to_be(*b as u64, 4);
            out.append(&mut bs);
            proof {
                assert(out@ =~= old(out)@ + spec_enc_value(v@));
            }
        },
        DbValue::Double(b) => {
            out.push(7);
            let mut bs = u64_to_be(*b, 8);
            out.append(&mut bs);
            proof {
                assert(out@ =~= old(out)@ + spec_enc_value(v@));
            }
        },
        DbValue::Text(t) => {
            out.push(8);
            let mut lb = u64_to_be(t.len() as u64, 8);
            out.append(&mut lb);
            let mut tb = copy_bytes(t);
            out.append(&mut tb);
            proof {
                assert(out@ =~= old(out)@ + spec_enc_value(v@));
            }
        },
        DbValue::Blob(t) => {
            out.push(9);
            let mut lb = u64_to_be(t.len() as u64, 8);
            out.append(&mut lb);
            let mut tb = copy_bytes(t);
            out.append(&mut tb);
            proof {
                assert(out@ =~= old(out)@ + spec_enc_value(v@));
            }
        },
        DbValue::Vector(e) => {
            out.push(10);
            let mut lb = u64_to_be(e.len() as u64, 8);
            out.append(&mut lb);
            let ghost mid = out@;
            let mut j: usize = 0;
            while j < e.len()
                invariant
                    j <= e@.len(),
                    out@ == mid + spec_enc_words(e@.take(j as int)),
                decreases e@.len() - j,
            {
                let mut wb = u64_to_be(e[j] as u64, 4);
                out.append(&mut wb);
                proof {
                    assert(e@.take(j + 1) =~= e@.take(j as int).push(e@[j as int]));
                    lemma_enc_words_snoc(e@.take(j as int), e@[j as int]);
                    assert(out@ =~= mid + spec_enc_words(e@.take(j + 1)));
                }
                j += 1;
            }
            proof {
                assert(e@.take(e@.len() as int) =~= e@);
                assert(out@ =~= old(out)@ + spec_enc_value(v@));
            }
        },
        DbValue::Uuid(id) => {
            out.push(11);
            id.append_to(out);
            proof {
                assert(out@ =~= old(out)@ + spec_enc_value(v@));
            }
        },
        DbValue::EnumOrdinal(x) => {
            out.push(12);
            let k = (*x as i64) + 0x8000_0000i64;
            let mut bs = u64_to_be(k as u64, 4);
            out.append(&mut bs);
            proof {
                assert(out@ =~= old(out)@ + spec_enc_value(v@));
            }
        },
        DbValue::Absent => {
            out.push(13);
            proof {
                assert(out@ =~= old(out)@ + spec_enc_value(v@));
            }
        },
    }
}

/// Serializes a value vector as corpus bytes.
pub fn encode_row(values: &Vec<DbValue>) -> (r: Vec<u8>)
    ensures
        r@ == spec_encode_row(row_view(values@)),
{
    let mut out = u64_to_be(values.len() as u64, 8);
    let ghost head = out@;
    let mut i: usize = 0;
    while i < values.len()
        invariant
            i <= values@.len(),
            head == be_bytes(values@.len() as nat, 8),
            out@ == head + spec_enc_values(row_view(values@.take(i as int))),
        decreases values@.len() - i,
    {
        encode_value(&values[i], &mut out);
        proof {
            assert(values@.take(i + 1) =~= values@.take(i as int).push(values@[i as int]));
            assert(row_view(values@.take(i + 1)) =~= row_view(values@.take(i as int)).push(
                values@[i as int]@,
            ));
            lemma_enc_values_snoc(row_view(values@.take(i as int)), values@[i as int]@);
            assert(out@ =~= head + spec_enc_values(row_view(values@.take(i + 1))));
        }
        i += 1;
    }
    proof {
        assert(values@.take(values@.len() as int) =~= values@);
        assert(row_view(values@).len() == values@.len());
        assert(out@ =~= spec_encode_row(row_view(values@)));
    }
    out
}

/// Complete reading of a word run: with enough bytes at hand, exactly
/// `4 * m` bytes are consumed and the words are the four-byte groups.
pub proof fn lemma_dec_words_total(b: Seq<u8>, m: nat)
    requires
        b.len() >= 4 * m,
    ensures
        spec_dec_words(b, m) == Some(
            (Seq::new(m, |i: int| from_be(b.subrange(4 * i, 4 * i + 4)) as u32), 4 * m as int),
        ),
    decreases m,
{
    let ws = Seq::new(m, |i: int| from_be(b.subrange(4 * i, 4 * i + 4)) as u32);
    if m == 0 {
        assert(ws =~= Seq::<u32>::empty());
    } else {
        lemma_dec_words_total(b.skip(4), (m - 1) as nat);
        let tail = Seq::new(
            (m - 1) as nat,
            |i: int| from_be(b.skip(4).subrange(4 * i, 4 * i + 4)) as u32,
        );
        assert forall|i: int| 0 <= i < m implies ws[i] == (seq![
            from_be(b.subrange(0, 4)) as u32,
        ] + tail)[i] by {
            if i > 0 {
                assert(b.skip(4).subrange(4 * (i - 1), 4 * (i - 1) + 4) =~= b.subrange(
                    4 * i,
                    4 * i + 4,
                ));
            }
        }
        assert(ws =~= seq![from_be(b.subrange(0, 4)) as u32] + tail);
    }
}

/// Reads one value out of `bytes`, starting at `pos`.  Succeeds exactly
/// when the mathematical reader does, with the same value and the same
/// new position.
pub fn decode_value(bytes: &Vec<u8>, pos: usize) -> (r: Result<(DbValue, usize), ExothermError>)
    requires
        pos <= bytes@.len(),
    ensures
        match r {
            Ok((v, np)) => pos < np <= bytes@.len() && spec_dec_value(bytes@.skip(pos as int))
                == Some((v@, np - pos)),
            Err(e) => e is Serialization && spec_dec_value(bytes@.skip(pos as int)) is None,
        },
{
    let ghost s = bytes@.skip(pos as int);
    let len = bytes.len();
    proof {
        assert(s.len() == len - pos);
        lemma_pow256_values();
    }
    if len - pos < 1 {
        return Err(ExothermError::Serialization);
    }
    let tag = bytes[pos];
    proof {
        assert(s[0] == tag);
    }
    if tag == 1 {
        if len - pos < 2 {
            return Err(ExothermError::Serialization);
        }
        let b1 = bytes[pos + 1];
        proof {
            assert(s[1] == b1);
        }
        if b1 == 0 {
            Ok((DbValue::Bool(false), pos + 2))
        } else if b1 == 1 {
            Ok((DbValue::Bool(true), pos + 2))
        } else {
            Err(ExothermError::Serialization)
        }
    } else if tag == 2 || tag == 4 || tag == 6 || tag == 12 {
        if len - pos < 5 {
            return Err(ExothermError::Serialization);
        }
        let k = be_to_u64(bytes, pos + 1, 4);
        proof {
            assert(s.subrange(1, 5) =~= bytes@.subrange(pos + 1, pos + 5));
            lemma_from_be_bound(s.subrange(1, 5));
        }
        if tag == 2 {
            let x = ((k as i64) - 0x8000_0000i64) as i32;
            Ok((DbValue::Int32(x), pos + 5))
        } else if tag == 4 {
            Ok((DbValue::Uint32(k as u32), pos + 5))
        } else if tag == 6 {
            Ok((DbValue::Float(k as u32), pos + 5))
        } else {
            let x = ((k as i64) - 0x8000_0000i64) as i32;
            Ok((DbValue::EnumOrdinal(x), pos + 5))
        }
    } else if tag == 3 || tag == 5 || tag == 7 {
        if len - pos < 9 {
            return Err(ExothermError::Serialization);
        }
        let k = be_to_u64(bytes, pos + 1, 8);
        proof {
            assert(s.subrange(1, 9) =~= bytes@.subrange(pos + 1, pos + 9));
            lemma_from_be_bound(s.subrange(1, 9));
        }
        if tag == 3 {
            let x = ((k as i128) - 0x8000_0000_0000_0000i128) as i64;
            Ok((DbValue::Int64(x), pos + 9))
        } else if tag == 5 {
            Ok((DbValue::Uint64(k), pos + 9))
        } else {
            Ok((DbValue::Double(k), pos + 9))
        }
    } else if tag == 8 || tag == 9 {
        if len - pos < 9 {
            return Err(ExothermError::Serialization);
        }
        let n64 = be_to_u64(bytes, pos + 1, 8);
        let rem = len - pos - 9;
        proof {
            assert(s.subrange(1, 9) =~= bytes@.subrange(pos + 1, pos + 9));
        }
        if n64 > rem as u64 {
            return Err(ExothermError::Serialization);
        }
        let n = n64 as usize;
        let payload = copy_bytes_range(bytes, pos + 9, pos + 9 + n);
        proof {
            assert(payload@ =~= s.subrange(9, 9 + n64 as int));
        }
        if tag == 8 {
            Ok((DbValue::Text(payload), pos + 9 + n))
        } else {
            Ok((DbValue::Blob(payload), pos + 9 + n))
        }
    } else if tag == 10 {
        if len - pos < 9 {
            return Err(ExothermError::Serialization);
        }
        let m64 = be_to_u64(bytes, pos + 1, 8);
        let rem = len - pos - 9;
        let ghost s9 = bytes@.skip(pos + 9);
        proof {
            assert(s.subrange(1, 9) =~= bytes@.subrange(pos + 1, pos + 9));
            assert(s.skip(9) =~= s9);
            assert(s9.len() == rem);
            vstd::arithmetic::div_mod::lemma_fundamental_div_mod(rem as int, 4);
            vstd::arithmetic::div_mod::lemma_mod_bound(rem as int, 4);
        }
        if m64 > (rem as u64) / 4 {
            proof {
                lemma_dec_words_short(s9, m64 as nat);
            }
            return Err(ExothermError::Serialization);
        }
        let m = m64 as usize;
        proof {
            lemma_dec_words_total(s9, m as nat);
        }
        let ghost words = Seq::new(m as nat, |i: int| from_be(s9.subrange(4 * i, 4 * i + 4)) as u32);
        let mut ws: Vec<u32> = Vec::new();
        let mut j: usize = 0;
        while j < m
            invariant
                j <= m,
                4 * m <= rem,
                rem == len - pos - 9,
                pos + 9 <= len,
                len == bytes@.len(),
                s9 == bytes@.skip(pos + 9),
                s9.len() == rem,
                words == Seq::new(
                    m as nat,
                    |i: int| from_be(s9.subrange(4 * i, 4 * i + 4)) as u32,
                ),
                ws@ =~= words.take(j as int),
            decreases m - j,
        {
            let w = be_to_u64(bytes, pos + 9 + 4 * j, 4);
            proof {
                assert(s9.subrange(4 * j, 4 * j + 4) =~= bytes@.subrange(
                    pos + 9 + 4 * j,
                    pos + 9 + 4 * j + 4,
                ));
                lemma_from_be_bound(s9.subrange(4 * j, 4 * j + 4));
                assert(words[j as int] == w as u32);
                assert(words.take(j + 1) =~= words.take(j as int).push(words[j as int]));
            }
            ws.push(w as u32);
            j += 1;
        }
        proof {
            assert(ws@ =~= words);
        }
        Ok((DbValue::Vector(ws), pos + 9 + 4 * m))
    } else if tag == 11 {
        if len - pos < 17 {
            return Err(ExothermError::Serialization);
        }
        let idb = copy_bytes_range(bytes, pos + 1, pos + 17);
        proof {
            assert(idb@ =~= s.subrange(1, 17));
        }
        let id = RowId::from_bytes(idb);
        Ok((DbValue::Uuid(id), pos + 17))
    } else if tag == 12 {
        // handled above together with the other four-byte payloads
        Err(ExothermError::Serialization)
    } else if tag == 13 {
        Ok((DbValue::Absent, pos + 1))
    } else {
        Err(ExothermError::Serialization)
    }
}

/// Copies the bytes of `v` between `from` and `to`.
fn copy_bytes_range(v: &Vec<u8>, from: usize, to: usize) -> (r: Vec<u8>)
    requires
        from <= to <= v@.len(),
    ensures
        r@ == v@.subrange(from as int, to as int),
{
    crate::byteorder::copy_range(v, from, to)
}

/// Deserializes corpus bytes back into a value vector.  Succeeds
/// exactly when the bytes are one valid row encoding; the values read
/// are the values the mathematical reader gives.
pub fn decode_row(bytes: &Vec<u8>) -> (r: Result<Vec<DbValue>, ExothermError>)
    ensures
        match r {
            Ok(vs) => spec_decode_row(bytes@) == Some(row_view(vs@)),
            Err(e) => e is Serialization && spec_decode_row(bytes@) is None,
        },
{
    let len = bytes.len();
    if len < 8 {
        return Err(ExothermError::Serialization);
    }
    let n = be_to_u64(bytes, 0, 8);
    proof {
        assert(bytes@.subrange(0int, 8int) =~= bytes@.subrange(0int, 0int + 8));
    }
    let mut acc: Vec<DbValue> = Vec::new();
    let mut pos: usize = 8;
    let mut k: u64 = 0;
    proof {
        assert(row_view(acc@) =~= Seq::<DbVal>::empty());
        assert(bytes@.skip(8int) == bytes@.skip(pos as int));
    }
    while k < n
        invariant
            8 <= pos <= len,
            len == bytes@.len(),
            k <= n,
            n as nat == from_be(bytes@.subrange(0, 8)),
            acc@.len() == k as nat,
            ({
                match spec_dec_values(bytes@.skip(pos as int), (n - k) as nat) {
                    Option::None => spec_dec_values(bytes@.skip(8), n as nat) is None,
                    Option::Some((vs, c)) => spec_dec_values(bytes@.skip(8), n as nat) == Some(
                        (row_view(acc@) + vs, pos - 8 + c),
                    ),
                }
            }),
        decreases n - k,
    {
        match decode_value(bytes, pos) {
            Err(e) => {
                proof {
                    assert(spec_dec_values(bytes@.skip(pos as int), (n - k) as nat) is None);
                }
                return Err(e);
            },
            Ok((v, np)) => {
                proof {
                    let suffix = bytes@.skip(pos as int);
                    assert(spec_dec_value(suffix) == Some((v@, np - pos)));
                    assert(suffix.skip(np - pos) =~= bytes@.skip(np as int));
                    assert(row_view(acc@.push(v)) =~= row_view(acc@).push(v@));
                    let m = (n - k) as nat;
                    assert(m > 0);
                    match spec_dec_values(bytes@.skip(np as int), (m - 1) as nat) {
                        Option::None => {
                            assert(spec_dec_values(suffix, m) is None);
                        },
                        Option::Some((vs2, c2)) => {
                            assert(spec_dec_values(suffix, m) == Some(
                                (seq![v@] + vs2, (np - pos) + c2),
                            ));
                            assert(row_view(acc@) + (seq![v@] + vs2) =~= row_view(acc@.push(v))
                                + vs2);
                        },
                    }
                }
                acc.push(v);
                pos = np;
                k = k + 1;
            },
        }
    }
    proof {
        assert(spec_dec_values(bytes@.skip(pos as int), 0) == Some((Seq::<DbVal>::empty(), 0int)));
        assert(row_view(acc@) + Seq::<DbVal>::empty() =~= row_view(acc@));
        assert(spec_dec_values(bytes@.skip(8), n as nat) == Some((row_view(acc@), pos - 8)));
    }
    if pos == len {
        Ok(acc)
    } else {
        Err(ExothermError::Serialization)
    }
}

} // verus!
