//! Typed values, their indexable subset, and the order-preserving byte
//! encoding used inside index keys.
//!
//! Floating-point fields are carried as their IEEE 754 bit patterns
//! (`u32` / `u64`); the sort keys below give those patterns the standard
//! total order (negative numbers first, NaN patterns at the ends).  Text
//! is carried as its UTF-8 bytes.
//!
//! Each executable value type has a mathematical view (`DbVal`,
//! `IdxVal`); every contract in the crate speaks over the views.

use vstd::prelude::*;

use crate::byteorder::{be_bytes, lex_less, lemma_be_bytes_order, lemma_lex_irreflexive,
    lemma_lex_trichotomy, repeat_byte, u64_to_be};
use crate::rowid::RowId;

verus! {

/// A value stored in a row's corpus, tagged by its logical kind.
///
/// `Absent` is both "no value" and the pad element for unused field
/// numbers.
#[derive(Debug, Clone, PartialEq, Eq)]
pub enum DbValue {
    Bool(bool),
    Int32(i32),
    Int64(i64),
    Uint32(u32),
    Uint64(u64),
    Float(u32),
    Double(u64),
    Text(Vec<u8>),
    Blob(Vec<u8>),
    Vector(Vec<u32>),
    Uuid(RowId),
    EnumOrdinal(i32),
    Absent,
}

/// The mathematical value of a `DbValue`.
pub enum DbVal {
    Bool(bool),
    Int32(i32),
    Int64(i64),
    Uint32(u32),
    Uint64(u64),
    Float(u32),
    Double(u64),
    Text(Seq<u8>),
    Blob(Seq<u8>),
    Vector(Seq<u32>),
    Uuid(Seq<u8>),
    EnumOrdinal(i32),
    Absent,
}

impl View for DbValue {
    type V = DbVal;

    open spec fn view(&self) -> DbVal {
        match self {
            DbValue::Bool(b) => DbVal::Bool(*b),
            DbValue::Int32(x) => DbVal::Int32(*x),
            DbValue::Int64(x) => DbVal::Int64(*x),
            DbValue::Uint32(x) => DbVal::Uint32(*x),
            DbValue::Uint64(x) => DbVal::Uint64(*x),
            DbValue::Float(b) => DbVal::Float(*b),
            DbValue::Double(b) => DbVal::Double(*b),
            DbValue::Text(t) => DbVal::Text(t@),
            DbValue::Blob(t) => DbVal::Blob(t@),
            DbValue::Vector(e) => DbVal::Vector(e@),
            DbValue::Uuid(id) => DbVal::Uuid(id@),
            DbValue::EnumOrdinal(x) => DbVal::EnumOrdinal(*x),
            DbValue::Absent => DbVal::Absent,
        }
    }
}

/// The subset of `DbValue` kinds that support an order-preserving byte
/// encoding.  Blobs, vectors and enum ordinals are not indexable.
#[derive(Debug, Clone, PartialEq, Eq)]
pub enum IndexableValue {
    Bool(bool),
    Int32(i32),
    Int64(i64),
    Uint32(u32),
    Uint64(u64),
    Float(u32),
    Double(u64),
    Text(Vec<u8>),
    Uuid(RowId),
    Absent,
}

/// The mathematical value of an `IndexableValue`.
pub enum IdxVal {
    Bool(bool),
    Int32(i32),
    Int64(i64),
    Uint32(u32),
    Uint64(u64),
    Float(u32),
    Double(u64),
    Text(Seq<u8>),
    Uuid(Seq<u8>),
    Absent,
}

impl View for IndexableValue {
    type V = IdxVal;

    open spec fn view(&self) -> IdxVal {
        match self {
            IndexableValue::Bool(b) => IdxVal::Bool(*b),
            IndexableValue::Int32(x) => IdxVal::Int32(*x),
            IndexableValue::Int64(x) => IdxVal::Int64(*x),
            IndexableValue::Uint32(x) => IdxVal::Uint32(*x),
            IndexableValue::Uint64(x) => IdxVal::Uint64(*x),
            IndexableValue::Float(b) => IdxVal::Float(*b),
            IndexableValue::Double(b) => IdxVal::Double(*b),
            IndexableValue::Text(t) => IdxVal::Text(t@),
            IndexableValue::Uuid(id) => IdxVal::Uuid(id@),
            IndexableValue::Absent => IdxVal::Absent,
        }
    }
}

/// The indexable content of a stored value: the identity on indexable
/// kinds, `Absent` for the kinds that carry no order.
pub open spec fn to_idx_val(v: DbVal) -> IdxVal {
    match v {
        DbVal::Bool(b) => IdxVal::Bool(b),
        DbVal::Int32(x) => IdxVal::Int32(x),
        DbVal::Int64(x) => IdxVal::Int64(x),
        DbVal::Uint32(x) => IdxVal::Uint32(x),
        DbVal::Uint64(x) => IdxVal::Uint64(x),
        DbVal::Float(b) => IdxVal::Float(b),
        DbVal::Double(b) => IdxVal::Double(b),
        DbVal::Text(t) => IdxVal::Text(t),
        DbVal::Uuid(id) => IdxVal::Uuid(id),
        DbVal::Blob(_) => IdxVal::Absent,
        DbVal::Vector(_) => IdxVal::Absent,
        DbVal::EnumOrdinal(_) => IdxVal::Absent,
        DbVal::Absent => IdxVal::Absent,
    }
}

/// The sort key of a signed 32-bit value: shifting by `2^31` maps the
/// minimum to zero and the maximum to `2^32 - 1`, so unsigned byte order
/// equals signed numeric order.
pub open spec fn i32_sort_key(x: i32) -> nat {
    (x + 0x8000_0000) as nat
}

/// The sort key of a signed 64-bit value.
pub open spec fn i64_sort_key(x: i64) -> nat {
    (x + 0x8000_0000_0000_0000) as nat
}

/// The sort key of an IEEE 754 single-precision bit pattern: patterns
/// with the sign bit set (negative numbers) have all bits inverted,
/// others only the sign bit, yielding the standard total order on floats
/// with the NaN patterns at the ends.
pub open spec fn f32_sort_key(bits: u32) -> nat {
    if bits >= 0x8000_0000 {
        (0xffff_ffff - bits) as nat
    } else {
        (bits + 0x8000_0000) as nat
    }
}

/// The sort key of an IEEE 754 double-precision bit pattern.
pub open spec fn f64_sort_key(bits: u64) -> nat {
    if bits >= 0x8000_0000_0000_0000 {
        (0xffff_ffff_ffff_ffff - bits) as nat
    } else {
        (bits + 0x8000_0000_0000_0000) as nat
    }
}

/// The order-preserving byte encoding of an indexable value, as embedded
/// in index keys.  `Absent` encodes to nothing.
pub open spec fn value_bytes(v: IdxVal) -> Seq<u8> {
    match v {
        IdxVal::Bool(b) => seq![if b { 1u8 } else { 0u8 }],
        IdxVal::Int32(x) => be_bytes(i32_sort_key(x), 4),
        IdxVal::Int64(x) => be_bytes(i64_sort_key(x), 8),
        IdxVal::Uint32(x) => be_bytes(x as nat, 4),
        IdxVal::Uint64(x) => be_bytes(x as nat, 8),
        IdxVal::Float(bits) => be_bytes(f32_sort_key(bits), 4),
        IdxVal::Double(bits) => be_bytes(f64_sort_key(bits), 8),
        IdxVal::Text(bytes) => bytes,
        IdxVal::Uuid(id) => id,
        IdxVal::Absent => Seq::empty(),
    }
}

/// Whether two indexable values are of the same kind.
pub open spec fn same_kind(a: IdxVal, b: IdxVal) -> bool {
    match (a, b) {
        (IdxVal::Bool(_), IdxVal::Bool(_)) => true,
        (IdxVal::Int32(_), IdxVal::Int32(_)) => true,
        (IdxVal::Int64(_), IdxVal::Int64(_)) => true,
        (IdxVal::Uint32(_), IdxVal::Uint32(_)) => true,
        (IdxVal::Uint64(_), IdxVal::Uint64(_)) => true,
        (IdxVal::Float(_), IdxVal::Float(_)) => true,
        (IdxVal::Double(_), IdxVal::Double(_)) => true,
        (IdxVal::Text(_), IdxVal::Text(_)) => true,
        (IdxVal::Uuid(_), IdxVal::Uuid(_)) => true,
        (IdxVal::Absent, IdxVal::Absent) => true,
        _ => false,
    }
}

/// The natural order of two indexable values of the same kind: numeric
/// for the integer kinds, the total order of the sort keys for the float
/// kinds, byte order for text and ids.  `Absent` has no order.
pub open spec fn value_lt(a: IdxVal, b: IdxVal) -> bool {
    match (a, b) {
        (IdxVal::Bool(x), IdxVal::Bool(y)) => !x && y,
        (IdxVal::Int32(x), IdxVal::Int32(y)) => x < y,
        (IdxVal::Int64(x), IdxVal::Int64(y)) => x < y,
        (IdxVal::Uint32(x), IdxVal::Uint32(y)) => x < y,
        (IdxVal::Uint64(x), IdxVal::Uint64(y)) => x < y,
        (IdxVal::Float(x), IdxVal::Float(y)) => f32_sort_key(x) < f32_sort_key(y),
        (IdxVal::Double(x), IdxVal::Double(y)) => f64_sort_key(x) < f64_sort_key(y),
        (IdxVal::Text(x), IdxVal::Text(y)) => lex_less(x, y),
        (IdxVal::Uuid(x), IdxVal::Uuid(y)) => lex_less(x, y),
        _ => false,
    }
}

/// Key ordering: for two values of one kind, the natural order of the
/// values equals the lexicographic order of their encodings.  This is
/// what makes a byte-range scan over index keys a range query over typed
/// values.
pub proof fn lemma_value_order_encoding(a: IdxVal, b: IdxVal)
    requires
        same_kind(a, b),
        value_lt(a, b),
    ensures
        lex_less(value_bytes(a), value_bytes(b)),
{
    crate::byteorder::lemma_pow256_values();
    match (a, b) {
        (IdxVal::Bool(x), IdxVal::Bool(y)) => {
            assert(seq![0u8].len() == 1);
        },
        (IdxVal::Int32(x), IdxVal::Int32(y)) => {
            lemma_be_bytes_order(i32_sort_key(x), i32_sort_key(y), 4);
        },
        (IdxVal::Int64(x), IdxVal::Int64(y)) => {
            lemma_be_bytes_order(i64_sort_key(x), i64_sort_key(y), 8);
        },
        (IdxVal::Uint32(x), IdxVal::Uint32(y)) => {
            lemma_be_bytes_order(x as nat, y as nat, 4);
        },
        (IdxVal::Uint64(x), IdxVal::Uint64(y)) => {
            lemma_be_bytes_order(x as nat, y as nat, 8);
        },
        (IdxVal::Float(x), IdxVal::Float(y)) => {
            lemma_be_bytes_order(f32_sort_key(x), f32_sort_key(y), 4);
        },
        (IdxVal::Double(x), IdxVal::Double(y)) => {
            lemma_be_bytes_order(f64_sort_key(x), f64_sort_key(y), 8);
        },
        _ => {},
    }
}

/// Values of one kind with different content encode to different bytes;
/// index keys for different values never collide.
pub proof fn lemma_value_bytes_injective(a: IdxVal, b: IdxVal)
    requires
        same_kind(a, b),
        a != b,
    ensures
        value_bytes(a) != value_bytes(b),
{
    if value_lt(a, b) {
        lemma_value_order_encoding(a, b);
        if value_bytes(a) == value_bytes(b) {
            lemma_lex_irreflexive(value_bytes(a));
        }
    } else if value_lt(b, a) {
        lemma_value_order_encoding(b, a);
        if value_bytes(a) == value_bytes(b) {
            lemma_lex_irreflexive(value_bytes(a));
        }
    } else {
        match (a, b) {
            (IdxVal::Text(x), IdxVal::Text(y)) => {
                lemma_lex_trichotomy(x, y);
            },
            (IdxVal::Uuid(x), IdxVal::Uuid(y)) => {
                lemma_lex_trichotomy(x, y);
            },
            _ => {},
        }
    }
}

/// The smallest value of `v`'s kind, as `IndexableValue::bounds` hands
/// it back.
pub open spec fn is_low_bound(v: IdxVal, lo: IdxVal) -> bool {
    match v {
        IdxVal::Bool(_) => lo == IdxVal::Bool(false),
        IdxVal::Int32(_) => lo == IdxVal::Int32(i32::MIN),
        IdxVal::Int64(_) => lo == IdxVal::Int64(i64::MIN),
        IdxVal::Uint32(_) => lo == IdxVal::Uint32(0),
        IdxVal::Uint64(_) => lo == IdxVal::Uint64(0),
        IdxVal::Float(_) => lo == IdxVal::Float(0xff80_0000),
        IdxVal::Double(_) => lo == IdxVal::Double(0xfff0_0000_0000_0000),
        IdxVal::Text(_) => lo == IdxVal::Text(Seq::<u8>::empty()),
        IdxVal::Uuid(_) => lo == IdxVal::Uuid(repeat_byte(0, 16)),
        IdxVal::Absent => lo == IdxVal::Absent,
    }
}

/// The largest value of `v`'s kind, as `IndexableValue::bounds` hands
/// it back.
pub open spec fn is_high_bound(v: IdxVal, hi: IdxVal) -> bool {
    match v {
        IdxVal::Bool(_) => hi == IdxVal::Bool(true),
        IdxVal::Int32(_) => hi == IdxVal::Int32(i32::MAX),
        IdxVal::Int64(_) => hi == IdxVal::Int64(i64::MAX),
        IdxVal::Uint32(_) => hi == IdxVal::Uint32(u32::MAX),
        IdxVal::Uint64(_) => hi == IdxVal::Uint64(u64::MAX),
        IdxVal::Float(_) => hi == IdxVal::Float(0x7f80_0000),
        IdxVal::Double(_) => hi == IdxVal::Double(0x7ff0_0000_0000_0000),
        IdxVal::Text(_) => hi == IdxVal::Uint32(u32::MAX),
        IdxVal::Uuid(_) => hi == IdxVal::Uuid(repeat_byte(0xff, 16)),
        IdxVal::Absent => hi == IdxVal::Absent,
    }
}

/// The per-kind bounds contract of `IndexableValue::bounds`: `lo` and
/// `hi` are the endpoints handed back for a value of `v`'s kind.
pub open spec fn is_bounds_for(v: IdxVal, lo: IdxVal, hi: IdxVal) -> bool {
    is_low_bound(v, lo) && is_high_bound(v, hi)
}

impl DbValue {
    /// The indexable content of this value, as placed into index keys.
    pub fn to_indexable(&self) -> (r: IndexableValue)
        ensures
            r@ == to_idx_val(self@),
    {
        match self {
            DbValue::Bool(b) => IndexableValue::Bool(*b),
            DbValue::Int32(x) => IndexableValue::Int32(*x),
            DbValue::Int64(x) => IndexableValue::Int64(*x),
            DbValue::Uint32(x) => IndexableValue::Uint32(*x),
            DbValue::Uint64(x) => IndexableValue::Uint64(*x),
            DbValue::Float(b) => IndexableValue::Float(*b),
            DbValue::Double(b) => IndexableValue::Double(*b),
            DbValue::Text(t) => IndexableValue::Text(crate::byteorder::copy_bytes(t)),
            DbValue::Uuid(id) => IndexableValue::Uuid(id.duplicate()),
            DbValue::Blob(_) => IndexableValue::Absent,
            DbValue::Vector(_) => IndexableValue::Absent,
            DbValue::EnumOrdinal(_) => IndexableValue::Absent,
            DbValue::Absent => IndexableValue::Absent,
        }
    }

    /// A copy with the same mathematical value.
    pub fn duplicate(&self) -> (r: DbValue)
        ensures
            r@ == self@,
    {
        match self {
            DbValue::Bool(b) => DbValue::Bool(*b),
            DbValue::Int32(x) => DbValue::Int32(*x),
            DbValue::Int64(x) => DbValue::Int64(*x),
            DbValue::Uint32(x) => DbValue::Uint32(*x),
            DbValue::Uint64(x) => DbValue::Uint64(*x),
            DbValue::Float(b) => DbValue::Float(*b),
            DbValue::Double(b) => DbValue::Double(*b),
            DbValue::Text(t) => DbValue::Text(crate::byteorder::copy_bytes(t)),
            DbValue::Blob(t) => DbValue::Blob(crate::byteorder::copy_bytes(t)),
            DbValue::Vector(e) => DbValue::Vector(copy_words(e)),
            DbValue::Uuid(id) => DbValue::Uuid(id.duplicate()),
            DbValue::EnumOrdinal(x) => DbValue::EnumOrdinal(*x),
            DbValue::Absent => DbValue::Absent,
        }
    }
}

/// Copies a vector of 32-bit words.
pub fn copy_words(v: &Vec<u32>) -> (r: Vec<u32>)
    ensures
        r@ == v@,
{
    let mut r: Vec<u32> = Vec::new();
    let mut i: usize = 0;
    while i < v.len()
        invariant
            i <= v@.len(),
            r@ =~= v@.take(i as int),
        decreases v@.len() - i,
    {
        r.push(v[i]);
        proof {
            assert(v@.take(i + 1) =~= v@.take(i as int).push(v@[i as int]));
        }
        i += 1;
    }
    proof {
        assert(v@.take(v@.len() as int) =~= v@);
    }
    r
}

impl IndexableValue {
    /// The smallest and largest values of this value's kind, used to
    /// widen half-bounded queries into full ranges.
    ///
    /// Text has no largest value; the upper endpoint borrows the four
    /// `0xff` bytes of `Uint32(u32::MAX)`, which never occur in UTF-8
    /// text.  A text value that is a strict prefix of another still
    /// aliases into its extensions' range — callers that need exact text
    /// ranges must keep their text values prefix-free.
    pub fn bounds(&self) -> (r: (IndexableValue, IndexableValue))
        ensures
            is_bounds_for(self@, r.0@, r.1@),
    {
        match self {
            IndexableValue::Bool(_) => (IndexableValue::Bool(false), IndexableValue::Bool(true)),
            IndexableValue::Int32(_) => (
                IndexableValue::Int32(i32::MIN),
                IndexableValue::Int32(i32::MAX),
            ),
            IndexableValue::Int64(_) => (
                IndexableValue::Int64(i64::MIN),
                IndexableValue::Int64(i64::MAX),
            ),
            IndexableValue::Uint32(_) => (
                IndexableValue::Uint32(0),
                IndexableValue::Uint32(u32::MAX),
            ),
            IndexableValue::Uint64(_) => (
                IndexableValue::Uint64(0),
                IndexableValue::Uint64(u64::MAX),
            ),
            IndexableValue::Float(_) => (
                IndexableValue::Float(0xff80_0000),
                IndexableValue::Float(0x7f80_0000),
            ),
            IndexableValue::Double(_) => (
                IndexableValue::Double(0xfff0_0000_0000_0000),
                IndexableValue::Double(0x7ff0_0000_0000_0000),
            ),
            IndexableValue::Text(_) => (
                IndexableValue::Text(Vec::new()),
                IndexableValue::Uint32(u32::MAX),
            ),
            IndexableValue::Uuid(_) => (
                IndexableValue::Uuid(RowId::nil()),
                IndexableValue::Uuid(RowId::max()),
            ),
            IndexableValue::Absent => (IndexableValue::Absent, IndexableValue::Absent),
        }
    }

    /// Appends this value's order-preserving encoding to a key under
    /// construction.
    pub fn append_to_key(&self, key: &mut Vec<u8>)
        ensures
            final(key)@ == old(key)@ + value_bytes(self@),
    {
        match self {
            IndexableValue::Bool(b) => {
                if *b {
                    key.push(1);
                } else {
                    key.push(0);
                }
                proof {
                    assert(key@ =~= old(key)@ + value_bytes(self@));
                }
            },
            IndexableValue::Int32(x) => {
                let k = (*x as i64) + 0x8000_0000i64;
                let mut bs = u64_to_be(k as u64, 4);
                key.append(&mut bs);
            },
            IndexableValue::Int64(x) => {
                let k = (*x as i128) + 0x8000_0000_0000_0000i128;
                let mut bs = u64_to_be(k as u64, 8);
                key.append(&mut bs);
            },
            IndexableValue::Uint32(x) => {
                let mut bs = u64_to_be(*x as u64, 4);
                key.append(&mut bs);
            },
            IndexableValue::Uint64(x) => {
                let mut bs = u64_to_be(*x, 8);
                key.append(&mut bs);
            },
            IndexableValue::Float(bits) => {
                let k: u32 = if *bits >= 0x8000_0000 {
                    0xffff_ffff - *bits
                } else {
                    *bits + 0x8000_0000
                };
                let mut bs = u64_to_be(k as u64, 4);
                key.append(&mut bs);
            },
            IndexableValue::Double(bits) => {
                let k: u64 = if *bits >= 0x8000_0000_0000_0000 {
                    0xffff_ffff_ffff_ffff - *bits
                } else {
                    *bits + 0x8000_0000_0000_0000
                };
                let mut bs = u64_to_be(k, 8);
                key.append(&mut bs);
            },
            IndexableValue::Text(bytes) => {
                let mut bs = crate::byteorder::copy_bytes(bytes);
                key.append(&mut bs);
            },
            IndexableValue::Uuid(id) => {
                id.append_to(key);
            },
            IndexableValue::Absent => {
                proof {
                    assert(key@ =~= old(key)@ + value_bytes(self@));
                }
            },
        }
    }

    /// A copy with the same mathematical value.
    pub fn duplicate(&self) -> (r: IndexableValue)
        ensures
            r@ == self@,
    {
        match self {
            IndexableValue::Bool(b) => IndexableValue::Bool(*b),
            IndexableValue::Int32(x) => IndexableValue::Int32(*x),
            IndexableValue::Int64(x) => IndexableValue::Int64(*x),
            IndexableValue::Uint32(x) => IndexableValue::Uint32(*x),
            IndexableValue::Uint64(x) => IndexableValue::Uint64(*x),
            IndexableValue::Float(b) => IndexableValue::Float(*b),
            IndexableValue::Double(b) => IndexableValue::Double(*b),
            IndexableValue::Text(t) => IndexableValue::Text(crate::byteorder::copy_bytes(t)),
            IndexableValue::Uuid(id) => IndexableValue::Uuid(id.duplicate()),
            IndexableValue::Absent => IndexableValue::Absent,
        }
    }
}

} // verus!
