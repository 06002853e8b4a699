//! Keys: the ordered byte strings under which rows, index entries and
//! blob shards are stored.
//!
//! A key is `MAGIC ++ tenant ++ 0 ++ table ++ 0 ++ purpose ++ 0 ++ row`,
//! where the purpose is a tag byte followed by its payload.  The single
//! magic byte and the zero separators are cosmetic aids for human
//! inspection; separation comes from the purpose tags and the fixed-width
//! row suffix.

use vstd::prelude::*;

use vstd::string::{StrSliceExecFns, StringSliceAdditionalSpecFns};

use crate::byteorder::{be_bytes, copy_bytes, u64_to_be};
use crate::error::ExothermError;
use crate::rowid::RowId;
use crate::values_indices::{value_bytes, IndexableValue};

verus! {

/// The first byte of every key.
pub const MAGIC_NUMBER: u8 = 99;

/// The isolation domain that prefixes every key.  `Unset` is a sentinel:
/// schemas produce keys under it, and the transaction facade stamps its
/// own tenant before any key is generated.
#[derive(Debug, Clone, PartialEq, Eq)]
pub enum Tenant {
    /// A named domain; the name's UTF-8 bytes open the key.
    Named(Vec<u8>),
    /// A domain identified by a 16-byte id.
    Id(RowId),
    /// No domain chosen yet; key generation rejects this.
    Unset,
}

/// The bytes a tenant contributes to a key.  Only meaningful for a set
/// tenant; generation fails on `Unset` before these bytes are used.
pub open spec fn tenant_bytes(t: Tenant) -> Seq<u8> {
    match t {
        Tenant::Named(name) => name@,
        Tenant::Id(id) => id@,
        Tenant::Unset => Seq::empty(),
    }
}

/// Whether two tenants denote the same domain.
pub open spec fn tenant_like(a: Tenant, b: Tenant) -> bool {
    match (a, b) {
        (Tenant::Named(x), Tenant::Named(y)) => x@ == y@,
        (Tenant::Id(x), Tenant::Id(y)) => x@ == y@,
        (Tenant::Unset, Tenant::Unset) => true,
        _ => false,
    }
}

impl Tenant {
    /// A named tenant, from the name's text.
    pub fn named(name: &str) -> (r: Tenant)
        ensures
            r matches Tenant::Named(b) && b@ == name.spec_bytes(),
    {
        Tenant::Named(name.as_bytes_vec())
    }

    /// Appends the tenant's bytes to a key under construction; an unset
    /// tenant is rejected and leaves the key untouched.
    pub fn append(&self, key: &mut Vec<u8>) -> (r: Result<(), ExothermError>)
        ensures
            match r {
                Ok(()) => !(self is Unset) && final(key)@ == old(key)@ + tenant_bytes(*self),
                Err(e) => self is Unset && e is TenantError && final(key)@ == old(key)@,
            },
    {
        match self {
            Tenant::Named(name) => {
                let mut bs = copy_bytes(name);
                key.append(&mut bs);
                Ok(())
            },
            Tenant::Id(id) => {
                id.append_to(key);
                Ok(())
            },
            Tenant::Unset => Err(ExothermError::TenantError),
        }
    }

    /// A copy denoting the same domain.
    pub fn duplicate(&self) -> (r: Tenant)
        ensures
            tenant_like(r, *self),
            r is Unset <==> self is Unset,
    {
        match self {
            Tenant::Named(name) => Tenant::Named(copy_bytes(name)),
            Tenant::Id(id) => Tenant::Id(id.duplicate()),
            Tenant::Unset => Tenant::Unset,
        }
    }
}

/// What a key addresses: the row corpus itself, one index entry, or one
/// shard of a blob bucket.
#[derive(Debug, Clone, PartialEq, Eq)]
pub enum Purpose {
    /// The serialized corpus of the row.
    Row,
    /// One entry of the index on column `u16`, embedding the indexed
    /// value.
    Index(u16, IndexableValue),
    /// One shard of the named blob bucket.
    Blob(Vec<u8>, u16),
}

/// The bytes a purpose contributes to a key: a tag byte, then the
/// payload.
pub open spec fn purpose_bytes(p: Purpose) -> Seq<u8> {
    match p {
        Purpose::Row => seq![1u8],
        Purpose::Index(col, value) => seq![2u8] + be_bytes(col as nat, 2) + value_bytes(value@),
        Purpose::Blob(bucket, shard) => seq![3u8] + bucket@ + be_bytes(shard as nat, 2),
    }
}

impl Purpose {
    /// Appends the purpose's tag and payload to a key under
    /// construction.
    pub fn append(&self, key: &mut Vec<u8>)
        ensures
            final(key)@ == old(key)@ + purpose_bytes(*self),
    {
        match self {
            Purpose::Row => {
                key.push(1);
                proof {
                    assert(key@ =~= old(key)@ + purpose_bytes(*self));
                }
            },
            Purpose::Index(col, value) => {
                key.push(2);
                let mut cb = u64_to_be(*col as u64, 2);
                key.append(&mut cb);
                value.append_to_key(key);
                proof {
                    assert(key@ =~= old(key)@ + purpose_bytes(*self));
                }
            },
            Purpose::Blob(bucket, shard) => {
                key.push(3);
                let mut bb = copy_bytes(bucket);
                key.append(&mut bb);
                let mut sb = u64_to_be(*shard as u64, 2);
                key.append(&mut sb);
                proof {
                    assert(key@ =~= old(key)@ + purpose_bytes(*self));
                }
            },
        }
    }
}

/// The address of one stored entry: tenant, table, purpose and row id.
/// The row id is present even in index keys, where it is the pointer
/// back to the row and keeps entries of different rows distinct.
#[derive(Debug, Clone, PartialEq, Eq)]
pub struct Key {
    pub tenant: Tenant,
    pub table: Vec<u8>,
    pub purpose: Purpose,
    pub row: RowId,
}

/// The byte string of a key, from its parts: magic byte, tenant,
/// table, purpose and row, with the zero separators.
pub open spec fn key_bytes(tb: Seq<u8>, table: Seq<u8>, pb: Seq<u8>, row: Seq<u8>) -> Seq<u8> {
    seq![MAGIC_NUMBER] + tb + seq![0u8] + table + seq![0u8] + pb + seq![0u8] + row
}

/// The purpose bytes of the index on column `col` with value `v`.
pub open spec fn index_purpose_bytes(col: u16, v: crate::values_indices::IdxVal) -> Seq<u8> {
    seq![2u8] + be_bytes(col as nat, 2) + value_bytes(v)
}

/// The full byte string of the index key for `(tenant, table, col, v,
/// row)`.
pub open spec fn index_key_bytes(
    t: Tenant,
    table: Seq<u8>,
    col: u16,
    v: crate::values_indices::IdxVal,
    row: Seq<u8>,
) -> Seq<u8> {
    key_bytes(tenant_bytes(t), table, index_purpose_bytes(col, v), row)
}

/// The full byte string of the corpus key for `(tenant, table, row)`.
pub open spec fn row_key_bytes(t: Tenant, table: Seq<u8>, row: Seq<u8>) -> Seq<u8> {
    key_bytes(tenant_bytes(t), table, seq![1u8], row)
}

/// The full byte string of a key, as written to the store.
pub open spec fn spec_generate(k: Key) -> Seq<u8> {
    key_bytes(tenant_bytes(k.tenant), k.table@, purpose_bytes(k.purpose), k.row@)
}

impl Key {
    /// The corpus key of the row `row` in `table`.
    pub fn new_row(tenant: Tenant, table: &str, row: RowId) -> (r: Key)
        ensures
            r.tenant == tenant,
            r.table@ == table.spec_bytes(),
            r.purpose is Row,
            r.row@ == row@,
    {
        Key { tenant, table: table.as_bytes_vec(), purpose: Purpose::Row, row }
    }

    /// The key of the index entry on column `id` with value `value`,
    /// pointing at `row`.
    pub fn new_index(tenant: Tenant, table: &str, id: u16, value: IndexableValue, row: RowId) -> (r:
        Key)
        ensures
            r.tenant == tenant,
            r.table@ == table.spec_bytes(),
            r.purpose == Purpose::Index(id, value),
            r.row@ == row@,
    {
        Key { tenant, table: table.as_bytes_vec(), purpose: Purpose::Index(id, value), row }
    }

    /// Writes the key out as bytes.  Fails if, and only if, the tenant
    /// is still unset.
    pub fn generate(&self) -> (r: Result<Vec<u8>, ExothermError>)
        ensures
            match r {
                Ok(bytes) => !(self.tenant is Unset) && bytes@ == spec_generate(*self),
                Err(e) => self.tenant is Unset && e is TenantError,
            },
    {
        let mut key = Vec::<u8>::new();
        key.push(MAGIC_NUMBER);
        match self.tenant.append(&mut key) {
            Ok(()) => {},
            Err(e) => {
                return Err(e);
            },
        }
        key.push(0);
        let mut tb = copy_bytes(&self.table);
        key.append(&mut tb);
        key.push(0);
        self.purpose.append(&mut key);
        key.push(0);
        self.row.append_to(&mut key);
        proof {
            assert(key@ =~= spec_generate(*self));
        }
        Ok(key)
    }
}

/// The shared front of every key of one tenant and table, up to and
/// including the separator before the purpose.
pub open spec fn key_base(tb: Seq<u8>, table: Seq<u8>) -> Seq<u8> {
    seq![MAGIC_NUMBER] + tb + seq![0u8] + table + seq![0u8]
}

pub proof fn lemma_key_bytes_shape(tb: Seq<u8>, table: Seq<u8>, pb: Seq<u8>, row: Seq<u8>)
    ensures
        key_bytes(tb, table, pb, row) == key_base(tb, table) + pb + seq![0u8] + row,
        key_bytes(tb, table, pb, row).len() == key_base(tb, table).len() + pb.len() + 1
            + row.len(),
        key_base(tb, table).len() == 3 + tb.len() + table.len(),
{
    assert(key_bytes(tb, table, pb, row) =~= key_base(tb, table) + pb + seq![0u8] + row);
}

/// A corpus key and an index key never collide: the byte after the
/// shared base is the purpose tag, `1` against `2`.
pub proof fn lemma_row_key_not_index_key(
    t: Tenant,
    table: Seq<u8>,
    col: u16,
    v: crate::values_indices::IdxVal,
    r1: Seq<u8>,
    r2: Seq<u8>,
)
    ensures
        row_key_bytes(t, table, r1) != index_key_bytes(t, table, col, v, r2),
{
    let tb = tenant_bytes(t);
    let base = key_base(tb, table);
    let k1 = row_key_bytes(t, table, r1);
    let k2 = index_key_bytes(t, table, col, v, r2);
    lemma_key_bytes_shape(tb, table, seq![1u8], r1);
    lemma_key_bytes_shape(tb, table, index_purpose_bytes(col, v), r2);
    assert(k1[base.len() as int] == 1u8);
    assert(k2[base.len() as int] == 2u8);
}

/// Two index keys of one tenant and table are equal only if they name
/// the same column, encode the same value bytes, and point at the same
/// row.  The row id's fixed width is what makes the suffix
/// unambiguous.
pub proof fn lemma_index_key_injective(
    t: Tenant,
    table: Seq<u8>,
    c1: u16,
    v1: crate::values_indices::IdxVal,
    r1: Seq<u8>,
    c2: u16,
    v2: crate::values_indices::IdxVal,
    r2: Seq<u8>,
)
    requires
        r1.len() == 16,
        r2.len() == 16,
        index_key_bytes(t, table, c1, v1, r1) == index_key_bytes(t, table, c2, v2, r2),
    ensures
        c1 == c2,
        value_bytes(v1) == value_bytes(v2),
        r1 == r2,
{
    let tb = tenant_bytes(t);
    let base = key_base(tb, table);
    let bl = base.len() as int;
    let k1 = index_key_bytes(t, table, c1, v1, r1);
    let k2 = index_key_bytes(t, table, c2, v2, r2);
    let vb1 = value_bytes(v1);
    let vb2 = value_bytes(v2);
    lemma_key_bytes_shape(tb, table, index_purpose_bytes(c1, v1), r1);
    lemma_key_bytes_shape(tb, table, index_purpose_bytes(c2, v2), r2);
    crate::byteorder::lemma_be_bytes_len(c1 as nat, 2);
    crate::byteorder::lemma_be_bytes_len(c2 as nat, 2);
    assert(k1.len() == bl + 3 + vb1.len() + 1 + 16);
    assert(k2.len() == bl + 3 + vb2.len() + 1 + 16);
    assert(vb1.len() == vb2.len());
    assert(k1.subrange(bl + 1, bl + 3) =~= be_bytes(c1 as nat, 2));
    assert(k2.subrange(bl + 1, bl + 3) =~= be_bytes(c2 as nat, 2));
    crate::byteorder::lemma_pow256_values();
    crate::byteorder::lemma_be_bytes_round_trip(c1 as nat, 2);
    crate::byteorder::lemma_be_bytes_round_trip(c2 as nat, 2);
    assert(c1 == c2);
    assert(vb1 =~= k1.subrange(bl + 3, bl + 3 + vb1.len()));
    assert(vb2 =~= k2.subrange(bl + 3, bl + 3 + vb2.len()));
    assert(vb1 == vb2);
    assert(r1 =~= k1.subrange(k1.len() - 16, k1.len() as int));
    assert(r2 =~= k2.subrange(k2.len() - 16, k2.len() as int));
    assert(r1 == r2);
}

} // verus!
