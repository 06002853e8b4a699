//! The transactional facade: typed reads and writes, index
//! maintenance, and index range queries.
//!
//! Every operation is planned here as a function from plain values to
//! plain values; the plans are applied to the crate's own ordered
//! store, and a driver can apply the same plans to an external one.
//! The facade is the single authority on tenancy: keys coming from
//! schemas carry the unset tenant, and the facade stamps its own
//! tenant into every key before the key is generated.

use vstd::prelude::*;

use crate::byteorder::{copy_bytes, repeat_byte};
use crate::corpus::{spec_decode_row, spec_encode_row};
use crate::error::ExothermError;
use crate::key::{index_key_bytes, lemma_row_key_not_index_key, row_key_bytes, tenant_like, Key,
    Purpose, Tenant};
use crate::kvs::{kv_views, spec_get, Kvs};
use crate::record::{spec_index_fields, value_at, FieldDef, Record, Schema};
use crate::rowid::RowId;
use crate::values_indices::{is_high_bound, is_low_bound, to_idx_val, DbVal, IdxVal};

verus! {

/// An inclusive range of keys, compiled from a query.
pub struct Range(pub Key, pub Key);

/// A single-column index query.
pub enum Query {
    /// All rows whose indexed value equals the key's value.
    Equal(Key),
    /// All rows whose indexed value lies between the two keys' values.
    Between(Key, Key),
    /// All rows from the key's value up to the kind's largest value.
    Gt(Key),
    /// All rows from the kind's smallest value up to the key's value.
    Lt(Key),
    /// All rows of the column.
    WantAll(Key),
}

/// An endpoint of a compiled range: the facade's tenant, the query's
/// table and column, the given value, and a sentinel row id.
pub open spec fn endpoint_at(
    k: Key,
    tenant: Tenant,
    table: Seq<u8>,
    col: u16,
    v: IdxVal,
    row: Seq<u8>,
) -> bool {
    &&& tenant_like(k.tenant, tenant)
    &&& (k.tenant is Unset <==> tenant is Unset)
    &&& k.table@ == table
    &&& (k.purpose matches Purpose::Index(c, val) && c == col && val@ == v)
    &&& k.row@ == row
}

/// An endpoint holding the smallest value of `v`'s kind.
pub open spec fn endpoint_at_low_bound(
    k: Key,
    tenant: Tenant,
    table: Seq<u8>,
    col: u16,
    v: IdxVal,
    row: Seq<u8>,
) -> bool {
    exists|lo: IdxVal| #[trigger] is_low_bound(v, lo) && endpoint_at(k, tenant, table, col, lo, row)
}

/// An endpoint holding the largest value of `v`'s kind.
pub open spec fn endpoint_at_high_bound(
    k: Key,
    tenant: Tenant,
    table: Seq<u8>,
    col: u16,
    v: IdxVal,
    row: Seq<u8>,
) -> bool {
    exists|hi: IdxVal| #[trigger] is_high_bound(v, hi) && endpoint_at(k, tenant, table, col, hi, row)
}

/// What a successful compilation yields for each query form: both
/// endpoints carry the facade's tenant, the query's table and column,
/// the value range of the query form, and the sentinel row ids that
/// bracket every row.
pub open spec fn query_range_ok(q: Query, tenant: Tenant, rng: Range) -> bool {
    match q {
        Query::Equal(k) => (k.purpose matches Purpose::Index(col, v) && {
            &&& endpoint_at(rng.0, tenant, k.table@, col, v@, repeat_byte(0, 16))
            &&& endpoint_at(rng.1, tenant, k.table@, col, v@, repeat_byte(0xff, 16))
        }),
        Query::Between(k1, k2) => (k1.purpose matches Purpose::Index(col, v1) && (
        k2.purpose matches Purpose::Index(col2, v2) && {
            &&& col == col2
            &&& endpoint_at(rng.0, tenant, k1.table@, col, v1@, repeat_byte(0, 16))
            &&& endpoint_at(rng.1, tenant, k1.table@, col, v2@, repeat_byte(0xff, 16))
        })),
        Query::Gt(k) => (k.purpose matches Purpose::Index(col, v) && {
            &&& endpoint_at(rng.0, tenant, k.table@, col, v@, repeat_byte(0, 16))
            &&& endpoint_at_high_bound(rng.1, tenant, k.table@, col, v@, repeat_byte(0xff, 16))
        }),
        Query::Lt(k) => (k.purpose matches Purpose::Index(col, v) && {
            &&& endpoint_at_low_bound(rng.0, tenant, k.table@, col, v@, repeat_byte(0, 16))
            &&& endpoint_at(rng.1, tenant, k.table@, col, v@, repeat_byte(0xff, 16))
        }),
        Query::WantAll(k) => (k.purpose matches Purpose::Index(col, v) && {
            &&& endpoint_at_low_bound(rng.0, tenant, k.table@, col, v@, repeat_byte(0, 16))
            &&& endpoint_at_high_bound(rng.1, tenant, k.table@, col, v@, repeat_byte(0xff, 16))
        }),
    }
}

/// The error a query compiles to, when it compiles to one: a
/// non-index key is rejected, and a bounded query over two columns is
/// rejected.
pub open spec fn query_compile_err(q: Query, e: ExothermError) -> bool {
    match q {
        Query::Equal(k) => !(k.purpose is Index) && e is IndexKeyError,
        Query::Gt(k) => !(k.purpose is Index) && e is IndexKeyError,
        Query::Lt(k) => !(k.purpose is Index) && e is IndexKeyError,
        Query::WantAll(k) => !(k.purpose is Index) && e is IndexKeyError,
        Query::Between(k1, k2) => if !(k1.purpose is Index) || !(k2.purpose is Index) {
            e is IndexKeyError
        } else {
            e is UnequalColumns && (k1.purpose matches Purpose::Index(c1, _) && (
            k2.purpose matches Purpose::Index(c2, _) && c1 != c2))
        },
    }
}

impl Query {
    /// Compiles the query into an inclusive key range under the given
    /// tenant.  A query over a non-index key is rejected; a bounded
    /// query over two different columns is rejected.
    pub fn into_range(self, tenant: Tenant) -> (r: Result<Range, ExothermError>)
        ensures
            match r {
                Ok(rng) => query_range_ok(self, tenant, rng),
                Err(e) => query_compile_err(self, e),
            },
    {
        proof {
            lemma_tenant_like_reflexive(tenant);
        }
        match self {
            Query::Equal(k) => {
                let Key { tenant: _, table, purpose, row: _ } = k;
                if let Purpose::Index(id, value) = purpose {
                    let from = Key {
                        tenant: tenant.duplicate(),
                        table: copy_bytes(&table),
                        purpose: Purpose::Index(id, value.duplicate()),
                        row: RowId::nil(),
                    };
                    let to = Key {
                        tenant,
                        table,
                        purpose: Purpose::Index(id, value),
                        row: RowId::max(),
                    };
                    Ok(Range(from, to))
                } else {
                    Err(ExothermError::IndexKeyError)
                }
            },
            Query::Between(k1, k2) => {
                let Key { tenant: _, table, purpose, row: _ } = k1;
                let Key { tenant: _, table: _, purpose: purpose2, row: _ } = k2;
                match (purpose, purpose2) {
                    (Purpose::Index(id, value1), Purpose::Index(id2, value2)) => {
                        if id != id2 {
                            return Err(ExothermError::UnequalColumns);
                        }
                        let from = Key {
                            tenant: tenant.duplicate(),
                            table: copy_bytes(&table),
                            purpose: Purpose::Index(id, value1),
                            row: RowId::nil(),
                        };
                        let to = Key {
                            tenant,
                            table,
                            purpose: Purpose::Index(id, value2),
                            row: RowId::max(),
                        };
                        Ok(Range(from, to))
                    },
                    _ => Err(ExothermError::IndexKeyError),
                }
            },
            Query::Gt(k) => {
                let Key { tenant: _, table, purpose, row: _ } = k;
                if let Purpose::Index(id, value) = purpose {
                    let bounds = value.bounds();
                    let from = Key {
                        tenant: tenant.duplicate(),
                        table: copy_bytes(&table),
                        purpose: Purpose::Index(id, value),
                        row: RowId::nil(),
                    };
                    let to = Key {
                        tenant,
                        table,
                        purpose: Purpose::Index(id, bounds.1),
                        row: RowId::max(),
                    };
                    Ok(Range(from, to))
                } else {
                    Err(ExothermError::IndexKeyError)
                }
            },
            Query::Lt(k) => {
                let Key { tenant: _, table, purpose, row: _ } = k;
                if let Purpose::Index(id, value) = purpose {
                    let bounds = value.bounds();
                    let from = Key {
                        tenant: tenant.duplicate(),
                        table: copy_bytes(&table),
                        purpose: Purpose::Index(id, bounds.0),
                        row: RowId::nil(),
                    };
                    let to = Key {
                        tenant,
                        table,
                        purpose: Purpose::Index(id, value),
                        row: RowId::max(),
                    };
                    Ok(Range(from, to))
                } else {
                    Err(ExothermError::IndexKeyError)
                }
            },
            Query::WantAll(k) => {
                let Key { tenant: _, table, purpose, row: _ } = k;
                if let Purpose::Index(id, value) = purpose {
                    let bounds = value.bounds();
                    let from = Key {
                        tenant: tenant.duplicate(),
                        table: copy_bytes(&table),
                        purpose: Purpose::Index(id, bounds.0),
                        row: RowId::nil(),
                    };
                    let to = Key {
                        tenant,
                        table,
                        purpose: Purpose::Index(id, bounds.1),
                        row: RowId::max(),
                    };
                    Ok(Range(from, to))
                } else {
                    Err(ExothermError::IndexKeyError)
                }
            },
        }
    }
}

/// Same-domain is reflexive.
pub proof fn lemma_tenant_like_reflexive(t: Tenant)
    ensures
        tenant_like(t, t),
{
    match t {
        Tenant::Named(n) => {},
        Tenant::Id(id) => {},
        Tenant::Unset => {},
    }
}

/// The byte key of the `i`-th index entry of a record: the `i`-th
/// indexed field, carrying the record's value for that field.
pub open spec fn ith_index_key(
    fields: Seq<FieldDef>,
    t: Tenant,
    table: Seq<u8>,
    vals: Seq<DbVal>,
    row: Seq<u8>,
    i: int,
) -> Seq<u8> {
    let f = spec_index_fields(fields)[i];
    index_key_bytes(t, table, f.number, to_idx_val(value_at(vals, f.number)), row)
}

/// Whether `k` is one of the index keys of the record `vals` of row
/// `row`.
pub open spec fn is_index_key_of(
    fields: Seq<FieldDef>,
    t: Tenant,
    table: Seq<u8>,
    vals: Seq<DbVal>,
    row: Seq<u8>,
    k: Seq<u8>,
) -> bool {
    exists|i: int|
        0 <= i < spec_index_fields(fields).len() && k == ith_index_key(
            fields,
            t,
            table,
            vals,
            row,
            i,
        )
}

/// Every index field is one of the schema's fields.
pub proof fn lemma_index_fields_member(fs: Seq<FieldDef>, i: int)
    requires
        0 <= i < spec_index_fields(fs).len(),
    ensures
        exists|t: int| 0 <= t < fs.len() && fs[t] == spec_index_fields(fs)[i],
    decreases fs.len(),
{
    let head = if fs[0].indexed {
        seq![fs[0]]
    } else {
        Seq::<FieldDef>::empty()
    };
    if i < head.len() {
        assert(fs[0] == spec_index_fields(fs)[i]);
    } else {
        lemma_index_fields_member(fs.drop_first(), i - head.len());
        let p = spec_index_fields(fs.drop_first())[i - head.len()];
        let t = choose|t: int| 0 <= t < fs.drop_first().len() && fs.drop_first()[t] == p;
        assert(fs.drop_first()[t] == fs[t + 1]);
        assert(spec_index_fields(fs)[i] == p);
    }
}

/// With pairwise distinct field numbers, the index fields also carry
/// pairwise distinct column numbers.
pub proof fn lemma_index_fields_distinct(fs: Seq<FieldDef>, i: int, j: int)
    requires
        forall|a: int, b: int|
            0 <= a < b < fs.len() ==> (#[trigger] fs[a]).number != (#[trigger] fs[b]).number,
        0 <= i < j < spec_index_fields(fs).len(),
    ensures
        spec_index_fields(fs)[i].number != spec_index_fields(fs)[j].number,
    decreases fs.len(),
{
    let head = if fs[0].indexed {
        seq![fs[0]]
    } else {
        Seq::<FieldDef>::empty()
    };
    assert forall|a: int, b: int|
        0 <= a < b < fs.drop_first().len() implies (#[trigger] fs.drop_first()[a]).number != (
    #[trigger] fs.drop_first()[b]).number by {
        assert(fs.drop_first()[a] == fs[a + 1]);
        assert(fs.drop_first()[b] == fs[b + 1]);
    }
    if j < head.len() {
    } else if i < head.len() {
        lemma_index_fields_member(fs.drop_first(), j - head.len());
        let p = spec_index_fields(fs.drop_first())[j - head.len()];
        let t = choose|t: int| 0 <= t < fs.drop_first().len() && fs.drop_first()[t] == p;
        assert(fs.drop_first()[t] == fs[t + 1]);
        assert(spec_index_fields(fs)[j] == p);
        assert(spec_index_fields(fs)[i] == fs[0]);
        assert(fs[0].number != fs[t + 1].number);
    } else {
        lemma_index_fields_distinct(fs.drop_first(), i - head.len(), j - head.len());
        assert(spec_index_fields(fs)[i] == spec_index_fields(fs.drop_first())[i - head.len()]);
        assert(spec_index_fields(fs)[j] == spec_index_fields(fs.drop_first())[j - head.len()]);
    }
}

/// The write plan of one `put`: keys of stale index entries to delete,
/// then entries to store.
pub struct PutPlan {
    pub clears: Vec<Vec<u8>>,
    pub sets: Vec<(Vec<u8>, Vec<u8>)>,
}

/// Every key in `clears` is an index key of the old record and not an
/// index key of the new one.
pub open spec fn clears_sound(
    fields: Seq<FieldDef>,
    t: Tenant,
    table: Seq<u8>,
    newvals: Seq<DbVal>,
    ov: Seq<DbVal>,
    row: Seq<u8>,
    clears: Seq<Vec<u8>>,
) -> bool {
    forall|i: int|
        0 <= i < clears.len() ==> is_index_key_of(fields, t, table, ov, row, (#[trigger] clears[i])@)
            && !is_index_key_of(fields, t, table, newvals, row, clears[i]@)
}

/// Every index key of the old record that the new record does not
/// keep is among `clears`.
pub open spec fn clears_complete(
    fields: Seq<FieldDef>,
    t: Tenant,
    table: Seq<u8>,
    newvals: Seq<DbVal>,
    ov: Seq<DbVal>,
    row: Seq<u8>,
    clears: Seq<Vec<u8>>,
) -> bool {
    forall|j: int|
        0 <= j < spec_index_fields(fields).len() && !is_index_key_of(
            fields,
            t,
            table,
            newvals,
            row,
            #[trigger] ith_index_key(fields, t, table, ov, row, j),
        ) ==> exists|i: int|
            0 <= i < clears.len() && (#[trigger] clears[i])@ == ith_index_key(
                fields,
                t,
                table,
                ov,
                row,
                j,
            )
}

/// Generates the stamped index key bytes of a record: one key per
/// indexed field, under the facade's own tenant.
fn stamped_index_keys(schema: &Schema, record: &Record, pk: &RowId, tenant: &Tenant) -> (r: Vec<
    Vec<u8>,
>)
    requires
        !(tenant is Unset),
    ensures
        r@.len() == spec_index_fields(schema.fields@).len(),
        forall|i: int|
            0 <= i < r@.len() ==> (#[trigger] r@[i])@ == ith_index_key(
                schema.fields@,
                *tenant,
                schema.table@,
                record@,
                pk@,
                i,
            ),
{
    let keys = schema.indices(record, pk);
    let mut out: Vec<Vec<u8>> = Vec::new();
    let mut i: usize = 0;
    while i < keys.len()
        invariant
            i <= keys@.len(),
            !(tenant is Unset),
            keys@.len() == spec_index_fields(schema.fields@).len(),
            forall|t: int|
                0 <= t < keys@.len() ==> crate::record::key_is_index_for(
                    #[trigger] keys@[t],
                    schema.table@,
                    record@,
                    pk@,
                    spec_index_fields(schema.fields@)[t],
                ),
            out@.len() == i,
            forall|t: int|
                0 <= t < i ==> (#[trigger] out@[t])@ == ith_index_key(
                    schema.fields@,
                    *tenant,
                    schema.table@,
                    record@,
                    pk@,
                    t,
                ),
        decreases keys@.len() - i,
    {
        let k = &keys[i];
        let stamped = Key {
            tenant: tenant.duplicate(),
            table: copy_bytes(&k.table),
            purpose: match &k.purpose {
                Purpose::Index(col, v) => Purpose::Index(*col, v.duplicate()),
                Purpose::Row => Purpose::Row,
                Purpose::Blob(b, s) => Purpose::Blob(copy_bytes(b), *s),
            },
            row: k.row.duplicate(),
        };
        match stamped.generate() {
            Ok(bytes) => {
                proof {
                    assert(bytes@ == ith_index_key(
                        schema.fields@,
                        *tenant,
                        schema.table@,
                        record@,
                        pk@,
                        i as int,
                    ));
                }
                out.push(bytes);
            },
            Err(_) => {
                proof {
                    assert(false);
                }
            },
        }
        i += 1;
    }
    out
}

/// The stamped corpus key bytes of the row `pk`.
fn stamped_corpus_key(schema: &Schema, pk: &RowId, tenant: &Tenant) -> (r: Vec<u8>)
    requires
        !(tenant is Unset),
    ensures
        r@ == row_key_bytes(*tenant, schema.table@, pk@),
{
    let key = schema.corpus_key(tenant.duplicate(), pk);
    match key.generate() {
        Ok(bytes) => {
            proof {
                assert(bytes@ == row_key_bytes(*tenant, schema.table@, pk@));
            }
            bytes
        },
        Err(_) => {
            proof {
                assert(false);
            }
            Vec::new()
        },
    }
}

/// Whether `k` holds the same bytes as one of `keys`.
fn key_among(keys: &Vec<Vec<u8>>, k: &Vec<u8>) -> (r: bool)
    ensures
        r == exists|t: int| 0 <= t < keys@.len() && (#[trigger] keys@[t])@ == k@,
{
    let mut i: usize = 0;
    while i < keys.len()
        invariant
            i <= keys@.len(),
            forall|t: int| 0 <= t < i ==> (#[trigger] keys@[t])@ != k@,
        decreases keys@.len() - i,
    {
        if crate::byteorder::bytes_eq(&keys[i], k) {
            return true;
        }
        i += 1;
    }
    false
}

/// Plans one `put`: reads the old corpus (handed in by the caller),
/// diffs the old index keys against the new ones, and emits deletes
/// for the stale entries, stores for every current index entry, and
/// the store of the new corpus.
pub fn plan_put(
    schema: &Schema,
    record: &Record,
    pk: &RowId,
    tenant: &Tenant,
    old_corpus: Option<&Vec<u8>>,
) -> (r: Result<PutPlan, ExothermError>)
    ensures
        match r {
            Ok(plan) => {
                let fields = schema.fields@;
                let table = schema.table@;
                let nix = spec_index_fields(fields).len() as int;
                &&& !(tenant is Unset)
                &&& plan.sets@.len() == nix + 1
                &&& forall|i: int|
                    0 <= i < nix ==> (#[trigger] plan.sets@[i]).0@ == ith_index_key(
                        fields,
                        *tenant,
                        table,
                        record@,
                        pk@,
                        i,
                    ) && plan.sets@[i].1@ == pk@
                &&& plan.sets@[nix].0@ == row_key_bytes(*tenant, table, pk@)
                &&& plan.sets@[nix].1@ == spec_encode_row(record@)
                &&& match old_corpus {
                    None => plan.clears@.len() == 0,
                    Some(ob) => spec_decode_row(ob@) matches Some(ov) && {
                        &&& clears_sound(fields, *tenant, table, record@, ov, pk@, plan.clears@)
                        &&& clears_complete(
                            fields,
                            *tenant,
                            table,
                            record@,
                            ov,
                            pk@,
                            plan.clears@,
                        )
                    },
                }
            },
            Err(e) => (e is TenantError && tenant is Unset) || (e is Serialization && !(
            tenant is Unset) && (old_corpus matches Some(ob) && spec_decode_row(ob@) is None)),
        },
{
    if matches!(tenant, Tenant::Unset) {
        return Err(ExothermError::TenantError);
    }
    let new_keys = stamped_index_keys(schema, record, pk, tenant);
    let mut clears: Vec<Vec<u8>> = Vec::new();
    match old_corpus {
        None => {},
        Some(ob) => {
            let old_values = match crate::corpus::decode_row(ob) {
                Ok(vs) => vs,
                Err(e) => {
                    return Err(e);
                },
            };
            let old_record = Record { values: old_values };
            let old_keys = stamped_index_keys(schema, &old_record, pk, tenant);
            let mut j: usize = 0;
            while j < old_keys.len()
                invariant
                    j <= old_keys@.len(),
                    !(tenant is Unset),
                    old_keys@.len() == spec_index_fields(schema.fields@).len(),
                    forall|t: int|
                        0 <= t < old_keys@.len() ==> (#[trigger] old_keys@[t])@ == ith_index_key(
                            schema.fields@,
                            *tenant,
                            schema.table@,
                            old_record@,
                            pk@,
                            t,
                        ),
                    new_keys@.len() == spec_index_fields(schema.fields@).len(),
                    forall|t: int|
                        0 <= t < new_keys@.len() ==> (#[trigger] new_keys@[t])@ == ith_index_key(
                            schema.fields@,
                            *tenant,
                            schema.table@,
                            record@,
                            pk@,
                            t,
                        ),
                    forall|i: int|
                        0 <= i < clears@.len() ==> is_index_key_of(
                            schema.fields@,
                            *tenant,
                            schema.table@,
                            old_record@,
                            pk@,
                            (#[trigger] clears@[i])@,
                        ) && !is_index_key_of(
                            schema.fields@,
                            *tenant,
                            schema.table@,
                            record@,
                            pk@,
                            clears@[i]@,
                        ),
                    forall|t: int|
                        0 <= t < j && !is_index_key_of(
                            schema.fields@,
                            *tenant,
                            schema.table@,
                            record@,
                            pk@,
                            #[trigger] ith_index_key(
                                schema.fields@,
                                *tenant,
                                schema.table@,
                                old_record@,
                                pk@,
                                t,
                            ),
                        ) ==> exists|i: int|
                            0 <= i < clears@.len() && (#[trigger] clears@[i])@ == ith_index_key(
                                schema.fields@,
                                *tenant,
                                schema.table@,
                                old_record@,
                                pk@,
                                t,
                            ),
                decreases old_keys@.len() - j,
            {
                let among = key_among(&new_keys, &old_keys[j]);
                proof {
                    let fields = schema.fields@;
                    let table = schema.table@;
                    let oikj = old_keys@[j as int]@;
                    if among {
                        let t = choose|t: int|
                            0 <= t < new_keys@.len() && (#[trigger] new_keys@[t])@ == oikj;
                        assert(is_index_key_of(fields, *tenant, table, record@, pk@, oikj)) by {
                            assert(oikj == ith_index_key(fields, *tenant, table, record@, pk@, t));
                        }
                    } else {
                        if is_index_key_of(fields, *tenant, table, record@, pk@, oikj) {
                            let i0 = choose|i: int|
                                0 <= i < spec_index_fields(fields).len() && oikj == ith_index_key(
                                    fields,
                                    *tenant,
                                    table,
                                    record@,
                                    pk@,
                                    i,
                                );
                            assert(new_keys@[i0]@ == oikj);
                            assert(false);
                        }
                        assert(is_index_key_of(fields, *tenant, table, old_record@, pk@, oikj))
                            by {
                            assert(oikj == ith_index_key(
                                fields,
                                *tenant,
                                table,
                                old_record@,
                                pk@,
                                j as int,
                            ));
                        }
                    }
                }
                let ghost clears0 = clears@;
                if !among {
                    clears.push(copy_bytes(&old_keys[j]));
                }
                proof {
                    let fields = schema.fields@;
                    let table = schema.table@;
                    assert forall|t: int|
                        0 <= t < j + 1 && !is_index_key_of(
                            fields,
                            *tenant,
                            table,
                            record@,
                            pk@,
                            #[trigger] ith_index_key(fields, *tenant, table, old_record@, pk@, t),
                        ) implies exists|i: int|
                        0 <= i < clears@.len() && (#[trigger] clears@[i])@ == ith_index_key(
                            fields,
                            *tenant,
                            table,
                            old_record@,
                            pk@,
                            t,
                        ) by {
                        let target = ith_index_key(fields, *tenant, table, old_record@, pk@, t);
                        if t < j {
                            let i = choose|i: int|
                                0 <= i < clears0.len() && (#[trigger] clears0[i])@ == target;
                            assert(clears@[i]@ == target);
                        } else {
                            assert(old_keys@[j as int]@ == target);
                            assert(clears@[clears@.len() - 1]@ == target);
                        }
                    }
                }
                j += 1;
            }
            proof {
                let fields = schema.fields@;
                let table = schema.table@;
                assert(spec_decode_row(ob@) == Some(old_record@));
                assert(clears_sound(fields, *tenant, table, record@, old_record@, pk@, clears@));
                assert(clears_complete(
                    fields,
                    *tenant,
                    table,
                    record@,
                    old_record@,
                    pk@,
                    clears@,
                ));
            }
        },
    }
    let mut sets: Vec<(Vec<u8>, Vec<u8>)> = Vec::new();
    let mut i: usize = 0;
    while i < new_keys.len()
        invariant
            i <= new_keys@.len(),
            !(tenant is Unset),
            new_keys@.len() == spec_index_fields(schema.fields@).len(),
            forall|t: int|
                0 <= t < new_keys@.len() ==> (#[trigger] new_keys@[t])@ == ith_index_key(
                    schema.fields@,
                    *tenant,
                    schema.table@,
                    record@,
                    pk@,
                    t,
                ),
            sets@.len() == i,
            forall|t: int|
                0 <= t < i ==> (#[trigger] sets@[t]).0@ == ith_index_key(
                    schema.fields@,
                    *tenant,
                    schema.table@,
                    record@,
                    pk@,
                    t,
                ) && sets@[t].1@ == pk@,
        decreases new_keys@.len() - i,
    {
        sets.push((copy_bytes(&new_keys[i]), copy_bytes(pk.as_bytes())));
        i += 1;
    }
    let ck = stamped_corpus_key(schema, pk, tenant);
    sets.push((ck, record.serialize()));
    Ok(PutPlan { clears, sets })
}

/// The keys one `clear` deletes: every index key of the stored
/// record, then the corpus key.
pub open spec fn clear_list_ok(
    fields: Seq<FieldDef>,
    t: Tenant,
    table: Seq<u8>,
    ov: Seq<DbVal>,
    row: Seq<u8>,
    clears: Seq<Vec<u8>>,
) -> bool {
    let nix = spec_index_fields(fields).len() as int;
    &&& clears.len() == nix + 1
    &&& forall|i: int|
        0 <= i < nix ==> (#[trigger] clears[i])@ == ith_index_key(fields, t, table, ov, row, i)
    &&& clears[nix]@ == row_key_bytes(t, table, row)
}

/// Plans one `clear` of a stored row: the keys to delete, given the
/// stored corpus bytes.
pub fn plan_clear(schema: &Schema, pk: &RowId, tenant: &Tenant, old_corpus: &Vec<u8>) -> (r: Result<
    Vec<Vec<u8>>,
    ExothermError,
>)
    ensures
        match r {
            Ok(clears) => {
                &&& !(tenant is Unset)
                &&& spec_decode_row(old_corpus@) matches Some(ov) && clear_list_ok(
                    schema.fields@,
                    *tenant,
                    schema.table@,
                    ov,
                    pk@,
                    clears@,
                )
            },
            Err(e) => (e is TenantError && tenant is Unset) || (e is Serialization && !(
            tenant is Unset) && spec_decode_row(old_corpus@) is None),
        },
{
    if matches!(tenant, Tenant::Unset) {
        return Err(ExothermError::TenantError);
    }
    let old_values = match crate::corpus::decode_row(old_corpus) {
        Ok(vs) => vs,
        Err(e) => {
            return Err(e);
        },
    };
    let old_record = Record { values: old_values };
    let mut clears = stamped_index_keys(schema, &old_record, pk, tenant);
    let ck = stamped_corpus_key(schema, pk, tenant);
    clears.push(ck);
    proof {
        assert(spec_decode_row(old_corpus@) == Some(old_record@));
        assert(clear_list_ok(
            schema.fields@,
            *tenant,
            schema.table@,
            old_record@,
            pk@,
            clears@,
        ));
    }
    Ok(clears)
}

/// What one `put` leaves behind: the corpus stored, every current
/// index entry pointing at the row, every stale index entry of the
/// previously stored record gone, and everything else untouched.
pub open spec fn put_post(
    es0: Seq<(Seq<u8>, Seq<u8>)>,
    es1: Seq<(Seq<u8>, Seq<u8>)>,
    fields: Seq<FieldDef>,
    table: Seq<u8>,
    t: Tenant,
    vals: Seq<DbVal>,
    row: Seq<u8>,
) -> bool {
    let ck = row_key_bytes(t, table, row);
    let nix = spec_index_fields(fields).len() as int;
    &&& spec_get(es1, ck) == Some(spec_encode_row(vals))
    &&& forall|i: int|
        0 <= i < nix ==> spec_get(es1, #[trigger] ith_index_key(fields, t, table, vals, row, i))
            == Some(row)
    &&& match spec_get(es0, ck) {
        None => forall|k: Seq<u8>|
            k != ck && !is_index_key_of(fields, t, table, vals, row, k) ==> #[trigger] spec_get(
                es1,
                k,
            ) == spec_get(es0, k),
        Some(ob) => spec_decode_row(ob) matches Some(ov) && {
            &&& forall|j: int|
                0 <= j < nix && !is_index_key_of(
                    fields,
                    t,
                    table,
                    vals,
                    row,
                    #[trigger] ith_index_key(fields, t, table, ov, row, j),
                ) ==> spec_get(es1, ith_index_key(fields, t, table, ov, row, j)) is None
            &&& forall|k: Seq<u8>|
                k != ck && !is_index_key_of(fields, t, table, vals, row, k) && !is_index_key_of(
                    fields,
                    t,
                    table,
                    ov,
                    row,
                    k,
                ) ==> #[trigger] spec_get(es1, k) == spec_get(es0, k)
        },
    }
}

/// What one `clear` of a stored row leaves behind: the corpus and
/// every index entry of the stored record gone, everything else
/// untouched.
pub open spec fn clear_post(
    es0: Seq<(Seq<u8>, Seq<u8>)>,
    es1: Seq<(Seq<u8>, Seq<u8>)>,
    fields: Seq<FieldDef>,
    table: Seq<u8>,
    t: Tenant,
    ov: Seq<DbVal>,
    row: Seq<u8>,
) -> bool {
    let ck = row_key_bytes(t, table, row);
    let nix = spec_index_fields(fields).len() as int;
    &&& spec_get(es1, ck) is None
    &&& forall|j: int|
        0 <= j < nix ==> spec_get(es1, #[trigger] ith_index_key(fields, t, table, ov, row, j))
            is None
    &&& forall|k: Seq<u8>|
        k != ck && !is_index_key_of(fields, t, table, ov, row, k) ==> #[trigger] spec_get(es1, k)
            == spec_get(es0, k)
}

/// The distinctness of one put's stored keys: the index keys of
/// distinct columns differ, and none is the corpus key.
proof fn lemma_set_keys_distinct(
    fields: Seq<FieldDef>,
    t: Tenant,
    table: Seq<u8>,
    vals: Seq<DbVal>,
    row: Seq<u8>,
    sets: Seq<(Vec<u8>, Vec<u8>)>,
)
    requires
        row.len() == 16,
        forall|a: int, b: int|
            0 <= a < b < fields.len() ==> (#[trigger] fields[a]).number != (
            #[trigger] fields[b]).number,
        sets.len() == spec_index_fields(fields).len() + 1,
        forall|i: int|
            0 <= i < spec_index_fields(fields).len() ==> (#[trigger] sets[i]).0@ == ith_index_key(
                fields,
                t,
                table,
                vals,
                row,
                i,
            ),
        sets[sets.len() - 1].0@ == row_key_bytes(t, table, row),
    ensures
        forall|a: int, b: int| 0 <= a < b < sets.len() ==> (#[trigger] sets[a]).0@ != (
        #[trigger] sets[b]).0@,
{
    let nix = spec_index_fields(fields).len() as int;
    assert forall|a: int, b: int| 0 <= a < b < sets.len() implies (#[trigger] sets[a]).0@ != (
    #[trigger] sets[b]).0@ by {
        if b == nix {
            let fa = spec_index_fields(fields)[a];
            lemma_row_key_not_index_key(
                t,
                table,
                fa.number,
                to_idx_val(value_at(vals, fa.number)),
                row,
                row,
            );
        } else {
            let fa = spec_index_fields(fields)[a];
            let fb = spec_index_fields(fields)[b];
            lemma_index_fields_distinct(fields, a, b);
            if sets[a].0@ == sets[b].0@ {
                crate::key::lemma_index_key_injective(
                    t,
                    table,
                    fa.number,
                    to_idx_val(value_at(vals, fa.number)),
                    row,
                    fb.number,
                    to_idx_val(value_at(vals, fb.number)),
                    row,
                );
            }
        }
    }
}

/// The transactional facade over the in-memory store: typed reads and
/// writes under one tenant, with the index kept in step.
pub struct STransaction {
    pub kvs: Kvs,
    pub maybe_commited: bool,
    pub tenant: Tenant,
}

impl STransaction {
    /// The store's entries are well formed.
    pub open spec fn wf(&self) -> bool {
        self.kvs.wf()
    }

    /// A facade over an empty store.
    pub fn new(tenant: Tenant) -> (r: STransaction)
        ensures
            r.wf(),
            r.kvs@ == Seq::<(Seq<u8>, Seq<u8>)>::empty(),
            r.tenant == tenant,
            r.maybe_commited == false,
    {
        STransaction { kvs: Kvs::new(), maybe_commited: false, tenant }
    }

    /// Reads the record stored under `pk`, if any.
    pub fn get_value(&self, schema: &Schema, pk: &RowId) -> (r: Result<
        Option<Record>,
        ExothermError,
    >)
        ensures
            match r {
                Ok(opt) => {
                    &&& !(self.tenant is Unset)
                    &&& match opt {
                        None => spec_get(self.kvs@, row_key_bytes(self.tenant, schema.table@, pk@))
                            is None,
                        Some(rec) => {
                            &&& spec_get(
                                self.kvs@,
                                row_key_bytes(self.tenant, schema.table@, pk@),
                            ) matches Some(ob)
                            &&& spec_decode_row(ob) == Some(rec@)
                            &&& crate::record::spec_accepts(schema.fields@, rec@)
                        },
                    }
                },
                Err(e) => match e {
                    ExothermError::TenantError => self.tenant is Unset,
                    ExothermError::Serialization => !(self.tenant is Unset) && (spec_get(
                        self.kvs@,
                        row_key_bytes(self.tenant, schema.table@, pk@),
                    ) matches Some(ob) && spec_decode_row(ob) is None),
                    ExothermError::RowDecode(_) => !(self.tenant is Unset) && (spec_get(
                        self.kvs@,
                        row_key_bytes(self.tenant, schema.table@, pk@),
                    ) matches Some(ob) && (spec_decode_row(ob) matches Some(vals)
                        && !crate::record::spec_accepts(schema.fields@, vals))),
                    _ => false,
                },
            },
    {
        if matches!(self.tenant, Tenant::Unset) {
            return Err(ExothermError::TenantError);
        }
        let ck = stamped_corpus_key(schema, pk, &self.tenant);
        match self.kvs.get(&ck) {
            None => Ok(None),
            Some(bytes) => match schema.decode(&bytes) {
                Ok(rec) => Ok(Some(rec)),
                Err(e) => Err(e),
            },
        }
    }

    /// Stores `record` under `pk`: reads the previously stored row,
    /// deletes the index entries it no longer justifies, and writes
    /// the corpus and every current index entry atomically.
    pub fn put_value(&mut self, schema: &Schema, record: &Record, pk: &RowId) -> (r: Result<
        (),
        ExothermError,
    >)
        requires
            old(self).wf(),
            schema.wf(),
            pk@.len() == 16,
        ensures
            final(self).wf(),
            final(self).tenant == old(self).tenant,
            final(self).maybe_commited == old(self).maybe_commited,
            match r {
                Ok(()) => !(old(self).tenant is Unset) && put_post(
                    old(self).kvs@,
                    final(self).kvs@,
                    schema.fields@,
                    schema.table@,
                    old(self).tenant,
                    record@,
                    pk@,
                ),
                Err(e) => final(self).kvs@ == old(self).kvs@ && ((e is TenantError && old(
                    self,
                ).tenant is Unset) || (e is Serialization && !(old(self).tenant is Unset) && (
                spec_get(
                    old(self).kvs@,
                    row_key_bytes(old(self).tenant, schema.table@, pk@),
                ) matches Some(ob) && spec_decode_row(ob) is None))),
            },
    {
        let ghost es0 = old(self).kvs@;
        if matches!(self.tenant, Tenant::Unset) {
            return Err(ExothermError::TenantError);
        }
        let ck = stamped_corpus_key(schema, pk, &self.tenant);
        let old_corpus = self.kvs.get(&ck);
        let plan = match plan_put(schema, record, pk, &self.tenant, old_corpus.as_ref()) {
            Ok(p) => p,
            Err(e) => {
                return Err(e);
            },
        };
        let ghost fields = schema.fields@;
        let ghost table = schema.table@;
        let ghost t = old(self).tenant;
        let ghost nix = spec_index_fields(fields).len() as int;
        proof {
            lemma_set_keys_distinct(fields, t, table, record@, pk@, plan.sets@);
        }
        let mut i: usize = 0;
        while i < plan.clears.len()
            invariant
                i <= plan.clears@.len(),
                self.kvs.wf(),
                self.tenant == t,
                self.maybe_commited == old(self).maybe_commited,
                forall|k: Seq<u8>|
                    #[trigger] spec_get(self.kvs@, k) == (if (exists|u: int|
                        0 <= u < i && (#[trigger] plan.clears@[u])@ == k) {
                        None::<Seq<u8>>
                    } else {
                        spec_get(es0, k)
                    }),
            decreases plan.clears@.len() - i,
        {
            let ghost pre = self.kvs@;
            self.kvs.clear(&plan.clears[i]);
            proof {
                assert forall|k: Seq<u8>| #[trigger] spec_get(self.kvs@, k) == (if (exists|u: int|
                    0 <= u < i + 1 && (#[trigger] plan.clears@[u])@ == k) {
                    None::<Seq<u8>>
                } else {
                    spec_get(es0, k)
                }) by {
                    crate::kvs::lemma_remove_get(pre, plan.clears@[i as int]@, k);
                }
            }
            i += 1;
        }
        let ghost mid = self.kvs@;
        let mut i: usize = 0;
        while i < plan.sets.len()
            invariant
                i <= plan.sets@.len(),
                self.kvs.wf(),
                self.tenant == t,
                self.maybe_commited == old(self).maybe_commited,
                forall|a: int, b: int| 0 <= a < b < plan.sets@.len() ==> (
                #[trigger] plan.sets@[a]).0@ != (#[trigger] plan.sets@[b]).0@,
                forall|u: int|
                    0 <= u < i ==> spec_get(self.kvs@, (#[trigger] plan.sets@[u]).0@) == Some(
                        plan.sets@[u].1@,
                    ),
                forall|k: Seq<u8>|
                    !(exists|u: int| 0 <= u < i && (#[trigger] plan.sets@[u]).0@ == k)
                        ==> #[trigger] spec_get(self.kvs@, k) == spec_get(mid, k),
            decreases plan.sets@.len() - i,
        {
            let ghost pre = self.kvs@;
            let kb = copy_bytes(&plan.sets[i].0);
            let vb = copy_bytes(&plan.sets[i].1);
            self.kvs.set(kb, vb);
            proof {
                assert forall|u: int|
                    0 <= u < i + 1 implies spec_get(self.kvs@, (#[trigger] plan.sets@[u]).0@)
                    == Some(plan.sets@[u].1@) by {
                    crate::kvs::lemma_set_get(
                        pre,
                        plan.sets@[i as int].0@,
                        plan.sets@[i as int].1@,
                        plan.sets@[u].0@,
                    );
                }
                assert forall|k: Seq<u8>|
                    !(exists|u: int| 0 <= u < i + 1 && (#[trigger] plan.sets@[u]).0@ == k)
                        implies #[trigger] spec_get(self.kvs@, k) == spec_get(mid, k) by {
                    crate::kvs::lemma_set_get(
                        pre,
                        plan.sets@[i as int].0@,
                        plan.sets@[i as int].1@,
                        k,
                    );
                }
            }
            i += 1;
        }
        proof {
            let es1 = self.kvs@;
            let ck_b = row_key_bytes(t, table, pk@);
            assert(spec_get(es1, ck_b) == Some(spec_encode_row(record@)));
            assert forall|ii: int|
                0 <= ii < nix implies spec_get(
                es1,
                #[trigger] ith_index_key(fields, t, table, record@, pk@, ii),
            ) == Some(pk@) by {
                assert(plan.sets@[ii].0@ == ith_index_key(fields, t, table, record@, pk@, ii));
            }
            match spec_get(es0, ck_b) {
                None => {
                    assert forall|k: Seq<u8>|
                        k != ck_b && !is_index_key_of(fields, t, table, record@, pk@, k)
                            implies #[trigger] spec_get(es1, k) == spec_get(es0, k) by {
                        if exists|u: int|
                            0 <= u < plan.sets@.len() && (#[trigger] plan.sets@[u]).0@ == k {
                            let u = choose|u: int|
                                0 <= u < plan.sets@.len() && (#[trigger] plan.sets@[u]).0@ == k;
                            if u < nix {
                                assert(k == ith_index_key(fields, t, table, record@, pk@, u));
                            }
                            assert(false);
                        }
                        assert(spec_get(es1, k) == spec_get(mid, k));
                        assert(spec_get(mid, k) == spec_get(es0, k));
                    }
                },
                Some(ob) => {
                    let ov = spec_decode_row(ob)->Some_0;
                    assert forall|j: int|
                        0 <= j < nix && !is_index_key_of(
                            fields,
                            t,
                            table,
                            record@,
                            pk@,
                            #[trigger] ith_index_key(fields, t, table, ov, pk@, j),
                        ) implies spec_get(es1, ith_index_key(fields, t, table, ov, pk@, j))
                        is None by {
                        let target = ith_index_key(fields, t, table, ov, pk@, j);
                        let fj = spec_index_fields(fields)[j];
                        lemma_row_key_not_index_key(
                            t,
                            table,
                            fj.number,
                            to_idx_val(value_at(ov, fj.number)),
                            pk@,
                            pk@,
                        );
                        if exists|u: int|
                            0 <= u < plan.sets@.len() && (#[trigger] plan.sets@[u]).0@ == target {
                            let u = choose|u: int|
                                0 <= u < plan.sets@.len() && (#[trigger] plan.sets@[u]).0@
                                    == target;
                            if u < nix {
                                assert(target == ith_index_key(
                                    fields,
                                    t,
                                    table,
                                    record@,
                                    pk@,
                                    u,
                                ));
                            }
                            assert(false);
                        }
                        assert(spec_get(es1, target) == spec_get(mid, target));
                        assert(exists|u: int|
                            0 <= u < plan.clears@.len() && (#[trigger] plan.clears@[u])@
                                == target);
                        assert(spec_get(mid, target) is None);
                    }
                    assert forall|k: Seq<u8>|
                        k != ck_b && !is_index_key_of(fields, t, table, record@, pk@, k)
                            && !is_index_key_of(fields, t, table, ov, pk@, k) implies #[trigger] spec_get(
                        es1,
                        k,
                    ) == spec_get(es0, k) by {
                        if exists|u: int|
                            0 <= u < plan.sets@.len() && (#[trigger] plan.sets@[u]).0@ == k {
                            let u = choose|u: int|
                                0 <= u < plan.sets@.len() && (#[trigger] plan.sets@[u]).0@ == k;
                            if u < nix {
                                assert(k == ith_index_key(fields, t, table, record@, pk@, u));
                            }
                            assert(false);
                        }
                        assert(spec_get(es1, k) == spec_get(mid, k));
                        if exists|u: int|
                            0 <= u < plan.clears@.len() && (#[trigger] plan.clears@[u])@ == k {
                            let u = choose|u: int|
                                0 <= u < plan.clears@.len() && (#[trigger] plan.clears@[u])@ == k;
                            assert(is_index_key_of(fields, t, table, ov, pk@, k));
                            assert(false);
                        }
                        assert(spec_get(mid, k) == spec_get(es0, k));
                    }
                },
            }
        }
        Ok(())
    }
}

/// One page of an index scan holds at most this many entries.
pub const PAGE_LIMIT: usize = 5000;

/// A byte range left to scan: the continuation handed back with a
/// truncated page.
#[derive(Debug)]
pub struct QueryRange {
    pub from: Vec<u8>,
    pub to: Vec<u8>,
}

/// One page of an index scan: the row ids found, the bytes moved to
/// find them, and the range still to scan if the page was full.
#[derive(Debug)]
pub struct PageResult {
    pub ids: Vec<RowId>,
    pub used_bandwidth: usize,
    pub next: Option<QueryRange>,
}

/// The key and value bytes a list of entries moves.
pub open spec fn bw_sum(es: Seq<(Seq<u8>, Seq<u8>)>) -> nat
    decreases es.len(),
{
    if es.len() == 0 {
        0
    } else {
        (bw_sum(es.drop_last()) + es.last().0.len() + es.last().1.len()) as nat
    }
}

/// The entries one page returns: the in-range entries in scan order,
/// cut off at the page limit.
pub open spec fn page_entries(
    es: Seq<(Seq<u8>, Seq<u8>)>,
    fromb: Seq<u8>,
    tob: Seq<u8>,
    reverse: bool,
) -> Seq<(Seq<u8>, Seq<u8>)> {
    let sel = crate::kvs::spec_range(es, fromb, tob);
    let ordered = if reverse {
        sel.reverse()
    } else {
        sel
    };
    ordered.take(
        if PAGE_LIMIT as int <= ordered.len() {
            PAGE_LIMIT as int
        } else {
            ordered.len() as int
        },
    )
}

/// What a returned page says: one id per in-page entry, read from the
/// entry's payload; the bandwidth, saturating at the machine limit;
/// and a continuation exactly when a forward scan filled the page.
/// A reverse scan never carries a continuation: an inclusive byte
/// range cannot name "everything strictly below" the last key read.
pub open spec fn page_ok(
    es: Seq<(Seq<u8>, Seq<u8>)>,
    fromb: Seq<u8>,
    tob: Seq<u8>,
    reverse: bool,
    page: PageResult,
) -> bool {
    let lim = page_entries(es, fromb, tob, reverse);
    &&& page.ids@.len() == lim.len()
    &&& forall|i: int| 0 <= i < lim.len() ==> (#[trigger] page.ids@[i])@ == lim[i].1
    &&& page.used_bandwidth as nat == (if bw_sum(lim) <= usize::MAX as nat {
        bw_sum(lim)
    } else {
        usize::MAX as nat
    })
    &&& match page.next {
        None => reverse || lim.len() < PAGE_LIMIT,
        Some(qr) => !reverse && lim.len() == PAGE_LIMIT && qr.from@ == lim.last().0 + seq![0u8]
            && qr.to@ == tob,
    }
}

/// What parsing one page of scanned entries yields: one id per entry,
/// read from the entry's payload; the bandwidth, saturating at the
/// machine limit; and a continuation exactly when a forward scan
/// filled the page.
pub open spec fn page_parse_ok(
    es: Seq<(Seq<u8>, Seq<u8>)>,
    tob: Seq<u8>,
    reverse: bool,
    page: PageResult,
) -> bool {
    &&& page.ids@.len() == es.len()
    &&& forall|i: int| 0 <= i < es.len() ==> (#[trigger] page.ids@[i])@ == es[i].1
    &&& page.used_bandwidth as nat == (if bw_sum(es) <= usize::MAX as nat {
        bw_sum(es)
    } else {
        usize::MAX as nat
    })
    &&& match page.next {
        None => reverse || es.len() < PAGE_LIMIT,
        Some(qr) => !reverse && es.len() == PAGE_LIMIT && qr.from@ == es.last().0 + seq![0u8]
            && qr.to@ == tob,
    }
}

/// Some scanned entry does not carry a 16-byte row id.
pub open spec fn entries_have_bad_id(es: Seq<(Seq<u8>, Seq<u8>)>) -> bool {
    exists|i: int| 0 <= i < es.len() && (#[trigger] es[i]).1.len() != 16
}

/// Turns one page of scanned entries into a page result: reads a row
/// id out of every entry, sums the bytes moved, and hands back the
/// range still to scan when a forward page came back full.
#[verifier::loop_isolation(false)]
pub fn parse_page(entries: &Vec<(Vec<u8>, Vec<u8>)>, to: &Vec<u8>, reverse: bool) -> (r: Result<
    PageResult,
    ExothermError,
>)
    requires
        entries@.len() <= PAGE_LIMIT,
    ensures
        match r {
            Ok(page) => page_parse_ok(kv_views(entries@), to@, reverse, page),
            Err(e) => e is UuidParse && entries_have_bad_id(kv_views(entries@)),
        },
{
    let ghost es = kv_views(entries@);
    let mut ids: Vec<RowId> = Vec::new();
    let mut bw: usize = 0;
    let mut i: usize = 0;
    proof {
        assert(es.take(0int) =~= Seq::<(Seq<u8>, Seq<u8>)>::empty());
    }
    while i < entries.len()
        invariant
            i <= entries@.len(),
            ids@.len() == i,
            forall|u: int| 0 <= u < i ==> (#[trigger] ids@[u])@ == es[u].1,
            bw as nat == (if bw_sum(es.take(i as int)) <= usize::MAX as nat {
                bw_sum(es.take(i as int))
            } else {
                usize::MAX as nat
            }),
        decreases entries@.len() - i,
    {
        proof {
            assert(es[i as int] == (entries@[i as int].0@, entries@[i as int].1@));
            assert(es.take(i + 1).drop_last() =~= es.take(i as int));
            assert(es.take(i + 1).last() == es[i as int]);
        }
        let klen = entries[i].0.len();
        let vlen = entries[i].1.len();
        bw = sat_add(sat_add(bw, klen), vlen);
        match RowId::from_slice(&entries[i].1) {
            Ok(id) => {
                ids.push(id);
            },
            Err(e) => {
                proof {
                    assert(es[i as int].1.len() != 16);
                }
                return Err(e);
            },
        }
        i += 1;
    }
    proof {
        assert(es.take(es.len() as int) =~= es);
    }
    let next = if !reverse && entries.len() == PAGE_LIMIT {
        let lastpos = entries.len() - 1;
        let mut nf = copy_bytes(&entries[lastpos].0);
        nf.push(0);
        proof {
            assert(es.last() == (entries@[lastpos as int].0@, entries@[lastpos as int].1@));
            assert(nf@ =~= es.last().0 + seq![0u8]);
        }
        Some(QueryRange { from: nf, to: copy_bytes(to) })
    } else {
        None
    };
    Ok(PageResult { ids, used_bandwidth: bw, next })
}

/// The `i`-th entry of the page exists but does not carry a 16-byte
/// row id.
pub open spec fn page_has_bad_id(
    es: Seq<(Seq<u8>, Seq<u8>)>,
    fromb: Seq<u8>,
    tob: Seq<u8>,
    reverse: bool,
    i: int,
) -> bool {
    let lim = page_entries(es, fromb, tob, reverse);
    0 <= i < lim.len() && lim[i].1.len() != 16
}

/// Adds without overflowing: the sum, or the machine limit.
fn sat_add(a: usize, b: usize) -> (r: usize)
    ensures
        r as nat == (if a + b <= usize::MAX as nat {
            (a + b) as nat
        } else {
            usize::MAX as nat
        }),
{
    if b > usize::MAX - a {
        usize::MAX
    } else {
        a + b
    }
}

/// `tenant_like` carries across a chain.
pub proof fn lemma_tenant_like_trans(a: Tenant, b: Tenant, c: Tenant)
    requires
        tenant_like(a, b),
        tenant_like(b, c),
    ensures
        tenant_like(a, c),
{
}

/// A compiled range serves any tenant of the same domain.
pub proof fn lemma_query_range_ok_tenant(q: Query, t1: Tenant, t2: Tenant, rng: Range)
    requires
        query_range_ok(q, t1, rng),
        tenant_like(t1, t2),
        t1 is Unset <==> t2 is Unset,
    ensures
        query_range_ok(q, t2, rng),
{
    lemma_tenant_like_trans(rng.0.tenant, t1, t2);
    lemma_tenant_like_trans(rng.1.tenant, t1, t2);
    match q {
        Query::Equal(k) => {},
        Query::Between(k1, k2) => {},
        Query::Gt(k) => {
            if k.purpose is Index {
                let col = k.purpose->Index_0;
                let v = k.purpose->Index_1;
                let hi = choose|hi: IdxVal|
                    #[trigger] is_high_bound(v@, hi) && endpoint_at(
                        rng.1,
                        t1,
                        k.table@,
                        col,
                        hi,
                        repeat_byte(0xff, 16),
                    );
                assert(is_high_bound(v@, hi) && endpoint_at(
                    rng.1,
                    t2,
                    k.table@,
                    col,
                    hi,
                    repeat_byte(0xff, 16),
                ));
            }
        },
        Query::Lt(k) => {
            if k.purpose is Index {
                let col = k.purpose->Index_0;
                let v = k.purpose->Index_1;
                let lo = choose|lo: IdxVal|
                    #[trigger] is_low_bound(v@, lo) && endpoint_at(
                        rng.0,
                        t1,
                        k.table@,
                        col,
                        lo,
                        repeat_byte(0, 16),
                    );
                assert(is_low_bound(v@, lo) && endpoint_at(
                    rng.0,
                    t2,
                    k.table@,
                    col,
                    lo,
                    repeat_byte(0, 16),
                ));
            }
        },
        Query::WantAll(k) => {
            if k.purpose is Index {
                let col = k.purpose->Index_0;
                let v = k.purpose->Index_1;
                let lo = choose|lo: IdxVal|
                    #[trigger] is_low_bound(v@, lo) && endpoint_at(
                        rng.0,
                        t1,
                        k.table@,
                        col,
                        lo,
                        repeat_byte(0, 16),
                    );
                assert(is_low_bound(v@, lo) && endpoint_at(
                    rng.0,
                    t2,
                    k.table@,
                    col,
                    lo,
                    repeat_byte(0, 16),
                ));
                let hi = choose|hi: IdxVal|
                    #[trigger] is_high_bound(v@, hi) && endpoint_at(
                        rng.1,
                        t1,
                        k.table@,
                        col,
                        hi,
                        repeat_byte(0xff, 16),
                    );
                assert(is_high_bound(v@, hi) && endpoint_at(
                    rng.1,
                    t2,
                    k.table@,
                    col,
                    hi,
                    repeat_byte(0xff, 16),
                ));
            }
        },
    }
}

impl STransaction {
    /// Deletes the row stored under `pk` and every index entry it
    /// justifies.  Hands back whether a row was there.
    pub fn clear_value(&mut self, schema: &Schema, pk: &RowId) -> (r: Result<bool, ExothermError>)
        requires
            old(self).wf(),
        ensures
            final(self).wf(),
            final(self).tenant == old(self).tenant,
            final(self).maybe_commited == old(self).maybe_commited,
            match r {
                Ok(found) => {
                    let ck = row_key_bytes(old(self).tenant, schema.table@, pk@);
                    &&& !(old(self).tenant is Unset)
                    &&& if found {
                        spec_get(old(self).kvs@, ck) matches Some(ob) && (spec_decode_row(ob)
                            matches Some(ov) && clear_post(
                            old(self).kvs@,
                            final(self).kvs@,
                            schema.fields@,
                            schema.table@,
                            old(self).tenant,
                            ov,
                            pk@,
                        ))
                    } else {
                        spec_get(old(self).kvs@, ck) is None && final(self).kvs@ == old(
                            self,
                        ).kvs@
                    }
                },
                Err(e) => final(self).kvs@ == old(self).kvs@ && ((e is TenantError && old(
                    self,
                ).tenant is Unset) || (e is Serialization && !(old(self).tenant is Unset) && (
                spec_get(
                    old(self).kvs@,
                    row_key_bytes(old(self).tenant, schema.table@, pk@),
                ) matches Some(ob) && spec_decode_row(ob) is None))),
            },
    {
        let ghost es0 = old(self).kvs@;
        if matches!(self.tenant, Tenant::Unset) {
            return Err(ExothermError::TenantError);
        }
        let ck = stamped_corpus_key(schema, pk, &self.tenant);
        let old_corpus = match self.kvs.get(&ck) {
            None => {
                return Ok(false);
            },
            Some(b) => b,
        };
        let clears = match plan_clear(schema, pk, &self.tenant, &old_corpus) {
            Ok(c) => c,
            Err(e) => {
                return Err(e);
            },
        };
        let ghost fields = schema.fields@;
        let ghost table = schema.table@;
        let ghost t = old(self).tenant;
        let ghost nix = spec_index_fields(fields).len() as int;
        let ghost ov = spec_decode_row(old_corpus@)->Some_0;
        let mut i: usize = 0;
        while i < clears.len()
            invariant
                i <= clears@.len(),
                self.kvs.wf(),
                self.tenant == t,
                self.maybe_commited == old(self).maybe_commited,
                forall|k: Seq<u8>|
                    #[trigger] spec_get(self.kvs@, k) == (if (exists|u: int|
                        0 <= u < i && (#[trigger] clears@[u])@ == k) {
                        None::<Seq<u8>>
                    } else {
                        spec_get(es0, k)
                    }),
            decreases clears@.len() - i,
        {
            let ghost pre = self.kvs@;
            self.kvs.clear(&clears[i]);
            proof {
                assert forall|k: Seq<u8>| #[trigger] spec_get(self.kvs@, k) == (if (exists|u: int|
                    0 <= u < i + 1 && (#[trigger] clears@[u])@ == k) {
                    None::<Seq<u8>>
                } else {
                    spec_get(es0, k)
                }) by {
                    crate::kvs::lemma_remove_get(pre, clears@[i as int]@, k);
                }
            }
            i += 1;
        }
        proof {
            let es1 = self.kvs@;
            let ck_b = row_key_bytes(t, table, pk@);
            assert(clears@[nix]@ == ck_b);
            assert(spec_get(es1, ck_b) is None);
            assert forall|j: int|
                0 <= j < nix implies spec_get(
                es1,
                #[trigger] ith_index_key(fields, t, table, ov, pk@, j),
            ) is None by {
                assert(clears@[j]@ == ith_index_key(fields, t, table, ov, pk@, j));
            }
            assert forall|k: Seq<u8>|
                k != ck_b && !is_index_key_of(fields, t, table, ov, pk@, k)
                    implies #[trigger] spec_get(es1, k) == spec_get(es0, k) by {
                if exists|u: int| 0 <= u < clears@.len() && (#[trigger] clears@[u])@ == k {
                    let u = choose|u: int|
                        0 <= u < clears@.len() && (#[trigger] clears@[u])@ == k;
                    if u < nix {
                        assert(k == ith_index_key(fields, t, table, ov, pk@, u));
                    }
                    assert(false);
                }
            }
        }
        Ok(true)
    }

    /// Runs an index query: compiles the range, scans one page, and
    /// reads a row id out of every entry found.
    pub fn query_index(&self, query: Query, reverse: bool) -> (r: Result<
        PageResult,
        ExothermError,
    >)
        ensures
            match r {
                Ok(page) => !(self.tenant is Unset) && exists|rng: Range|
                    #[trigger] query_range_ok(query, self.tenant, rng) && page_ok(
                        self.kvs@,
                        crate::key::spec_generate(rng.0),
                        crate::key::spec_generate(rng.1),
                        reverse,
                        page,
                    ),
                Err(e) => match e {
                    ExothermError::TenantError => self.tenant is Unset,
                    ExothermError::IndexKeyError => query_compile_err(query, e),
                    ExothermError::UnequalColumns => query_compile_err(query, e),
                    ExothermError::UuidParse => !(self.tenant is Unset) && exists|rng: Range|
                        #[trigger] query_range_ok(query, self.tenant, rng) && exists|i: int|
                            #[trigger] page_has_bad_id(
                                self.kvs@,
                                crate::key::spec_generate(rng.0),
                                crate::key::spec_generate(rng.1),
                                reverse,
                                i,
                            ),
                    _ => false,
                },
            },
    {
        let stamped = self.tenant.duplicate();
        let ghost tdup = stamped;
        let rng = match query.into_range(stamped) {
            Ok(rng) => rng,
            Err(e) => {
                return Err(e);
            },
        };
        proof {
            lemma_query_range_ok_tenant(query, tdup, self.tenant, rng);
        }
        let from = match rng.0.generate() {
            Ok(b) => b,
            Err(e) => {
                return Err(e);
            },
        };
        let to = match rng.1.generate() {
            Ok(b) => b,
            Err(e) => {
                proof {
                    assert(false);
                }
                return Err(e);
            },
        };
        let entries = self.kvs.get_range(&from, &to, PAGE_LIMIT, reverse);
        let ghost lim = page_entries(self.kvs@, from@, to@, reverse);
        proof {
            assert(crate::kvs::kv_views(entries@) == lim);
        }
        match parse_page(&entries, &to, reverse) {
            Ok(page) => {
                proof {
                    assert(page_ok(self.kvs@, from@, to@, reverse, page));
                    assert(query_range_ok(query, self.tenant, rng) && page_ok(
                        self.kvs@,
                        crate::key::spec_generate(rng.0),
                        crate::key::spec_generate(rng.1),
                        reverse,
                        page,
                    ));
                }
                Ok(page)
            },
            Err(e) => {
                proof {
                    let i = choose|i: int| 0 <= i < lim.len() && (#[trigger] lim[i]).1.len() != 16;
                    assert(page_has_bad_id(
                        self.kvs@,
                        crate::key::spec_generate(rng.0),
                        crate::key::spec_generate(rng.1),
                        reverse,
                        i,
                    ));
                }
                Err(e)
            },
        }
    }
}

/// An index key lies between the two sentinel-row endpoints of its
/// own (tenant, table, column, value) family: the row id suffix has
/// fixed width, and the all-zero and all-ones ids bracket every id.
pub proof fn lemma_index_key_bracketed(
    t: Tenant,
    table: Seq<u8>,
    col: u16,
    v: IdxVal,
    row: Seq<u8>,
)
    requires
        row.len() == 16,
    ensures
        crate::byteorder::lex_leq(
            index_key_bytes(t, table, col, v, repeat_byte(0, 16)),
            index_key_bytes(t, table, col, v, row),
        ),
        crate::byteorder::lex_leq(
            index_key_bytes(t, table, col, v, row),
            index_key_bytes(t, table, col, v, repeat_byte(0xff, 16)),
        ),
{
    let tb = crate::key::tenant_bytes(t);
    let pb = crate::key::index_purpose_bytes(col, v);
    let base = crate::key::key_base(tb, table) + pb + seq![0u8];
    crate::key::lemma_key_bytes_shape(tb, table, pb, repeat_byte(0, 16));
    crate::key::lemma_key_bytes_shape(tb, table, pb, row);
    crate::key::lemma_key_bytes_shape(tb, table, pb, repeat_byte(0xff, 16));
    assert(index_key_bytes(t, table, col, v, repeat_byte(0, 16)) =~= base + repeat_byte(0, 16));
    assert(index_key_bytes(t, table, col, v, row) =~= base + row);
    assert(index_key_bytes(t, table, col, v, repeat_byte(0xff, 16)) =~= base + repeat_byte(
        0xff,
        16,
    ));
    crate::byteorder::lemma_lex_zero_low(row);
    crate::byteorder::lemma_lex_ff_high(row);
    crate::byteorder::lemma_lex_common_prefix(base, repeat_byte(0, 16), row);
    crate::byteorder::lemma_lex_common_prefix(base, row, repeat_byte(0xff, 16));
    assert(repeat_byte(0, 16).len() == row.len());
    assert(repeat_byte(0, row.len()) == repeat_byte(0, 16));
    assert(repeat_byte(0xff, row.len()) == repeat_byte(0xff, 16));
}

/// The record read back before the next operation on a stored row is
/// the record the store wrote.
pub proof fn lemma_put_then_decode(
    es0: Seq<(Seq<u8>, Seq<u8>)>,
    es1: Seq<(Seq<u8>, Seq<u8>)>,
    fields: Seq<FieldDef>,
    table: Seq<u8>,
    t: Tenant,
    vals: Seq<DbVal>,
    row: Seq<u8>,
)
    requires
        put_post(es0, es1, fields, table, t, vals, row),
        crate::record::rec_fits(vals),
    ensures
        spec_get(es1, row_key_bytes(t, table, row)) == Some(spec_encode_row(vals)),
        spec_decode_row(spec_encode_row(vals)) == Some(vals),
{
    crate::corpus::lemma_decode_encode_row(vals);
}

/// Index consistency after a store: the index entry of each indexed
/// field is in the store under the row's id, and it lies inside the
/// byte range an equality query on the field's current value compiles
/// to — the scan that serves the query passes over it.
pub proof fn lemma_put_establishes_index(
    es0: Seq<(Seq<u8>, Seq<u8>)>,
    es1: Seq<(Seq<u8>, Seq<u8>)>,
    fields: Seq<FieldDef>,
    table: Seq<u8>,
    t: Tenant,
    vals: Seq<DbVal>,
    row: Seq<u8>,
    i: int,
)
    requires
        crate::kvs::sorted(es1),
        put_post(es0, es1, fields, table, t, vals, row),
        0 <= i < spec_index_fields(fields).len(),
        row.len() == 16,
    ensures
        ({
            let f = spec_index_fields(fields)[i];
            let v = to_idx_val(value_at(vals, f.number));
            let ik = index_key_bytes(t, table, f.number, v, row);
            let lo = index_key_bytes(t, table, f.number, v, repeat_byte(0, 16));
            let hi = index_key_bytes(t, table, f.number, v, repeat_byte(0xff, 16));
            spec_get(es1, ik) == Some(row) && crate::kvs::spec_range(es1, lo, hi).contains(
                (ik, row),
            )
        }),
{
    let f = spec_index_fields(fields)[i];
    let v = to_idx_val(value_at(vals, f.number));
    let ik = index_key_bytes(t, table, f.number, v, row);
    let lo = index_key_bytes(t, table, f.number, v, repeat_byte(0, 16));
    let hi = index_key_bytes(t, table, f.number, v, repeat_byte(0xff, 16));
    assert(ik == ith_index_key(fields, t, table, vals, row, i));
    assert(spec_get(es1, ik) == Some(row));
    lemma_index_key_bracketed(t, table, f.number, v, row);
    crate::kvs::lemma_range_contains(es1, lo, hi, ik, row);
}

/// Index consistency, seen through a query: a forward equality query
/// on any indexed field of a just-stored record hands back a page
/// holding the stored row id, provided the family's entries fit one
/// page.
pub proof fn lemma_put_then_query_equal(
    es0: Seq<(Seq<u8>, Seq<u8>)>,
    es1: Seq<(Seq<u8>, Seq<u8>)>,
    fields: Seq<FieldDef>,
    table: Seq<u8>,
    t: Tenant,
    vals: Seq<DbVal>,
    row: Seq<u8>,
    i: int,
    page: PageResult,
)
    requires
        crate::kvs::sorted(es1),
        put_post(es0, es1, fields, table, t, vals, row),
        0 <= i < spec_index_fields(fields).len(),
        row.len() == 16,
        ({
            let f = spec_index_fields(fields)[i];
            let v = to_idx_val(value_at(vals, f.number));
            let lo = index_key_bytes(t, table, f.number, v, repeat_byte(0, 16));
            let hi = index_key_bytes(t, table, f.number, v, repeat_byte(0xff, 16));
            page_ok(es1, lo, hi, false, page) && crate::kvs::spec_range(es1, lo, hi).len()
                <= PAGE_LIMIT
        }),
    ensures
        exists|j: int| 0 <= j < page.ids@.len() && (#[trigger] page.ids@[j])@ == row,
{
    let f = spec_index_fields(fields)[i];
    let v = to_idx_val(value_at(vals, f.number));
    let ik = index_key_bytes(t, table, f.number, v, row);
    let lo = index_key_bytes(t, table, f.number, v, repeat_byte(0, 16));
    let hi = index_key_bytes(t, table, f.number, v, repeat_byte(0xff, 16));
    lemma_put_establishes_index(es0, es1, fields, table, t, vals, row, i);
    let sel = crate::kvs::spec_range(es1, lo, hi);
    let lim = page_entries(es1, lo, hi, false);
    assert(lim =~= sel);
    let j = choose|j: int| 0 <= j < sel.len() && sel[j] == (ik, row);
    assert(page.ids@[j]@ == lim[j].1);
    assert(page.ids@[j]@ == row);
}

/// No stale index after an update: storing a second record for the
/// same row whose value on an indexed field differs (within the
/// field's kind) removes the first value's index entry.
pub proof fn lemma_update_clears_stale_index(
    es0: Seq<(Seq<u8>, Seq<u8>)>,
    es1: Seq<(Seq<u8>, Seq<u8>)>,
    es2: Seq<(Seq<u8>, Seq<u8>)>,
    fields: Seq<FieldDef>,
    table: Seq<u8>,
    t: Tenant,
    v1: Seq<DbVal>,
    v2: Seq<DbVal>,
    row: Seq<u8>,
    i: int,
)
    requires
        put_post(es0, es1, fields, table, t, v1, row),
        put_post(es1, es2, fields, table, t, v2, row),
        crate::record::rec_fits(v1),
        row.len() == 16,
        0 <= i < spec_index_fields(fields).len(),
        forall|a: int, b: int|
            0 <= a < b < fields.len() ==> (#[trigger] fields[a]).number != (
            #[trigger] fields[b]).number,
        crate::values_indices::same_kind(
            to_idx_val(value_at(v1, spec_index_fields(fields)[i].number)),
            to_idx_val(value_at(v2, spec_index_fields(fields)[i].number)),
        ),
        to_idx_val(value_at(v1, spec_index_fields(fields)[i].number)) != to_idx_val(
            value_at(v2, spec_index_fields(fields)[i].number),
        ),
    ensures
        spec_get(es2, ith_index_key(fields, t, table, v1, row, i)) is None,
{
    let ck = row_key_bytes(t, table, row);
    lemma_put_then_decode(es0, es1, fields, table, t, v1, row);
    let ik1 = ith_index_key(fields, t, table, v1, row, i);
    let f = spec_index_fields(fields)[i];
    let val1 = to_idx_val(value_at(v1, f.number));
    let val2 = to_idx_val(value_at(v2, f.number));
    if is_index_key_of(fields, t, table, v2, row, ik1) {
        let j = choose|j: int|
            0 <= j < spec_index_fields(fields).len() && ik1 == ith_index_key(
                fields,
                t,
                table,
                v2,
                row,
                j,
            );
        let g = spec_index_fields(fields)[j];
        crate::key::lemma_index_key_injective(
            t,
            table,
            f.number,
            val1,
            row,
            g.number,
            to_idx_val(value_at(v2, g.number)),
            row,
        );
        assert(f.number == g.number);
        if i != j {
            if i < j {
                lemma_index_fields_distinct(fields, i, j);
            } else {
                lemma_index_fields_distinct(fields, j, i);
            }
        }
        assert(j == i);
        crate::values_indices::lemma_value_bytes_injective(val1, val2);
        assert(false);
    }
    assert(spec_decode_row(spec_encode_row(v1)) == Some(v1));
    assert(spec_get(es2, ith_index_key(fields, t, table, v1, row, i)) is None);
}

/// Clearing removes everything a store left: after a row is stored
/// and then cleared, neither its corpus nor any of its index entries
/// remain, and nothing else moved.
pub proof fn lemma_clear_removes_all(
    es0: Seq<(Seq<u8>, Seq<u8>)>,
    es1: Seq<(Seq<u8>, Seq<u8>)>,
    es2: Seq<(Seq<u8>, Seq<u8>)>,
    fields: Seq<FieldDef>,
    table: Seq<u8>,
    t: Tenant,
    vals: Seq<DbVal>,
    row: Seq<u8>,
)
    requires
        put_post(es0, es1, fields, table, t, vals, row),
        crate::record::rec_fits(vals),
        clear_post(es1, es2, fields, table, t, vals, row),
    ensures
        spec_get(es2, row_key_bytes(t, table, row)) is None,
        forall|i: int|
            0 <= i < spec_index_fields(fields).len() ==> spec_get(
                es2,
                #[trigger] ith_index_key(fields, t, table, vals, row, i),
            ) is None,
        forall|k: Seq<u8>|
            k != row_key_bytes(t, table, row) && !is_index_key_of(fields, t, table, vals, row, k)
                ==> #[trigger] spec_get(es2, k) == spec_get(es1, k),
{
}

/// Idempotence under retry: running the same store twice leaves
/// every key reading exactly as it read after the first run.
pub proof fn lemma_put_idempotent(
    es0: Seq<(Seq<u8>, Seq<u8>)>,
    es1: Seq<(Seq<u8>, Seq<u8>)>,
    es2: Seq<(Seq<u8>, Seq<u8>)>,
    fields: Seq<FieldDef>,
    table: Seq<u8>,
    t: Tenant,
    vals: Seq<DbVal>,
    row: Seq<u8>,
    k: Seq<u8>,
)
    requires
        put_post(es0, es1, fields, table, t, vals, row),
        put_post(es1, es2, fields, table, t, vals, row),
        crate::record::rec_fits(vals),
    ensures
        spec_get(es2, k) == spec_get(es1, k),
{
    let ck = row_key_bytes(t, table, row);
    lemma_put_then_decode(es0, es1, fields, table, t, vals, row);
    if k == ck {
    } else if is_index_key_of(fields, t, table, vals, row, k) {
        let i = choose|i: int|
            0 <= i < spec_index_fields(fields).len() && k == ith_index_key(
                fields,
                t,
                table,
                vals,
                row,
                i,
            );
        assert(spec_get(es1, k) == Some(row));
        assert(spec_get(es2, k) == Some(row));
    } else {
        assert(spec_get(es2, k) == spec_get(es1, k));
    }
}

/// Idempotence under retry, as state identity: with the stores
/// sorted, rerunning the same store reproduces the state exactly.
pub proof fn lemma_put_idempotent_state(
    es0: Seq<(Seq<u8>, Seq<u8>)>,
    es1: Seq<(Seq<u8>, Seq<u8>)>,
    es2: Seq<(Seq<u8>, Seq<u8>)>,
    fields: Seq<FieldDef>,
    table: Seq<u8>,
    t: Tenant,
    vals: Seq<DbVal>,
    row: Seq<u8>,
)
    requires
        crate::kvs::sorted(es1),
        crate::kvs::sorted(es2),
        put_post(es0, es1, fields, table, t, vals, row),
        put_post(es1, es2, fields, table, t, vals, row),
        crate::record::rec_fits(vals),
    ensures
        es2 == es1,
{
    assert forall|k: Seq<u8>| #[trigger] spec_get(es2, k) == spec_get(es1, k) by {
        lemma_put_idempotent(es0, es1, es2, fields, table, t, vals, row, k);
    }
    crate::kvs::lemma_sorted_unique(es2, es1);
}

} // verus!
