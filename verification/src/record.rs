//! Schemas and records.
//!
//! A schema binds a table name to a set of field descriptors; each
//! descriptor carries a stable 16-bit field number, the field's logical
//! kind, whether the field is optional, and whether it is indexed.  A
//! record is the padded value vector of one row: position `n` holds the
//! value of the field numbered `n`, and positions no field claims hold
//! `Absent`.

use vstd::prelude::*;

use vstd::string::{StrSliceExecFns, StringSliceAdditionalSpecFns};

use crate::byteorder::{copy_bytes, pow256};
use crate::corpus::{decode_row, encode_row, row_view, spec_decode_row, spec_encode_row, val_fits};
use crate::error::{ConvertError, ExothermError};
use crate::key::{Key, Purpose, Tenant};
use crate::rowid::RowId;
use crate::values_indices::{to_idx_val, DbVal, DbValue};

verus! {

/// The logical kind a schema declares for a field.
#[derive(Debug, Clone, Copy, PartialEq, Eq, Structural)]
pub enum FieldKind {
    Bool,
    Int32,
    Int64,
    Uint32,
    Uint64,
    Float,
    Double,
    Text,
    Blob,
    Vector,
    Uuid,
    EnumOrdinal,
}

/// One field of a schema.
#[derive(Debug, Clone, Copy, PartialEq, Eq, Structural)]
pub struct FieldDef {
    /// The stable field number: the position in the value vector and
    /// the column id in index keys.
    pub number: u16,
    /// The kind every stored value of this field must have.
    pub kind: FieldKind,
    /// Whether `Absent` is accepted in place of a value.
    pub optional: bool,
    /// Whether an index entry is maintained for this field.
    pub indexed: bool,
}

/// A table's static description: its name and its fields.
#[derive(Debug, Clone)]
pub struct Schema {
    pub table: Vec<u8>,
    pub fields: Vec<FieldDef>,
}

/// Whether a value has the given logical kind.
pub open spec fn kind_matches(v: DbVal, k: FieldKind) -> bool {
    match (v, k) {
        (DbVal::Bool(_), FieldKind::Bool) => true,
        (DbVal::Int32(_), FieldKind::Int32) => true,
        (DbVal::Int64(_), FieldKind::Int64) => true,
        (DbVal::Uint32(_), FieldKind::Uint32) => true,
        (DbVal::Uint64(_), FieldKind::Uint64) => true,
        (DbVal::Float(_), FieldKind::Float) => true,
        (DbVal::Double(_), FieldKind::Double) => true,
        (DbVal::Text(_), FieldKind::Text) => true,
        (DbVal::Blob(_), FieldKind::Blob) => true,
        (DbVal::Vector(_), FieldKind::Vector) => true,
        (DbVal::Uuid(_), FieldKind::Uuid) => true,
        (DbVal::EnumOrdinal(_), FieldKind::EnumOrdinal) => true,
        _ => false,
    }
}

/// Whether a field accepts a stored value: the declared kind, or
/// `Absent` if the field is optional.
pub open spec fn field_accepts(f: FieldDef, v: DbVal) -> bool {
    kind_matches(v, f.kind) || (f.optional && v is Absent)
}

/// The value a vector holds at a field number; positions beyond the
/// vector read as `Absent`.
pub open spec fn value_at(vals: Seq<DbVal>, n: u16) -> DbVal {
    if n < vals.len() {
        vals[n as int]
    } else {
        DbVal::Absent
    }
}

/// Whether every declared field of `fields` accepts its value in
/// `vals`.
pub open spec fn spec_accepts(fields: Seq<FieldDef>, vals: Seq<DbVal>) -> bool {
    forall|i: int|
        0 <= i < fields.len() ==> field_accepts(#[trigger] fields[i], value_at(vals, fields[i].number))
}

/// Whether a value vector can be written out: its count and its
/// payloads fit the wire format's length fields.
pub open spec fn rec_fits(vals: Seq<DbVal>) -> bool {
    vals.len() < pow256(8) && (forall|i: int| 0 <= i < vals.len() ==> val_fits(#[trigger] vals[i]))
}

/// A record: the padded value vector of one row.
#[derive(Debug)]
pub struct Record {
    pub values: Vec<DbValue>,
}

impl View for Record {
    type V = Seq<DbVal>;

    open spec fn view(&self) -> Seq<DbVal> {
        row_view(self.values@)
    }
}

/// The largest index named by a pair list, or zero for an empty list.
pub open spec fn spec_max_idx(ps: Seq<(usize, DbValue)>) -> nat
    decreases ps.len(),
{
    if ps.len() == 0 {
        0
    } else if ps.last().0 >= spec_max_idx(ps.drop_last()) {
        ps.last().0 as nat
    } else {
        spec_max_idx(ps.drop_last())
    }
}

/// The value the padded vector holds at `j`: the value of the last
/// pair naming `j`, or `Absent` if no pair names it.
pub open spec fn spec_pad_at(ps: Seq<(usize, DbValue)>, j: int) -> DbVal
    decreases ps.len(),
{
    if ps.len() == 0 {
        DbVal::Absent
    } else if ps.last().0 == j {
        ps.last().1@
    } else {
        spec_pad_at(ps.drop_last(), j)
    }
}

proof fn lemma_max_idx_bound(ps: Seq<(usize, DbValue)>, i: int)
    requires
        0 <= i < ps.len(),
    ensures
        ps[i].0 <= spec_max_idx(ps),
    decreases ps.len(),
{
    if i < ps.len() - 1 {
        lemma_max_idx_bound(ps.drop_last(), i);
    }
}

/// Pads a list of (field number, value) pairs out to a dense vector:
/// position `j` holds the value of the last pair numbered `j`, every
/// unnamed position holds `Absent`, and the vector reaches exactly one
/// past the largest named number.
pub fn pad_indices(input: Vec<(usize, DbValue)>) -> (r: Vec<DbValue>)
    requires
        forall|i: int| 0 <= i < input@.len() ==> (#[trigger] input@[i].0) < 0x1_0000,
    ensures
        r@.len() == spec_max_idx(input@) + 1,
        forall|j: int| 0 <= j < r@.len() ==> r@[j]@ == spec_pad_at(input@, j),
{
    let mut max: usize = 0;
    let mut i: usize = 0;
    while i < input.len()
        invariant
            i <= input@.len(),
            max as nat == spec_max_idx(input@.take(i as int)),
            max < 0x1_0000,
            forall|j: int| 0 <= j < input@.len() ==> (#[trigger] input@[j].0) < 0x1_0000,
        decreases input@.len() - i,
    {
        proof {
            assert(input@.take(i + 1).drop_last() =~= input@.take(i as int));
            assert(input@.take(i + 1).last() == input@[i as int]);
        }
        if input[i].0 > max {
            max = input[i].0;
        }
        i += 1;
    }
    proof {
        assert(input@.take(input@.len() as int) =~= input@);
    }
    let mut r: Vec<DbValue> = Vec::new();
    let mut j: usize = 0;
    while j < max + 1
        invariant
            j <= max + 1,
            max < 0x1_0000,
            r@.len() == j,
            forall|t: int| 0 <= t < j ==> r@[t]@ == DbVal::Absent,
        decreases max + 1 - j,
    {
        r.push(DbValue::Absent);
        j += 1;
    }
    proof {
        assert forall|t: int| 0 <= t < r@.len() implies r@[t]@ == spec_pad_at(
            input@.take(0),
            t,
        ) by {
            assert(input@.take(0) =~= Seq::<(usize, DbValue)>::empty());
        }
    }
    let mut i: usize = 0;
    while i < input.len()
        invariant
            i <= input@.len(),
            r@.len() == spec_max_idx(input@) + 1,
            max as nat == spec_max_idx(input@),
            forall|j: int| 0 <= j < input@.len() ==> (#[trigger] input@[j].0) < 0x1_0000,
            forall|t: int| 0 <= t < r@.len() ==> r@[t]@ == spec_pad_at(input@.take(i as int), t),
        decreases input@.len() - i,
    {
        let idx = input[i].0;
        proof {
            lemma_max_idx_bound(input@, i as int);
        }
        let v = input[i].1.duplicate();
        r[idx] = v;
        proof {
            assert(input@.take(i + 1).drop_last() =~= input@.take(i as int));
            assert(input@.take(i + 1).last() == input@[i as int]);
            assert forall|t: int| 0 <= t < r@.len() implies r@[t]@ == spec_pad_at(
                input@.take(i + 1),
                t,
            ) by {
                if t != idx {
                    assert(spec_pad_at(input@.take(i + 1), t) == spec_pad_at(
                        input@.take(i as int),
                        t,
                    ));
                }
            }
        }
        i += 1;
    }
    proof {
        assert(input@.take(input@.len() as int) =~= input@);
    }
    r
}

impl Record {
    /// Builds the padded record from named field values.
    pub fn from_fields(input: Vec<(usize, DbValue)>) -> (r: Record)
        requires
            forall|i: int| 0 <= i < input@.len() ==> (#[trigger] input@[i].0) < 0x1_0000,
        ensures
            r@.len() == spec_max_idx(input@) + 1,
            forall|j: int| 0 <= j < r@.len() ==> r@[j] == spec_pad_at(input@, j),
    {
        let values = pad_indices(input);
        Record { values }
    }

    /// Serializes the record's value vector as corpus bytes.
    pub fn serialize(&self) -> (r: Vec<u8>)
        ensures
            r@ == spec_encode_row(self@),
    {
        encode_row(&self.values)
    }
}

/// The index fields of a field list, in declaration order.
pub open spec fn spec_index_fields(fs: Seq<FieldDef>) -> Seq<FieldDef>
    decreases fs.len(),
{
    if fs.len() == 0 {
        Seq::empty()
    } else {
        (if fs[0].indexed {
            seq![fs[0]]
        } else {
            Seq::empty()
        }) + spec_index_fields(fs.drop_first())
    }
}

pub proof fn lemma_index_fields_snoc(fs: Seq<FieldDef>, f: FieldDef)
    ensures
        spec_index_fields(fs.push(f)) == spec_index_fields(fs) + (if f.indexed {
            seq![f]
        } else {
            Seq::<FieldDef>::empty()
        }),
    decreases fs.len(),
{
    let p = fs.push(f);
    let tail = if f.indexed {
        seq![f]
    } else {
        Seq::<FieldDef>::empty()
    };
    assert(spec_index_fields(p) == (if p[0].indexed {
        seq![p[0]]
    } else {
        Seq::<FieldDef>::empty()
    }) + spec_index_fields(p.drop_first()));
    if fs.len() == 0 {
        assert(p[0] == f);
        assert(p.drop_first() =~= Seq::<FieldDef>::empty());
        assert(spec_index_fields(p.drop_first()) == Seq::<FieldDef>::empty());
        assert(spec_index_fields(fs) == Seq::<FieldDef>::empty());
        assert(spec_index_fields(p) =~= spec_index_fields(fs) + tail);
    } else {
        assert(p[0] == fs[0]);
        assert(p.drop_first() =~= fs.drop_first().push(f));
        lemma_index_fields_snoc(fs.drop_first(), f);
        assert(spec_index_fields(fs) == (if fs[0].indexed {
            seq![fs[0]]
        } else {
            Seq::<FieldDef>::empty()
        }) + spec_index_fields(fs.drop_first()));
        assert(spec_index_fields(p) =~= spec_index_fields(fs) + tail);
    }
}

/// What it means for `k` to be the index key of field `f` for the
/// record `vals` of row `row` — with the tenant still unset: the
/// transaction facade is the single authority on tenancy and stamps
/// its own tenant later.
pub open spec fn key_is_index_for(
    k: Key,
    table: Seq<u8>,
    vals: Seq<DbVal>,
    row: Seq<u8>,
    f: FieldDef,
) -> bool {
    &&& k.tenant is Unset
    &&& k.table@ == table
    &&& k.row@ == row
    &&& k.purpose matches Purpose::Index(col, v) && col == f.number && v@ == to_idx_val(
        value_at(vals, f.number),
    )
}

impl Schema {
    /// Field numbers are pairwise distinct: no two fields share a
    /// slot in the value vector or a column in the index.
    pub open spec fn wf(&self) -> bool {
        forall|i: int, j: int|
            0 <= i < j < self.fields@.len() ==> (#[trigger] self.fields@[i]).number != (
            #[trigger] self.fields@[j]).number
    }

    /// A schema from a table name and field descriptors.
    pub fn new(table: &str, fields: Vec<FieldDef>) -> (r: Schema)
        ensures
            r.table@ == table.spec_bytes(),
            r.fields == fields,
    {
        Schema { table: table.as_bytes_vec(), fields }
    }

    /// The table name the schema binds.
    pub fn tname(&self) -> (r: &Vec<u8>)
        ensures
            r@ == self.table@,
    {
        &self.table
    }

    /// The corpus key of the row `pk` in this schema's table.
    pub fn corpus_key(&self, tenant: Tenant, pk: &RowId) -> (r: Key)
        ensures
            r.tenant == tenant,
            r.table@ == self.table@,
            r.purpose is Row,
            r.row@ == pk@,
    {
        Key {
            tenant,
            table: copy_bytes(&self.table),
            purpose: Purpose::Row,
            row: pk.duplicate(),
        }
    }

    /// The index keys of a record: one per indexed field, in
    /// declaration order, each carrying the field's current value and
    /// the row id, under the unset tenant.
    pub fn indices(&self, record: &Record, row: &RowId) -> (r: Vec<Key>)
        ensures
            r@.len() == spec_index_fields(self.fields@).len(),
            forall|i: int|
                0 <= i < r@.len() ==> key_is_index_for(
                    #[trigger] r@[i],
                    self.table@,
                    record@,
                    row@,
                    spec_index_fields(self.fields@)[i],
                ),
    {
        let mut keys: Vec<Key> = Vec::new();
        let mut i: usize = 0;
        while i < self.fields.len()
            invariant
                i <= self.fields@.len(),
                keys@.len() == spec_index_fields(self.fields@.take(i as int)).len(),
                forall|t: int|
                    0 <= t < keys@.len() ==> key_is_index_for(
                        #[trigger] keys@[t],
                        self.table@,
                        record@,
                        row@,
                        spec_index_fields(self.fields@.take(i as int))[t],
                    ),
            decreases self.fields@.len() - i,
        {
            let f = self.fields[i];
            proof {
                assert(self.fields@.take(i + 1) =~= self.fields@.take(i as int).push(f));
                lemma_index_fields_snoc(self.fields@.take(i as int), f);
            }
            if f.indexed {
                let v = if (f.number as usize) < record.values.len() {
                    record.values[f.number as usize].to_indexable()
                } else {
                    crate::values_indices::IndexableValue::Absent
                };
                proof {
                    assert(v@ == to_idx_val(value_at(record@, f.number)));
                }
                keys.push(
                    Key {
                        tenant: Tenant::Unset,
                        table: copy_bytes(&self.table),
                        purpose: Purpose::Index(f.number, v),
                        row: row.duplicate(),
                    },
                );
            }
            i += 1;
        }
        proof {
            assert(self.fields@.take(self.fields@.len() as int) =~= self.fields@);
        }
        keys
    }

    /// Reads a record back from corpus bytes.  Fails with
    /// `Serialization` exactly when the bytes are not one valid row
    /// encoding, and with `RowDecode` exactly when a declared field
    /// rejects its stored value.
    pub fn decode(&self, bytes: &Vec<u8>) -> (r: Result<Record, ExothermError>)
        ensures
            match r {
                Ok(rec) => spec_decode_row(bytes@) == Some(rec@) && spec_accepts(
                    self.fields@,
                    rec@,
                ),
                Err(e) => match e {
                    ExothermError::Serialization => spec_decode_row(bytes@) is None,
                    ExothermError::RowDecode(ce) => {
                        &&& spec_decode_row(bytes@) matches Some(vals)
                        &&& !spec_accepts(self.fields@, vals)
                        &&& ce matches ConvertError::CantConvert { from } && exists|i: int|
                            0 <= i < self.fields@.len() && !field_accepts(
                                #[trigger] self.fields@[i],
                                value_at(vals, self.fields@[i].number),
                            ) && from@ == value_at(vals, self.fields@[i].number)
                    },
                    _ => false,
                },
            },
    {
        let values = match decode_row(bytes) {
            Ok(vs) => vs,
            Err(e) => {
                return Err(e);
            },
        };
        let rec = Record { values };
        let mut i: usize = 0;
        while i < self.fields.len()
            invariant
                i <= self.fields@.len(),
                spec_decode_row(bytes@) == Some(rec@),
                forall|t: int|
                    0 <= t < i ==> field_accepts(
                        #[trigger] self.fields@[t],
                        value_at(rec@, self.fields@[t].number),
                    ),
            decreases self.fields@.len() - i,
        {
            let f = self.fields[i];
            let ok = if (f.number as usize) < rec.values.len() {
                let matches_kind = match (&rec.values[f.number as usize], f.kind) {
                    (DbValue::Bool(_), FieldKind::Bool) => true,
                    (DbValue::Int32(_), FieldKind::Int32) => true,
                    (DbValue::Int64(_), FieldKind::Int64) => true,
                    (DbValue::Uint32(_), FieldKind::Uint32) => true,
                    (DbValue::Uint64(_), FieldKind::Uint64) => true,
                    (DbValue::Float(_), FieldKind::Float) => true,
                    (DbValue::Double(_), FieldKind::Double) => true,
                    (DbValue::Text(_), FieldKind::Text) => true,
                    (DbValue::Blob(_), FieldKind::Blob) => true,
                    (DbValue::Vector(_), FieldKind::Vector) => true,
                    (DbValue::Uuid(_), FieldKind::Uuid) => true,
                    (DbValue::EnumOrdinal(_), FieldKind::EnumOrdinal) => true,
                    _ => false,
                };
                matches_kind || (f.optional && matches!(
                    &rec.values[f.number as usize],
                    DbValue::Absent
                ))
            } else {
                f.optional
            };
            if !ok {
                let found = if (f.number as usize) < rec.values.len() {
                    rec.values[f.number as usize].duplicate()
                } else {
                    DbValue::Absent
                };
                proof {
                    assert(found@ == value_at(rec@, f.number));
                    assert(!field_accepts(self.fields@[i as int], value_at(rec@, f.number)));
                }
                return Err(
                    ExothermError::RowDecode(ConvertError::CantConvert { from: found }),
                );
            }
            i += 1;
        }
        Ok(rec)
    }
}

/// Round trip: a record whose payloads fit the wire format decodes,
/// from its own encoding, back to itself.
pub proof fn lemma_record_round_trip(vals: Seq<DbVal>)
    requires
        rec_fits(vals),
    ensures
        spec_decode_row(spec_encode_row(vals)) == Some(vals),
{
    crate::corpus::lemma_decode_encode_row(vals);
}

} // verus!
