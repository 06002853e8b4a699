//! End-to-end tests of the record layer over the in-memory store.

use exotherm::error::ExothermError;
use exotherm::key::{Key, Purpose, Tenant};
use exotherm::kvs::Kvs;
use exotherm::record::{pad_indices, FieldDef, FieldKind, Record, Schema};
use exotherm::rowid::RowId;
use exotherm::transaction::{plan_put, Query, STransaction};
use exotherm::values_indices::{DbValue, IndexableValue};

fn person_schema() -> Schema {
    Schema::new(
        "Person",
        vec![
            FieldDef { number: 0, kind: FieldKind::Text, optional: false, indexed: true },
            FieldDef { number: 1, kind: FieldKind::Text, optional: false, indexed: false },
        ],
    )
}

fn person(name: &str, password: &str) -> Record {
    Record::from_fields(vec![
        (0, DbValue::Text(name.as_bytes().to_vec())),
        (1, DbValue::Text(password.as_bytes().to_vec())),
    ])
}

fn pk(b: u8) -> RowId {
    RowId::from_bytes(vec![b; 16])
}

fn name_query(name: &str) -> Query {
    Query::Equal(Key::new_index(
        Tenant::Unset,
        "Person",
        0,
        IndexableValue::Text(name.as_bytes().to_vec()),
        RowId::nil(),
    ))
}

fn password_of(rec: &Record) -> Vec<u8> {
    match &rec.values[1] {
        DbValue::Text(t) => t.clone(),
        other => panic!("password is not text: {other:?}"),
    }
}

#[test]
fn insert() {
    let schema = person_schema();
    let mut st = STransaction::new(Tenant::named("testing"));
    let id = pk(0x11);
    let p = person("NameNameNameNameNamevName", "TestTestTestTestTest");
    st.put_value(&schema, &p, &id).unwrap();

    let result = st
        .query_index(name_query("NameNameNameNameNamevName"), false)
        .unwrap();
    assert!(result.ids.len() > 0);
    println!("{result:#?}");

    let fetched = st.get_value(&schema, &id).unwrap();
    println!("{fetched:#?}");

    if let Some(mut fetched) = fetched {
        fetched.values[1] = DbValue::Text("neues passwort".as_bytes().to_vec());
        st.put_value(&schema, &fetched, &id).unwrap();
    }
    let fetched = st.get_value(&schema, &id).unwrap().unwrap();
    assert_eq!(password_of(&fetched), "neues passwort".as_bytes().to_vec());
}

#[test]
fn insert_then_equal_query_finds_row() {
    let schema = person_schema();
    let mut st = STransaction::new(Tenant::named("testing"));
    let p1 = pk(1);
    st.put_value(&schema, &person("Alice", "x"), &p1).unwrap();
    let page = st.query_index(name_query("Alice"), false).unwrap();
    assert_eq!(page.ids, vec![p1]);
    assert!(page.used_bandwidth > 0);
    assert!(page.next.is_none());
}

#[test]
fn update_same_indexed_value_keeps_index() {
    let schema = person_schema();
    let mut st = STransaction::new(Tenant::named("testing"));
    let p1 = pk(1);
    st.put_value(&schema, &person("Alice", "x"), &p1).unwrap();
    st.put_value(&schema, &person("Alice", "y"), &p1).unwrap();
    let page = st.query_index(name_query("Alice"), false).unwrap();
    assert_eq!(page.ids, vec![p1.clone()]);
    let rec = st.get_value(&schema, &p1).unwrap().unwrap();
    assert_eq!(password_of(&rec), b"y".to_vec());
}

#[test]
fn update_indexed_value_clears_stale_entry() {
    let schema = person_schema();
    let mut st = STransaction::new(Tenant::named("testing"));
    let p1 = pk(1);
    st.put_value(&schema, &person("Alice", "x"), &p1).unwrap();
    st.put_value(&schema, &person("Alice", "y"), &p1).unwrap();
    st.put_value(&schema, &person("Bob", "y"), &p1).unwrap();
    let alice = st.query_index(name_query("Alice"), false).unwrap();
    assert!(alice.ids.is_empty());
    let bob = st.query_index(name_query("Bob"), false).unwrap();
    assert_eq!(bob.ids, vec![p1]);
}

#[test]
fn two_rows_share_one_indexed_value() {
    let schema = person_schema();
    let mut st = STransaction::new(Tenant::named("testing"));
    let p1 = pk(1);
    let p2 = pk(2);
    st.put_value(&schema, &person("Bob", "y"), &p1).unwrap();
    st.put_value(&schema, &person("Bob", "z"), &p2).unwrap();
    let bob = st.query_index(name_query("Bob"), false).unwrap();
    // forward scans come back ordered by row id
    assert_eq!(bob.ids, vec![p1.clone(), p2.clone()]);
    let bob_rev = st.query_index(name_query("Bob"), true).unwrap();
    assert_eq!(bob_rev.ids, vec![p2, p1]);
}

#[test]
fn clear_removes_row_and_index() {
    let schema = person_schema();
    let mut st = STransaction::new(Tenant::named("testing"));
    let p1 = pk(1);
    let p2 = pk(2);
    st.put_value(&schema, &person("Bob", "y"), &p1).unwrap();
    st.put_value(&schema, &person("Bob", "z"), &p2).unwrap();
    assert_eq!(st.clear_value(&schema, &p1).unwrap(), true);
    let bob = st.query_index(name_query("Bob"), false).unwrap();
    assert_eq!(bob.ids, vec![p2]);
    assert!(st.get_value(&schema, &p1).unwrap().is_none());
    // a second clear finds nothing
    assert_eq!(st.clear_value(&schema, &p1).unwrap(), false);
}

#[test]
fn put_is_idempotent_under_retry() {
    let schema = person_schema();
    let mut st1 = STransaction::new(Tenant::named("testing"));
    let mut st2 = STransaction::new(Tenant::named("testing"));
    let p1 = pk(1);
    st1.put_value(&schema, &person("Alice", "x"), &p1).unwrap();
    // simulate a retry: the same closure runs again on the committed state
    st2.put_value(&schema, &person("Alice", "x"), &p1).unwrap();
    st2.put_value(&schema, &person("Alice", "x"), &p1).unwrap();
    assert_eq!(st1.kvs.len(), st2.kvs.len());
    for i in 0..st1.kvs.len() {
        assert_eq!(st1.kvs.key_at(i), st2.kvs.key_at(i));
        assert_eq!(st1.kvs.value_at(i), st2.kvs.value_at(i));
    }
}

#[test]
fn round_trip_every_kind() {
    let schema = Schema::new(
        "Everything",
        vec![
            FieldDef { number: 0, kind: FieldKind::Bool, optional: false, indexed: false },
            FieldDef { number: 1, kind: FieldKind::Int32, optional: false, indexed: false },
            FieldDef { number: 2, kind: FieldKind::Int64, optional: false, indexed: false },
            FieldDef { number: 3, kind: FieldKind::Uint32, optional: false, indexed: false },
            FieldDef { number: 4, kind: FieldKind::Uint64, optional: false, indexed: false },
            FieldDef { number: 5, kind: FieldKind::Float, optional: false, indexed: false },
            FieldDef { number: 6, kind: FieldKind::Double, optional: false, indexed: false },
            FieldDef { number: 7, kind: FieldKind::Text, optional: false, indexed: false },
            FieldDef { number: 8, kind: FieldKind::Blob, optional: false, indexed: false },
            FieldDef { number: 9, kind: FieldKind::Vector, optional: false, indexed: false },
            FieldDef { number: 10, kind: FieldKind::Uuid, optional: false, indexed: false },
            FieldDef { number: 11, kind: FieldKind::EnumOrdinal, optional: false, indexed: false },
            FieldDef { number: 12, kind: FieldKind::Text, optional: true, indexed: false },
        ],
    );
    let rec = Record::from_fields(vec![
        (0, DbValue::Bool(true)),
        (1, DbValue::Int32(-123456)),
        (2, DbValue::Int64(i64::MIN)),
        (3, DbValue::Uint32(7)),
        (4, DbValue::Uint64(u64::MAX)),
        (5, DbValue::Float((-2.5f32).to_bits())),
        (6, DbValue::Double(6.25f64.to_bits())),
        (7, DbValue::Text("ein Text".as_bytes().to_vec())),
        (8, DbValue::Blob(vec![0, 1, 2, 255])),
        (9, DbValue::Vector(vec![1.0f32.to_bits(), (-1.0f32).to_bits()])),
        (10, DbValue::Uuid(pk(9))),
        (11, DbValue::EnumOrdinal(3)),
        (12, DbValue::Absent),
    ]);
    let bytes = rec.serialize();
    let back = schema.decode(&bytes).unwrap();
    assert_eq!(back.values, rec.values);
}

#[test]
fn round_trip_empty_record() {
    let rec = Record::from_fields(vec![]);
    assert_eq!(rec.values, vec![DbValue::Absent]);
    let schema = Schema::new("Empty", vec![]);
    let back = schema.decode(&rec.serialize()).unwrap();
    assert_eq!(back.values, rec.values);
}

#[test]
fn pad_indices_places_and_pads() {
    let padded = pad_indices(vec![(2, DbValue::Bool(true)), (0, DbValue::Uint32(4))]);
    assert_eq!(
        padded,
        vec![DbValue::Uint32(4), DbValue::Absent, DbValue::Bool(true)]
    );
    let padded = pad_indices(vec![]);
    assert_eq!(padded, vec![DbValue::Absent]);
}

#[test]
fn corrupt_corpus_is_rejected() {
    let schema = person_schema();
    assert!(matches!(
        schema.decode(&vec![1, 2, 3]),
        Err(ExothermError::Serialization)
    ));
}

#[test]
fn wrong_kind_is_rejected_with_the_value() {
    let schema = person_schema();
    let rec = Record::from_fields(vec![
        (0, DbValue::Uint32(5)),
        (1, DbValue::Text(b"x".to_vec())),
    ]);
    match schema.decode(&rec.serialize()) {
        Err(ExothermError::RowDecode(ce)) => {
            let exotherm::error::ConvertError::CantConvert { from } = ce;
            assert_eq!(from, DbValue::Uint32(5));
        },
        other => panic!("expected a conversion failure, got {other:?}"),
    }
}

#[test]
fn unset_tenant_is_rejected() {
    let key = Key::new_row(Tenant::Unset, "Person", pk(1));
    assert!(matches!(key.generate(), Err(ExothermError::TenantError)));
    let mut st = STransaction::new(Tenant::Unset);
    let schema = person_schema();
    assert!(matches!(
        st.put_value(&schema, &person("Alice", "x"), &pk(1)),
        Err(ExothermError::TenantError)
    ));
    let err = ExothermError::TenantError;
    assert!(!err.describe().is_empty());
}

#[test]
fn non_index_key_query_is_rejected() {
    let st = STransaction::new(Tenant::named("testing"));
    let q = Query::Equal(Key::new_row(Tenant::Unset, "Person", pk(1)));
    assert!(matches!(
        st.query_index(q, false),
        Err(ExothermError::IndexKeyError)
    ));
}

#[test]
fn between_across_columns_is_rejected() {
    let st = STransaction::new(Tenant::named("testing"));
    let q = Query::Between(
        Key::new_index(Tenant::Unset, "T", 0, IndexableValue::Uint32(1), RowId::nil()),
        Key::new_index(Tenant::Unset, "T", 1, IndexableValue::Uint32(9), RowId::nil()),
    );
    assert!(matches!(
        st.query_index(q, false),
        Err(ExothermError::UnequalColumns)
    ));
}

#[test]
fn short_index_payload_is_rejected() {
    let schema = person_schema();
    let mut st = STransaction::new(Tenant::named("testing"));
    st.put_value(&schema, &person("Q", "x"), &pk(1)).unwrap();
    // plant a malformed entry right at the range's lower endpoint
    let bad = Key::new_index(
        Tenant::named("testing"),
        "Person",
        0,
        IndexableValue::Text(b"Q".to_vec()),
        RowId::nil(),
    );
    st.kvs.set(bad.generate().unwrap(), vec![1, 2, 3]);
    assert!(matches!(
        st.query_index(name_query("Q"), false),
        Err(ExothermError::UuidParse)
    ));
}

fn number_schema() -> Schema {
    Schema::new(
        "Numbers",
        vec![FieldDef { number: 0, kind: FieldKind::Uint32, optional: false, indexed: true }],
    )
}

fn number_record(x: u32) -> Record {
    Record::from_fields(vec![(0, DbValue::Uint32(x))])
}

fn number_key(x: u32) -> Key {
    Key::new_index(Tenant::Unset, "Numbers", 0, IndexableValue::Uint32(x), RowId::nil())
}

#[test]
fn range_queries_over_numbers() {
    let schema = number_schema();
    let mut st = STransaction::new(Tenant::named("testing"));
    st.put_value(&schema, &number_record(1), &pk(1)).unwrap();
    st.put_value(&schema, &number_record(5), &pk(5)).unwrap();
    st.put_value(&schema, &number_record(9), &pk(9)).unwrap();

    let ge5 = st.query_index(Query::Gt(number_key(5)), false).unwrap();
    assert_eq!(ge5.ids, vec![pk(5), pk(9)]);

    let le5 = st.query_index(Query::Lt(number_key(5)), false).unwrap();
    assert_eq!(le5.ids, vec![pk(1), pk(5)]);

    let all = st.query_index(Query::WantAll(number_key(0)), false).unwrap();
    assert_eq!(all.ids, vec![pk(1), pk(5), pk(9)]);

    let between = st
        .query_index(Query::Between(number_key(2), number_key(6)), false)
        .unwrap();
    assert_eq!(between.ids, vec![pk(5)]);
}

#[test]
fn tenants_are_isolated() {
    let schema = person_schema();
    let mut a = STransaction::new(Tenant::named("alpha"));
    let mut b = STransaction::new(Tenant::named("beta"));
    a.put_value(&schema, &person("Alice", "x"), &pk(1)).unwrap();
    b.put_value(&schema, &person("Alice", "x"), &pk(2)).unwrap();
    // each store only holds its own tenant's keys
    let in_a = a.query_index(name_query("Alice"), false).unwrap();
    assert_eq!(in_a.ids, vec![pk(1)]);
    let in_b = b.query_index(name_query("Alice"), false).unwrap();
    assert_eq!(in_b.ids, vec![pk(2)]);
}

#[test]
fn plan_put_diffs_old_and_new_index_keys() {
    let schema = person_schema();
    let tenant = Tenant::named("testing");
    let old = person("Alice", "x");
    let old_bytes = old.serialize();
    let new = person("Bob", "x");
    let plan = plan_put(&schema, &new, &pk(1), &tenant, Some(&old_bytes)).unwrap();
    // the stale name entry is deleted; one index entry and the corpus are stored
    assert_eq!(plan.clears.len(), 1);
    assert_eq!(plan.sets.len(), 2);
    let unchanged = plan_put(&schema, &old, &pk(1), &tenant, Some(&old_bytes)).unwrap();
    assert_eq!(unchanged.clears.len(), 0);
}

#[test]
fn conversions_follow_the_declared_kind() {
    assert_eq!(DbValue::Uint32(7).into_u32().unwrap(), 7);
    assert_eq!(DbValue::Text(b"t".to_vec()).into_text().unwrap(), b"t".to_vec());
    assert_eq!(DbValue::Absent.into_opt_u32().unwrap(), None);
    assert_eq!(DbValue::Uint32(7).into_opt_u32().unwrap(), Some(7));
    assert!(DbValue::Bool(true).into_u32().is_err());
    assert!(DbValue::Absent.into_bool().is_err());
    let uuid = DbValue::Uuid(pk(3)).into_uuid().unwrap();
    assert_eq!(uuid, pk(3));
}

#[test]
fn purposes_keep_key_families_apart() {
    let t = Tenant::named("x");
    let row = Key {
        tenant: t.duplicate(),
        table: b"T".to_vec(),
        purpose: Purpose::Row,
        row: pk(1),
    };
    let index = Key {
        tenant: t.duplicate(),
        table: b"T".to_vec(),
        purpose: Purpose::Index(0, IndexableValue::Absent),
        row: pk(1),
    };
    let blob = Key {
        tenant: t,
        table: b"T".to_vec(),
        purpose: Purpose::Blob(b"bucket".to_vec(), 4),
        row: pk(1),
    };
    let rb = row.generate().unwrap();
    let ib = index.generate().unwrap();
    let bb = blob.generate().unwrap();
    assert_ne!(rb, ib);
    assert_ne!(rb, bb);
    assert_ne!(ib, bb);
}

#[test]
fn kvs_orders_and_replaces() {
    let mut kvs = Kvs::new();
    kvs.set(vec![2], vec![20]);
    kvs.set(vec![1], vec![10]);
    kvs.set(vec![3], vec![30]);
    kvs.set(vec![2], vec![22]);
    assert_eq!(kvs.len(), 3);
    assert_eq!(kvs.key_at(0), vec![1]);
    assert_eq!(kvs.key_at(1), vec![2]);
    assert_eq!(kvs.key_at(2), vec![3]);
    assert_eq!(kvs.get(&vec![2]), Some(vec![22]));
    kvs.clear(&vec![2]);
    assert_eq!(kvs.get(&vec![2]), None);
    assert_eq!(kvs.len(), 2);
    let range = kvs.get_range(&vec![0], &vec![9], 10, false);
    assert_eq!(range.len(), 2);
    assert_eq!(range[0].0, vec![1]);
    assert_eq!(range[1].0, vec![3]);
}

#[test]
fn full_forward_page_carries_a_continuation() {
    let mut entries: Vec<(Vec<u8>, Vec<u8>)> = Vec::new();
    for i in 0..5000u64 {
        entries.push((i.to_be_bytes().to_vec(), vec![1u8; 16]));
    }
    let to = vec![0xff; 9];
    let page = exotherm::transaction::parse_page(&entries, &to, false).unwrap();
    assert_eq!(page.ids.len(), 5000);
    assert_eq!(page.used_bandwidth, 5000 * (8 + 16));
    let next = page.next.unwrap();
    let mut expected_from = 4999u64.to_be_bytes().to_vec();
    expected_from.push(0);
    assert_eq!(next.from, expected_from);
    assert_eq!(next.to, to);
    // a reverse page never carries a continuation
    let page = exotherm::transaction::parse_page(&entries, &to, true).unwrap();
    assert!(page.next.is_none());
}
