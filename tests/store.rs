use corpus_store::cell::Cell;
use corpus_store::codec::{load_rows, LoadError};
use corpus_store::manager::{Crate, CratesList, MergedUnits, Package, TimeSpan};
use corpus_store::schema::{
    ColumnKind, Constant, DatabaseSchema, IdWidth, IncrementalId, InterningTableDecl, RelationDecl,
    SchemaError,
};
use corpus_store::tables::{OverflowError, Tables};

fn text(s: &str) -> Cell {
    Cell::Text(s.to_string())
}

/// One string table and a relation naming a string.
fn strings_schema() -> DatabaseSchema {
    DatabaseSchema::new(
        vec![],
        vec![InterningTableDecl { name: "strings".to_string(), columns: vec![ColumnKind::Plain] }],
        vec![RelationDecl { name: "names".to_string(), columns: vec![ColumnKind::Interned(0)] }],
    )
    .unwrap()
}

/// A function kind with one reserved constant, and a relation of functions.
fn functions_schema(width: IdWidth) -> DatabaseSchema {
    DatabaseSchema::new(
        vec![IncrementalId {
            name: "FunctionId".to_string(),
            width,
            constants: vec![Constant { name: "UNKNOWN".to_string(), value: 0 }],
        }],
        vec![],
        vec![RelationDecl {
            name: "functions".to_string(),
            columns: vec![ColumnKind::Incremental { kind: 0, auto: true }, ColumnKind::Plain],
        }],
    )
    .unwrap()
}

fn register_names(schema: &DatabaseSchema, t: &mut Tables, names: &[&str]) -> Vec<usize> {
    let mut keys = Vec::new();
    for n in names {
        let k = t.intern(schema, 0, vec![text(n)]);
        t.insert(schema, 0, vec![Cell::Int(k as u64)]);
        keys.push(k);
    }
    keys
}

#[test]
fn it_works() {
    assert_eq!(2 + 2, 4);
}

#[test]
fn interning_scenario_across_two_units() {
    let schema = strings_schema();
    let mut a = Tables::new(&schema);
    assert_eq!(register_names(&schema, &mut a, &["foo", "bar", "foo"]), vec![0, 1, 0]);
    assert_eq!(a.interning_table(0).len(), 2);
    let mut b = Tables::new(&schema);
    assert_eq!(register_names(&schema, &mut b, &["bar", "baz"]), vec![0, 1]);
    let remaps = a.merge(&schema, b).unwrap();
    assert_eq!(remaps, vec![vec![1, 2]]);
    assert_eq!(
        a.interning_table(0).values(),
        vec![vec![text("foo")], vec![text("bar")], vec![text("baz")]]
    );
    // B's fact that referenced its local key 0 ("bar") now references 1.
    let facts = a.relation(0).iter();
    assert_eq!(facts.len(), 5);
    assert_eq!(facts[3], vec![Cell::Int(1)]);
    assert_eq!(facts[4], vec![Cell::Int(2)]);
}

#[test]
fn incremental_scenario_with_reserved_constant() {
    let schema = functions_schema(IdWidth::U32);
    let mut a = Tables::new(&schema);
    let mut b = Tables::new(&schema);
    for t in [&mut a, &mut b] {
        let f1 = t.fresh(&schema, 0).unwrap();
        let f2 = t.fresh(&schema, 0).unwrap();
        assert_eq!((f1, f2), (1, 2));
        t.insert(&schema, 0, vec![Cell::Int(f1), Cell::Int(10)]);
        t.insert(&schema, 0, vec![Cell::Int(f2), Cell::Int(20)]);
        t.insert(&schema, 0, vec![Cell::Int(0), Cell::Int(30)]);
        assert_eq!(t.counter(0), 3);
    }
    assert_eq!(a.get_constant(&schema, 0, 0), 0);
    a.merge(&schema, b).unwrap();
    assert_eq!(a.counter(0), 5);
    let facts = a.relation(0).iter();
    assert_eq!(facts[3], vec![Cell::Int(3), Cell::Int(10)]);
    assert_eq!(facts[4], vec![Cell::Int(4), Cell::Int(20)]);
    // The reserved constant keeps its value.
    assert_eq!(facts[5], vec![Cell::Int(0), Cell::Int(30)]);
    assert_eq!(a.get_constant(&schema, 0, 0), 0);
    assert_eq!(schema.constant(0, &"UNKNOWN".to_string()), Some(0));
    assert_eq!(schema.constant(0, &"OTHER".to_string()), None);
}

#[test]
fn shifting_an_8_bit_id_past_255_fails() {
    assert_eq!(IdWidth::U8.shift(250, 5), Some(255));
    assert_eq!(IdWidth::U8.shift(250, 6), None);
    assert_eq!(IdWidth::U16.shift(250, 6), Some(256));

    let schema = functions_schema(IdWidth::U8);
    let mut a = Tables::new(&schema);
    for _ in 0..200 {
        a.fresh(&schema, 0).unwrap();
    }
    let mut b = Tables::new(&schema);
    for _ in 0..100 {
        b.fresh(&schema, 0).unwrap();
    }
    assert_eq!(a.merge(&schema, b), Err(OverflowError { kind: 0 }));
    // The destination is left as it was.
    assert_eq!(a.counter(0), 201);
}

#[test]
fn fresh_stops_at_the_largest_value() {
    let schema = functions_schema(IdWidth::U8);
    let mut t = Tables::new(&schema);
    for expected in 1..255u64 {
        assert_eq!(t.fresh(&schema, 0), Ok(expected));
    }
    assert_eq!(t.counter(0), 255);
    assert_eq!(t.fresh(&schema, 0), Err(OverflowError { kind: 0 }));
    assert_eq!(t.counter(0), 255);
}

#[test]
fn interning_is_content_addressed() {
    let schema = strings_schema();
    let mut t = Tables::new(&schema);
    let k1 = t.intern(&schema, 0, vec![text("x")]);
    let k2 = t.intern(&schema, 0, vec![text("y")]);
    let k3 = t.intern(&schema, 0, vec![text("x")]);
    assert_eq!(k1, k3);
    assert_ne!(k1, k2);
    assert_eq!(t.interning_table(0).len(), 2);
    assert_eq!(t.interning_table(0).lookup(&vec![text("y")]), Some(k2));
    assert_eq!(t.interning_table(0).lookup(&vec![text("z")]), None);
}

#[test]
fn relation_keeps_insertion_order_and_duplicates() {
    let schema = strings_schema();
    let mut t = Tables::new(&schema);
    register_names(&schema, &mut t, &["b", "a", "b", "b"]);
    assert_eq!(
        t.relation(0).iter(),
        vec![vec![Cell::Int(0)], vec![Cell::Int(1)], vec![Cell::Int(0)], vec![Cell::Int(0)]]
    );
}

#[test]
fn merge_into_empty_gives_the_source_back() {
    let schema = strings_schema();
    let mut src = Tables::new(&schema);
    register_names(&schema, &mut src, &["p", "q", "p", "r"]);
    let expected_facts = src.relation(0).iter();
    let expected_values = src.interning_table(0).values();
    let mut dst = Tables::new(&schema);
    let remaps = dst.merge(&schema, src).unwrap();
    assert_eq!(remaps, vec![vec![0, 1, 2]]);
    assert_eq!(dst.relation(0).iter(), expected_facts);
    assert_eq!(dst.interning_table(0).values(), expected_values);
}

#[test]
fn merged_units_never_share_fresh_ids() {
    let schema = functions_schema(IdWidth::U64);
    let mut corpus = Tables::new(&schema);
    for unit in 0..3u64 {
        let mut t = Tables::new(&schema);
        for j in 0..4u64 {
            let id = t.fresh(&schema, 0).unwrap();
            t.insert(&schema, 0, vec![Cell::Int(id), Cell::Int(unit * 10 + j)]);
        }
        corpus.merge(&schema, t).unwrap();
    }
    let facts = corpus.relation(0).iter();
    assert_eq!(facts.len(), 12);
    let mut ids: Vec<Cell> = facts.iter().map(|f| f[0].clone()).collect();
    ids.dedup();
    assert_eq!(ids.len(), 12);
    assert_eq!(corpus.counter(0), 13);
}

#[test]
fn tuple_tables_merge_after_the_tables_they_name() {
    // Table 0 holds paths (tuples of two string keys); it is declared before
    // the string table that it refers to.
    let schema = DatabaseSchema::new(
        vec![],
        vec![
            InterningTableDecl {
                name: "paths".to_string(),
                columns: vec![ColumnKind::Interned(1), ColumnKind::Interned(1)],
            },
            InterningTableDecl { name: "strings".to_string(), columns: vec![ColumnKind::Plain] },
        ],
        vec![RelationDecl { name: "uses".to_string(), columns: vec![ColumnKind::Interned(0)] }],
    )
    .unwrap();
    assert_eq!(schema.table_order(), &vec![1, 0]);
    let mut a = Tables::new(&schema);
    let s = a.intern(&schema, 1, vec![text("std")]);
    let v = a.intern(&schema, 1, vec![text("vec")]);
    let p = a.intern(&schema, 0, vec![Cell::Int(s as u64), Cell::Int(v as u64)]);
    a.insert(&schema, 0, vec![Cell::Int(p as u64)]);
    let mut b = Tables::new(&schema);
    let v2 = b.intern(&schema, 1, vec![text("vec")]);
    let s2 = b.intern(&schema, 1, vec![text("std")]);
    let p2 = b.intern(&schema, 0, vec![Cell::Int(s2 as u64), Cell::Int(v2 as u64)]);
    b.insert(&schema, 0, vec![Cell::Int(p2 as u64)]);
    let remaps = a.merge(&schema, b).unwrap();
    assert_eq!(remaps[1], vec![1, 0]);
    assert_eq!(remaps[0], vec![0]);
    assert_eq!(a.interning_table(0).len(), 1);
    assert_eq!(a.relation(0).iter(), vec![vec![Cell::Int(0)], vec![Cell::Int(0)]]);
}

#[test]
fn schema_rejects_bad_declarations() {
    let kind = |constants: Vec<u64>| IncrementalId {
        name: "K".to_string(),
        width: IdWidth::U8,
        constants: constants
            .into_iter()
            .map(|value| Constant { name: "C".to_string(), value })
            .collect(),
    };
    assert!(DatabaseSchema::new(vec![kind(vec![1, 0])], vec![], vec![]).is_ok());
    assert_eq!(
        DatabaseSchema::new(vec![kind(vec![1])], vec![], vec![]).err(),
        Some(SchemaError::InvalidConstants { kind: 0 })
    );
    assert_eq!(
        DatabaseSchema::new(vec![kind(vec![0, 0])], vec![], vec![]).err(),
        Some(SchemaError::InvalidConstants { kind: 0 })
    );
    let table = |columns: Vec<ColumnKind>| InterningTableDecl { name: "T".to_string(), columns };
    assert_eq!(
        DatabaseSchema::new(vec![], vec![table(vec![ColumnKind::Interned(3)])], vec![]).err(),
        Some(SchemaError::InvalidTableColumn { table: 0, column: 0 })
    );
    assert_eq!(
        DatabaseSchema::new(
            vec![kind(vec![])],
            vec![table(vec![ColumnKind::Plain, ColumnKind::Incremental { kind: 0, auto: false }])],
            vec![]
        )
        .err(),
        Some(SchemaError::InvalidTableColumn { table: 0, column: 1 })
    );
    assert_eq!(
        DatabaseSchema::new(
            vec![],
            vec![],
            vec![RelationDecl {
                name: "R".to_string(),
                columns: vec![ColumnKind::Incremental { kind: 0, auto: true }],
            }]
        )
        .err(),
        Some(SchemaError::InvalidRelationColumn { relation: 0, column: 0 })
    );
    assert_eq!(
        DatabaseSchema::new(
            vec![],
            vec![
                table(vec![ColumnKind::Plain]),
                table(vec![ColumnKind::Interned(2)]),
                table(vec![ColumnKind::Interned(1)]),
            ],
            vec![]
        )
        .err(),
        Some(SchemaError::Cycle { tables: vec![1, 2] })
    );
}

fn populated(schema: &DatabaseSchema) -> Tables {
    let mut t = Tables::new(schema);
    let s = t.intern(schema, 1, vec![text("std")]);
    let v = t.intern(schema, 1, vec![text("vec — ünïcode")]);
    let p = t.intern(schema, 0, vec![Cell::Int(s as u64), Cell::Int(v as u64)]);
    let f = t.fresh(schema, 0).unwrap();
    t.insert(schema, 0, vec![Cell::Int(f), Cell::Int(p as u64), Cell::Int(7)]);
    t.insert(schema, 0, vec![Cell::Int(0), Cell::Int(p as u64), Cell::Int(u64::MAX)]);
    t
}

fn store_schema() -> DatabaseSchema {
    DatabaseSchema::new(
        vec![IncrementalId {
            name: "FunctionId".to_string(),
            width: IdWidth::U32,
            constants: vec![Constant { name: "UNKNOWN".to_string(), value: 0 }],
        }],
        vec![
            InterningTableDecl {
                name: "paths".to_string(),
                columns: vec![ColumnKind::Interned(1), ColumnKind::Interned(1)],
            },
            InterningTableDecl { name: "strings".to_string(), columns: vec![ColumnKind::Plain] },
        ],
        vec![RelationDecl {
            name: "functions".to_string(),
            columns: vec![
                ColumnKind::Incremental { kind: 0, auto: true },
                ColumnKind::Interned(0),
                ColumnKind::Plain,
            ],
        }],
    )
    .unwrap()
}

fn same_store(a: &Tables, b: &Tables) {
    assert_eq!(a.counters(), b.counters());
    for t in 0..2 {
        assert_eq!(a.interning_table(t).values(), b.interning_table(t).values());
    }
    assert_eq!(a.relation(0).iter(), b.relation(0).iter());
}

#[test]
fn single_file_round_trip() {
    let schema = store_schema();
    let empty = Tables::new(&schema);
    let loaded = Tables::load(&schema, &empty.save_bincode(&schema)).unwrap();
    same_store(&empty, &loaded);
    let t = populated(&schema);
    let bytes = t.save_bincode(&schema);
    // Counters: a length and one value.
    assert_eq!(&bytes[..16], &[1, 0, 0, 0, 0, 0, 0, 0, 2, 0, 0, 0, 0, 0, 0, 0]);
    let loaded = Tables::load(&schema, &bytes).unwrap();
    same_store(&t, &loaded);
}

#[test]
fn multi_file_round_trip() {
    let schema = store_schema();
    let empty = Tables::new(&schema);
    let loaded = Tables::load_multifile(&schema, &empty.store_multifile(&schema)).unwrap();
    same_store(&empty, &loaded);
    let t = populated(&schema);
    let files = t.store_multifile(&schema);
    assert_eq!(files.interning.len(), 2);
    assert_eq!(files.relations.len(), 1);
    let loaded = Tables::load_multifile(&schema, &files).unwrap();
    same_store(&t, &loaded);
    // One relation on its own.
    assert_eq!(load_rows(&files.relations[0]), Some(t.relation(0).iter()));
    assert_eq!(load_rows(&vec![1, 2, 3]), None);
}

#[test]
fn load_rejects_damaged_bytes() {
    let schema = store_schema();
    let bytes = populated(&schema).save_bincode(&schema);
    assert_eq!(Tables::load(&schema, &bytes[..bytes.len() - 1].to_vec()).err(), Some(LoadError::Malformed));
    let mut longer = bytes.clone();
    longer.push(0);
    assert_eq!(Tables::load(&schema, &longer).err(), Some(LoadError::Malformed));
    // A counter below the reserved range.
    let mut low = bytes.clone();
    low[8] = 0;
    assert_eq!(Tables::load(&schema, &low).err(), Some(LoadError::InvalidCounter { kind: 0 }));
    // A store whose two strings are equal.
    let dup = Tables::from_parts(
        &schema,
        vec![1],
        vec![vec![], vec![vec![text("a")], vec![text("a")]]],
        vec![vec![]],
    );
    assert_eq!(dup.err(), Some(LoadError::DuplicateValue { table: 1, key: 1 }));
    // A fact naming a function that was never issued.
    let unissued = Tables::from_parts(
        &schema,
        vec![1],
        vec![vec![], vec![]],
        vec![vec![vec![Cell::Int(5), Cell::Int(0), Cell::Int(0)]]],
    );
    assert_eq!(unissued.err(), Some(LoadError::InvalidFact { relation: 0, index: 0 }));
    // A path naming a string key that does not exist.
    let dangling = Tables::from_parts(
        &schema,
        vec![1],
        vec![vec![vec![Cell::Int(0), Cell::Int(0)]], vec![]],
        vec![vec![]],
    );
    assert_eq!(dangling.err(), Some(LoadError::InvalidValue { table: 0, key: 0 }));
    assert_eq!(
        Tables::from_parts(&schema, vec![1, 1], vec![vec![], vec![]], vec![vec![]]).err(),
        Some(LoadError::Shape)
    );
}

#[test]
fn register_fills_auto_columns_from_the_counter() {
    let schema = functions_schema(IdWidth::U8);
    let mut t = Tables::new(&schema);
    let first = t.register(&schema, 0, vec![Cell::Int(99), Cell::Int(10)]).unwrap();
    let second = t.register(&schema, 0, vec![Cell::Int(99), Cell::Int(10)]).unwrap();
    assert_eq!(first, vec![Cell::Int(1), Cell::Int(10)]);
    assert_eq!(second, vec![Cell::Int(2), Cell::Int(10)]);
    assert_eq!(t.counter(0), 3);
    assert_eq!(t.relation(0).iter(), vec![first, second]);
    while t.counter(0) < 255 {
        t.fresh(&schema, 0).unwrap();
    }
    assert_eq!(
        t.register(&schema, 0, vec![Cell::Int(0), Cell::Int(1)]),
        Err(OverflowError { kind: 0 })
    );
    assert_eq!(t.relation(0).len(), 2);
}

#[test]
fn crate_paths_and_pending_units() {
    let krate = Crate::Package(Package { name: "ab".to_string(), version: "1.0.0".to_string() });
    assert_eq!(krate.name(), "ab");
    assert_eq!(krate.version(), "1.0.0");
    assert_eq!(krate.work_path("/w"), vec!["/w", "a", "b", "_", "ab", "1.0.0"]);
    let list = CratesList { creation_date: TimeSpan { secs: 5, nanos: 0 }, crates: vec![krate] };
    let packages = list.iter_packages();
    assert_eq!(packages.len(), 1);
    assert_eq!(packages[0].name, "ab");
    let mut merged = MergedUnits::new();
    merged.insert("x.bincode".to_string());
    merged.insert("x.bincode".to_string());
    assert_eq!(merged.units().len(), 1);
    let found = vec!["y.bincode".to_string(), "x.bincode".to_string(), "z.bincode".to_string()];
    assert_eq!(merged.pending(&found), vec!["y.bincode".to_string(), "z.bincode".to_string()]);
    assert!(merged.contains(&"x.bincode".to_string()));
}
