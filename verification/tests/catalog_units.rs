//! The catalog's parts: CHECK logic, stored definitions, keys of the catalog tree.

use otf::btree::{BTree, BTreeError, Corruption};
use otf::catalog::apply::Roots;
use otf::catalog::check::{comparisons_of, run_checks, MAX_CHECK_DEPTH};
use otf::catalog::form::{table_literals, Encoded};
use otf::catalog::fk::StoredRow;
use otf::catalog::named::load_roots;
use otf::catalog::policy::{
    is_selected, proposals, proposed, selected, PolicyError, RowFilter, RowUpdater,
};
use otf::catalog::probe::{parent_has, probe_row};
use otf::catalog::read::{get, scan, DecodedRow};
use otf::catalog::row::{build_row, decode_padded, Cell, Fill};
use otf::catalog::series::{Done, Series, Written};
use otf::catalog::store::{
    band_end, decode_root, decode_seq, encode_root, encode_seq, iroot_key, load_root, load_seq,
    load_table, tbl_key,
};
use otf::catalog::trees::TableKeys;
use otf::catalog::write::Keyed;
use otf::catalog::{
    decode_table, encode_table, CatalogCorruption, CatalogError, CheckExpr, CmpOp, ColumnDef,
    Decoded, ForeignKey, IndexDef, Relation, TableDef,
};
use otf::common::{CategorizedError, ErrorCategory, MemoryBackend};
use otf::index::IndexError;
use otf::pager::{CorruptionKind, PageId, PageType, Pager};
use otf::value::{TypeError, TypeKind, Value};

fn small() -> TableDef {
    TableDef::new("t", vec![ColumnDef::new("id", TypeKind::I64)], vec!["id"])
}

fn compare(col: &str, op: CmpOp, n: i64) -> CheckExpr {
    CheckExpr::Cmp { col: col.into(), op, value: Value::I64(n) }
}

/// Literals by their decimal digits: enough to tell them apart.
fn literals(def: &TableDef) -> Vec<Encoded> {
    table_literals(def)
        .iter()
        .map(|v| match v {
            Value::I64(n) => Ok(n.to_string().into_bytes()),
            other => panic!("{other:?}"),
        })
        .collect()
}

fn decode_with(bytes: &[u8], literal: impl Fn(&[u8]) -> Option<Value>) -> Result<TableDef, CatalogError> {
    let mut known = Vec::new();
    loop {
        match decode_table(bytes, &known)? {
            Decoded::Table(def) => return Ok(def),
            Decoded::Literal(b) => known.push(literal(&b)),
        }
    }
}

fn digits(bytes: &[u8]) -> Option<Value> {
    let text = String::from_utf8(bytes.to_vec()).ok()?;
    text.parse().ok().map(Value::I64)
}

fn corruption(bytes: &[u8]) -> CatalogCorruption {
    match decode_with(bytes, digits) {
        Err(CatalogError::Corrupt(c)) => c,
        other => panic!("{other:?}"),
    }
}

#[test]
fn a_definition_has_its_exact_bytes() {
    let def = small();
    let bytes = encode_table(&def, &literals(&def)).unwrap();
    assert_eq!(
        bytes,
        vec![
            2, // format
            1, 0, b't', // name
            1, 0, // columns
            2, 0, b'i', b'd', 2, 1, 0, // a nullable i64 column without a default
            1, 0, 2, 0, b'i', b'd', // primary key
            0, 0, // checks
            0, 0, // indexes
        ]
    );
    assert_eq!(decode_with(&bytes, digits).unwrap(), def);
}

#[test]
fn a_full_definition_round_trips() {
    let make = || {
        TableDef::new(
            "orders",
            vec![
                ColumnDef::new("id", TypeKind::I64).auto_increment(),
                ColumnDef::new("qty", TypeKind::I64).not_null().default_value(Value::I64(7)),
                ColumnDef::new("who", TypeKind::I64).unique().guarded(),
            ],
            vec!["id"],
        )
        .check(CheckExpr::Or(vec![
            compare("qty", CmpOp::Gt, 0),
            CheckExpr::Not(Box::new(CheckExpr::IsNull { col: "who".into() })),
            CheckExpr::And(vec![compare("qty", CmpOp::Ne, -5)]),
        ]))
        .index(IndexDef::new("by_qty", vec!["qty", "who"]).unique())
        .foreign_key(ForeignKey::new("fk", vec!["who"], "users", vec!["id"]))
    };
    let def = make();
    assert_eq!(
        table_literals(&def),
        vec![Value::I64(7), Value::I64(0), Value::I64(-5)]
    );
    let bytes = encode_table(&def, &literals(&def)).unwrap();
    assert_eq!(bytes[0], 3);
    assert_eq!(decode_with(&bytes, digits).unwrap(), make());
    let mut longer = bytes.clone();
    longer.push(7);
    assert_eq!(corruption(&longer), CatalogCorruption::TrailingBytes);
}

#[test]
fn earlier_formats_lack_what_came_later() {
    let def = small();
    let bytes = encode_table(&def, &literals(&def)).unwrap();
    // With an empty section of foreign keys, and without the indexes too.
    let mut third = bytes.clone();
    third[0] = 3;
    third.extend([0, 0]);
    assert_eq!(decode_with(&third, digits).unwrap(), def);
    let mut first = bytes[..bytes.len() - 2].to_vec();
    first[0] = 1;
    assert_eq!(decode_with(&first, digits).unwrap(), def);
}

#[test]
fn each_stored_flaw_has_its_name() {
    let def = small().check(compare("id", CmpOp::Gt, 1));
    let bytes = encode_table(&def, &literals(&def)).unwrap();
    assert_eq!(corruption(&[]), CatalogCorruption::Truncated);
    assert_eq!(corruption(&bytes[..bytes.len() - 1]), CatalogCorruption::Truncated);
    let mut b = bytes.clone();
    b[0] = 9;
    assert_eq!(corruption(&b), CatalogCorruption::BadVersion { version: 9 });
    let mut b = bytes.clone();
    b[10] = 0xEE; // the column's type
    assert_eq!(corruption(&b), CatalogCorruption::BadTag { tag: 0xEE });
    let mut b = bytes.clone();
    b[3] = 0xFF; // the table's name
    assert_eq!(corruption(&b), CatalogCorruption::InvalidUtf8);
    let mut b = bytes.clone();
    b.push(0);
    assert_eq!(corruption(&b), CatalogCorruption::TrailingBytes);
    match decode_with(&bytes, |_| None) {
        Err(CatalogError::Corrupt(CatalogCorruption::BadValue)) => {}
        other => panic!("{other:?}"),
    }
}

#[test]
fn checks_nest_only_so_deep() {
    let nest = |depth: usize| {
        let mut c = CheckExpr::IsNotNull { col: "id".into() };
        for _ in 0..depth {
            c = CheckExpr::Not(Box::new(c));
        }
        small().check(c)
    };
    let json = vec![None];
    assert!(nest(MAX_CHECK_DEPTH).validate(&json).is_ok());
    assert!(matches!(
        nest(MAX_CHECK_DEPTH + 1).validate(&json),
        Err(CatalogError::InvalidSchema { .. })
    ));
    let deep = nest(60);
    let bytes = encode_table(&deep, &literals(&deep)).unwrap();
    assert_eq!(corruption(&bytes), CatalogCorruption::DepthExceeded);
}

#[test]
fn an_unencodable_literal_is_a_type_error() {
    let def = small().check(compare("id", CmpOp::Gt, 1));
    let bad = TypeError { category: ErrorCategory::ResourceLimit, text: "type".to_string() };
    let err = encode_table(&def, &vec![Err(bad)]).unwrap_err();
    assert!(matches!(err, CatalogError::Type(_)));
    assert_eq!(err.category(), ErrorCategory::ResourceLimit);
}

#[test]
fn checks_have_three_truth_values() {
    let def = TableDef::new(
        "t",
        vec![ColumnDef::new("a", TypeKind::I64), ColumnDef::new("b", TypeKind::I64)],
        vec!["a"],
    );
    let row = vec![Value::I64(5), Value::Null];
    let less = || compare("a", CmpOp::Lt, 9);
    let unknown = || compare("b", CmpOp::Lt, 9);
    let eval = |c: &CheckExpr, rs: Vec<Relation>| c.eval(&def, &row, &rs);
    assert_eq!(eval(&less(), vec![Relation::Less]), Some(true));
    assert_eq!(eval(&less(), vec![Relation::Equal]), Some(false));
    assert_eq!(eval(&unknown(), vec![Relation::Less]), None);
    let both = || vec![Relation::Less, Relation::Less];
    assert_eq!(eval(&CheckExpr::And(vec![less(), unknown()]), both()), None);
    assert_eq!(eval(&CheckExpr::Or(vec![less(), unknown()]), both()), Some(true));
    let not = CheckExpr::Not(Box::new(less()));
    assert_eq!(eval(&not, vec![Relation::Less]), Some(false));
    assert_eq!(eval(&CheckExpr::IsNull { col: "b".into() }, vec![]), Some(true));
    assert_eq!(eval(&CheckExpr::IsNotNull { col: "b".into() }, vec![]), Some(false));
    // Nothing is known of an absent column.
    assert_eq!(eval(&CheckExpr::IsNull { col: "z".into() }, vec![]), None);
}

#[test]
fn operators_hold_of_their_relations() {
    let all = [Relation::Less, Relation::Equal, Relation::Greater];
    let table = [
        (CmpOp::Eq, [false, true, false]),
        (CmpOp::Ne, [true, false, true]),
        (CmpOp::Lt, [true, false, false]),
        (CmpOp::Lte, [true, true, false]),
        (CmpOp::Gt, [false, false, true]),
        (CmpOp::Gte, [false, true, true]),
    ];
    for (op, want) in table {
        for (r, w) in all.iter().zip(want) {
            assert_eq!(op.holds(*r), w, "{op:?} {r:?}");
        }
    }
}

#[test]
fn a_violated_check_is_counted() {
    let def = small()
        .check(compare("id", CmpOp::Gt, 0))
        .check(compare("id", CmpOp::Lt, 3));
    let row = vec![Value::I64(5)];
    assert_eq!(
        comparisons_of(&def, &row),
        vec![
            Some((Value::I64(5), Value::I64(0))),
            Some((Value::I64(5), Value::I64(3))),
        ]
    );
    let found = vec![Relation::Greater, Relation::Greater];
    match run_checks(&def, &row, &found) {
        Err(CatalogError::CheckViolation { table, index }) => {
            assert_eq!((table.as_str(), index), ("t", 1));
        }
        other => panic!("{other:?}"),
    }
}

#[test]
fn roots_and_sequences_are_eight_bytes() {
    assert_eq!(encode_root(PageId::new(258)), vec![2, 1, 0, 0, 0, 0, 0, 0]);
    assert_eq!(decode_root(&encode_root(PageId::new(258))).unwrap(), PageId::new(258));
    assert_eq!(decode_seq(&encode_seq(-2)).unwrap(), -2);
    assert!(matches!(
        decode_root(&[1, 2]),
        Err(CatalogError::Corrupt(CatalogCorruption::BadValue))
    ));
    assert!(matches!(
        load_root(&None),
        Err(CatalogError::Corrupt(CatalogCorruption::MissingEntry))
    ));
    // A table without a sequence entry starts at one.
    assert_eq!(load_seq(&None).unwrap(), 1);
    assert!(matches!(load_table("t", &None, &vec![]), Err(CatalogError::UnknownTable { .. })));
}

#[test]
fn catalog_keys_name_their_band_and_table() {
    let text = |s: &str| Value::Text(s.to_string());
    assert_eq!(tbl_key("users"), vec![text("tbl"), text("users")]);
    assert_eq!(iroot_key("users", "by_x").len(), 3);
    assert_eq!(band_end(&vec![4, b't', 0, 0]), vec![4, b't', 0, 1]);
}

#[test]
fn a_row_wider_than_its_schema_is_corrupt() {
    let def = small();
    match decode_padded(&def, Ok(vec![Value::I64(1), Value::I64(2)])) {
        Err(CatalogError::Corrupt(CatalogCorruption::RowWiderThanSchema)) => {}
        other => panic!("{other:?}"),
    }
    let bad = TypeError { category: ErrorCategory::Corruption, text: "type".to_string() };
    assert!(matches!(decode_padded(&def, Err(bad)), Err(CatalogError::Type(_))));
}

#[test]
fn generated_keys_go_past_explicit_ones() {
    let def = TableDef::new("t", vec![ColumnDef::new("id", TypeKind::I64).auto_increment()], vec!["id"]);
    let fills = vec![Fill { now: 0, uuid: [0; 16] }];
    let mut seq = 1;
    let explicit = vec![("id".to_string(), Value::I64(41))];
    assert_eq!(build_row(&def, explicit, &mut seq, &fills).unwrap(), vec![Value::I64(41)]);
    assert_eq!(seq, 42);
    assert_eq!(build_row(&def, vec![], &mut seq, &fills).unwrap(), vec![Value::I64(42)]);
    assert_eq!(seq, 43);
}

#[test]
fn corruption_reads_as_text() {
    assert_eq!(CorruptionKind::Checksum { page: 12 }.to_text(), "checksum mismatch on page 12");
    assert_eq!(
        CorruptionKind::PageIdMismatch { expected: 6, found: 5 }.to_text(),
        "page id mismatch: expected 6, found 5"
    );
    assert_eq!(
        CorruptionKind::FreelistLenMismatch { counted: 10, recorded: 9 }.to_text(),
        "free-list length mismatch: counted 10, recorded 9"
    );
    assert_eq!(
        Corruption::UnknownNodeKind { page: 7, byte: 9 }.to_text(),
        "unknown node kind 9 on page 7"
    );
    assert_eq!(
        Corruption::Node(CorruptionKind::NoValidMeta).to_text(),
        "no valid meta page"
    );
    assert_eq!(CatalogCorruption::BadTag { tag: 0x0A }.to_text(), "unknown catalog tag 0x0a");
    assert_eq!(
        CatalogCorruption::BadVersion { version: 9 }.to_text(),
        "unknown catalog format version 9"
    );
}

#[test]
fn a_scan_stops_at_the_first_bad_row() {
    let def = small();
    let good = |n: i64| DecodedRow { pk_key: vec![n as u8], row: Ok(vec![Value::I64(n)]) };
    let rows = scan(&def, vec![good(1), good(2)]).unwrap();
    assert_eq!(rows.len(), 2);
    assert_eq!((&rows[1].pk_key, &rows[1].row), (&vec![2u8], &vec![Value::I64(2)]));
    let wide = DecodedRow { pk_key: vec![3], row: Ok(vec![Value::Null, Value::Null]) };
    let broken = TypeError { category: ErrorCategory::Corruption, text: "type".to_string() };
    let broken = DecodedRow { pk_key: vec![4], row: Err(broken) };
    match scan(&def, vec![good(1), wide, broken]) {
        Err(CatalogError::Corrupt(CatalogCorruption::RowWiderThanSchema)) => {}
        other => panic!("{other:?}"),
    }
    // A row written before a column was added reads with that column null.
    assert_eq!(get(&def, Some(Ok(vec![]))).unwrap(), Some(vec![Value::Null]));
    assert_eq!(get(&def, None).unwrap(), None);
}

/// A tree that holds these keys.
fn tree_of(pager: &mut Pager<MemoryBackend>, keys: &[&[u8]]) -> PageId {
    let mut root = BTree::new(pager).create().unwrap();
    for key in keys {
        root = BTree::new(pager).insert(root, key, b"row").unwrap().new_root;
    }
    root
}

#[test]
fn a_probe_tells_which_keys_of_a_row_are_taken() {
    let mut pager = Pager::create(MemoryBackend::new()).unwrap();
    let data = tree_of(&mut pager, &[b"k1", b"k2"]);
    let names = tree_of(&mut pager, &[b"ada"]);
    let mails = tree_of(&mut pager, &[]);
    let roots = Roots { data, indexes: vec![names, mails, names] };
    let bad = TypeError { category: ErrorCategory::Validation, text: "type".to_string() };
    let keys = vec![Ok(b"ada".to_vec()), Ok(b"ada".to_vec()), Err(bad)];
    let keyed = Keyed { row: vec![], keys };
    let found = probe_row(&mut pager, &roots, b"k2", &keyed).unwrap();
    assert_eq!(found, (true, vec![true, false, false]));
    let found = probe_row(&mut pager, &roots, b"k3", &keyed).unwrap();
    assert_eq!(found, (false, vec![true, false, false]));
}

#[test]
fn a_foreign_key_is_probed_in_the_tree_it_references() {
    let mut pager = Pager::create(MemoryBackend::new()).unwrap();
    let data = tree_of(&mut pager, &[b"1"]);
    let index = tree_of(&mut pager, &[b"ada"]);
    let roots = Roots { data, indexes: vec![index] };
    let columns = vec![ColumnDef::new("id", TypeKind::I64), ColumnDef::new("name", TypeKind::I64)];
    let parent = TableDef::new("people", columns, vec!["id"])
        .index(IndexDef::new("by_name", vec!["name"]).unique());
    let mut has = |to: &str, key: &Encoded| {
        let fk = ForeignKey::new("fk", vec!["who"], "people", vec![to]);
        parent_has(&mut pager, &parent, &roots, &fk, key)
    };
    let (one, ada): (Encoded, Encoded) = (Ok(b"1".to_vec()), Ok(b"ada".to_vec()));
    assert!(has("id", &one).unwrap() && !has("id", &ada).unwrap());
    assert!(has("name", &ada).unwrap() && !has("name", &one).unwrap());
    assert!(matches!(has("gone", &one), Err(CatalogError::InvalidSchema { .. })));
    let bad = TypeError { category: ErrorCategory::Validation, text: "type".to_string() };
    assert!(matches!(has("id", &Err(bad.clone())), Err(CatalogError::Type(_))));
    let told = has("name", &Err(bad));
    assert!(matches!(told, Err(CatalogError::Index(IndexError::Type(e))) if e.text == "type"));
}

/// Matches even ids, adds one to them, and rejects those it is told to.
struct Even {
    rejects: Vec<i64>,
    will_not_set: Vec<i64>,
}

fn id_of(row: &Vec<Value>) -> i64 {
    match row[0] {
        Value::I64(n) => n,
        _ => panic!("{row:?}"),
    }
}

fn rejection(text: &str, n: i64) -> PolicyError {
    PolicyError { category: ErrorCategory::Conflict, text: format!("{text} {n}") }
}

impl RowFilter for Even {
    fn matches(&self, _def: &TableDef, row: &Vec<Value>) -> Result<bool, PolicyError> {
        let n = id_of(row);
        if self.rejects.contains(&n) {
            return Err(rejection("not", n));
        }
        Ok(n % 2 == 0)
    }
}

impl RowUpdater for Even {
    fn new_values(&self, _def: &TableDef, row: &Vec<Value>) -> Result<Vec<Cell>, PolicyError> {
        let n = id_of(row);
        if self.will_not_set.contains(&n) {
            return Err(rejection("keep", n));
        }
        Ok(vec![("id".to_string(), Value::I64(n + 1))])
    }
}

fn numbered(ids: &[i64]) -> Vec<StoredRow> {
    ids.iter()
        .map(|&n| StoredRow { pk_key: vec![n as u8], row: vec![Value::I64(n)] })
        .collect()
}

fn refusal(e: Option<CatalogError>) -> (ErrorCategory, String) {
    match e {
        Some(CatalogError::Policy { category, text }) => (category, text),
        other => panic!("{other:?}"),
    }
}

#[test]
fn a_filter_is_asked_row_by_row_until_it_rejects() {
    let rows = numbered(&[1, 2, 3, 4, 6]);
    let all = Even { rejects: vec![], will_not_set: vec![] };
    let (at, stop) = selected(&all, &small(), &rows);
    assert_eq!((at, stop.is_none()), (vec![1, 3, 4], true));
    let (at, stop) = selected(&Even { rejects: vec![4, 6], will_not_set: vec![] }, &small(), &rows);
    assert_eq!(at, vec![1]);
    assert_eq!(refusal(stop), (ErrorCategory::Conflict, "not 4".to_string()));
    let (at, stop) = selected(&all, &small(), &vec![]);
    assert!(at.is_empty() && stop.is_none());
    assert!(is_selected(&all, &small(), &rows[1].row).unwrap());
    assert!(!is_selected(&all, &small(), &rows[0].row).unwrap());
}

#[test]
fn an_updater_proposes_for_matched_rows_until_it_rejects() {
    let rows = numbered(&[1, 2, 3, 4, 6]);
    let all = Even { rejects: vec![], will_not_set: vec![] };
    let (found, stop) = proposals(&all, &small(), &rows);
    let told: Vec<(usize, i64)> = found
        .iter()
        .map(|p| match p.sets[0].1 {
            Value::I64(n) => (p.at, n),
            _ => panic!("{p:?}"),
        })
        .collect();
    assert_eq!(told, vec![(1, 3), (3, 5), (4, 7)]);
    assert!(stop.is_none());

    // A row that it will not set is refused with its own text, as one it rejects is.
    let (found, stop) =
        proposals(&Even { rejects: vec![6], will_not_set: vec![4] }, &small(), &rows);
    assert_eq!(found.len(), 1);
    assert_eq!(refusal(stop), (ErrorCategory::Conflict, "keep 4".to_string()));
    let (found, stop) = proposals(&Even { rejects: vec![3], will_not_set: vec![4] }, &small(), &rows);
    assert_eq!(found.len(), 1);
    assert_eq!(refusal(stop), (ErrorCategory::Conflict, "not 3".to_string()));
    assert!(proposed(&all, &small(), &rows[0].row).unwrap().is_none());
    assert_eq!(proposed(&all, &small(), &rows[1].row).unwrap().unwrap()[0].1, Value::I64(3));
}

#[test]
fn a_series_of_writes_is_all_or_nothing() {
    let page = PageId::new;
    let mut series: Series<String> = Series::new(page(5));
    series.step(Ok(Done {
        catalog: page(9),
        freed: vec![page(5)],
        out: Written::Rows(vec![vec![Value::I64(1)], vec![Value::I64(2)]]),
    }));
    assert_eq!((series.start, series.catalog), (page(5), page(9)));
    series.step(Ok(Done { catalog: page(12), freed: vec![page(9)], out: Written::Affected(7) }));
    assert_eq!(series.catalog, page(12));
    assert_eq!(series.finish().unwrap(), (page(12), vec![page(5), page(9)], vec![2, 7]));

    let mut series: Series<String> = Series::new(page(5));
    series.step(Ok(Done { catalog: page(9), freed: vec![page(5)], out: Written::Affected(1) }));
    series.step(Err("first".to_string()));
    assert_eq!((series.catalog, series.freed.len()), (page(5), 0));
    series.step(Ok(Done { catalog: page(20), freed: vec![page(6)], out: Written::Affected(1) }));
    series.step(Err("second".to_string()));
    assert_eq!((series.catalog, series.freed.len()), (page(5), 0));
    assert_eq!(series.finish().unwrap_err(), "first".to_string());

    let empty: Series<String> = Series::new(page(5));
    assert_eq!(empty.finish().unwrap(), (page(5), vec![], vec![]));
}

#[test]
fn a_damaged_tree_is_reported_by_what_reads_it() {
    let mut pager = Pager::create(MemoryBackend::new()).unwrap();
    let sound = BTree::new(&mut pager).create().unwrap();
    let damaged = pager.allocate().unwrap();
    pager.write_page(damaged, PageType::Data, &[9, 0, 0, 0]).unwrap();
    let told = |e: &BTreeError| {
        matches!(e, BTreeError::Corruption(Corruption::UnknownNodeKind { page: 3, byte: 9 }))
    };

    let keyed = |n: usize| Keyed { row: vec![], keys: (0..n).map(|_| Ok(b"k".to_vec())).collect() };
    let roots = |data: PageId, indexes: Vec<PageId>| Roots { data, indexes };
    let e = probe_row(&mut pager, &roots(damaged, vec![]), b"k", &keyed(0)).unwrap_err();
    assert!(told(&e));
    let e = probe_row(&mut pager, &roots(sound, vec![damaged]), b"k", &keyed(1)).unwrap_err();
    assert!(told(&e));
    // A key that could not be encoded is not searched for.
    let bad = TypeError { category: ErrorCategory::Validation, text: "type".to_string() };
    let unencoded = Keyed { row: vec![], keys: vec![Err(bad)] };
    let found = probe_row(&mut pager, &roots(sound, vec![damaged]), b"k", &unencoded).unwrap();
    assert_eq!(found, (false, vec![false]));

    let keys = TableKeys {
        table: b"t".to_vec(),
        root: b"r".to_vec(),
        seq: b"s".to_vec(),
        indexes: vec![],
    };
    match load_roots(&mut pager, damaged, &keys) {
        Err(CatalogError::BTree(e)) => assert!(told(&e)),
        other => panic!("{:?}", other.is_ok()),
    }
    assert!(matches!(
        load_roots(&mut pager, sound, &keys),
        Err(CatalogError::Corrupt(CatalogCorruption::MissingEntry))
    ));
}
