//! The public surface: errors, typed results, cursors and reports.

use otf::btree::BTreeError;
use otf::catalog::{ColumnDef, IndexDef, TableDef};
use otf::common::{CategorizedError, ErrorCategory, IoError};
use otf::dbms::cursor::{Cursor, Page};
use otf::dbms::error::{Error, QueryError};
use otf::dbms::inspect::{table_info, Inspection, IntegrityReport};
use otf::dbms::result::{DecodeError, Response};
use otf::index::TxnError;
use otf::pager::{PagerError, PagerStats};
use otf::proto::{Plan, ProtoError, QueryResult};
use otf::value::{TypeKind, Value};

#[test]
fn lib_io_errors_propagate_as_io_category() {
    let io = IoError::OutOfBounds {
        offset: 0,
        requested: 1,
        size: 0,
    };
    let err = Error::Pager(PagerError::Io(io));
    assert_eq!(err.category(), ErrorCategory::Io);
}

#[test]
fn lib_protocol_malformed_is_validation() {
    let err = Error::Proto(ProtoError::Truncated);
    assert_eq!(err.category(), ErrorCategory::Validation);
}

#[test]
fn lib_nested_propagation_preserves_category() {
    // query → txn → btree → pager → io, all the way down.
    let io = IoError::Backend("disk gone".to_string());
    let tree = BTreeError::Pager(PagerError::Io(io));
    let txn = TxnError::BTree(tree);
    let err = Error::Query(QueryError::Txn(txn));
    assert_eq!(err.category(), ErrorCategory::Io);
}

#[test]
fn every_layer_keeps_its_category() {
    let gone = IoError::Backend("gone".to_string());
    assert_eq!(Error::Io(gone).category(), ErrorCategory::Io);
    let text = "write conflict".to_string();
    let conflict = TxnError::Own { category: ErrorCategory::Conflict, text };
    assert_eq!(Error::Txn(conflict).category(), ErrorCategory::Conflict);
    let unknown = DecodeError::UnknownColumn("x".to_string());
    assert_eq!(Error::Decode(unknown).category(), ErrorCategory::Validation);
    assert_eq!(Error::Usage("no").category(), ErrorCategory::Validation);
}

fn response() -> Response {
    Response::new(QueryResult {
        columns: vec!["id".into(), "name".into(), "score".into(), "ok".into()],
        rows: vec![
            vec![
                Value::I64(1),
                Value::Text("Ada".into()),
                Value::F64(2.5f64.to_bits()),
                Value::Bool(true),
            ],
            vec![Value::Null, Value::Null, Value::Null, Value::Null],
        ],
        cursor: Some(vec![1, 2]),
        applied: Some(true),
        affected: Some(2),
    })
}

#[test]
fn rows_are_read_by_name_and_type() {
    let r = response();
    assert_eq!(r.len(), 2);
    assert!(!r.is_empty());
    assert_eq!(r.column_index("score"), Some(2));
    assert_eq!(r.column_index("nope"), None);
    let row = r.row(0).unwrap();
    assert_eq!(row.get_i64("id").unwrap(), Some(1));
    assert_eq!(row.get_text("name").unwrap(), Some("Ada"));
    assert_eq!(row.get_f64("score").unwrap().map(f64::from_bits), Some(2.5));
    assert_eq!(row.get_bool("ok").unwrap(), Some(true));
    assert_eq!(row.at(1), Some(&Value::Text("Ada".into())));
    assert_eq!(row.at(4), None);
    assert_eq!(row.get("id"), Some(&Value::I64(1)));
    let nulls = r.row(1).unwrap();
    assert_eq!(nulls.get_i64("id").unwrap(), None);
    assert!(r.row(2).is_none());
    assert_eq!(r.rows().len(), 2);
    assert_eq!(r.cursor(), Some(&vec![1, 2]));
    assert_eq!((r.applied(), r.affected()), (Some(true), Some(2)));
}

#[test]
fn wrong_reads_are_named() {
    let r = response();
    let row = r.row(0).unwrap();
    assert_eq!(row.get_i64("zip"), Err(DecodeError::UnknownColumn("zip".into())));
    match row.get_bool("name") {
        Err(DecodeError::TypeMismatch { column, expected }) => {
            assert_eq!(column, "name");
            assert!(!expected.is_empty());
        }
        other => panic!("{other:?}"),
    }
    assert!(row.get_text("id").is_err());
}

fn page(rows: usize, cursor: Option<Vec<u8>>) -> Page {
    Page {
        columns: vec!["id".to_string()],
        rows: (0..rows).map(|i| vec![Value::I64(i as i64)]).collect(),
        cursor,
    }
}

#[test]
fn a_cursor_runs_until_a_page_has_no_token() {
    let mut c = Cursor::open(vec!["id".to_string()], 2).unwrap();
    assert_eq!(c.columns(), &vec!["id".to_string()]);
    assert!(!c.is_done());
    let base = || Plan::Scan { table: "t".to_string(), alias: None };
    // The first page is only limited.
    match c.page_plan(base()) {
        Plan::Limit { limit: Some(2), offset: 0, input } => {
            assert!(matches!(*input, Plan::Scan { .. }));
        }
        other => panic!("{other:?}"),
    }
    assert_eq!(c.fetch(Some(page(2, Some(vec![7])))).len(), 2);
    // The next one carries the token.
    match c.page_plan(base()) {
        Plan::Cursor { token, input } => {
            assert_eq!(token, vec![7]);
            assert!(matches!(*input, Plan::Limit { .. }));
        }
        Plan::Limit { input, .. } => assert!(matches!(*input, Plan::Cursor { .. })),
        other => panic!("{other:?}"),
    }
    assert_eq!(c.fetch(Some(page(1, None))).len(), 1);
    assert!(c.is_done());
    // From here on every page is empty, and none is asked for.
    for extra in [None, Some(page(3, Some(vec![9])))] {
        let last = c.fetch(extra);
        assert!(last.is_empty());
        assert_eq!(last.cursor(), None);
        assert_eq!(last.columns(), &vec!["id".to_string()]);
        assert!(c.is_done());
    }
}

#[test]
fn a_walk_gives_each_row_once_and_in_order() {
    for total in [0usize, 1, 3, 6, 7] {
        let all: Vec<Vec<Value>> = (0..total).map(|i| vec![Value::I64(i as i64)]).collect();
        let mut c = Cursor::open(vec!["id".to_string()], 3).unwrap();
        let mut seen: Vec<i64> = Vec::new();
        let mut fetches = 0;
        while !c.is_done() {
            let plan = c.page_plan(Plan::Scan { table: "t".to_string(), alias: None });
            // The executor resumes at the row that the token stands for.
            let from = match plan {
                Plan::Limit { input, .. } => match *input {
                    Plan::Cursor { token, .. } => token[0] as usize,
                    _ => 0,
                },
                other => panic!("{other:?}"),
            };
            let to = (from + 3).min(total);
            let response = c.fetch(Some(Page {
                columns: vec!["id".to_string()],
                rows: all[from..to].iter().map(|r| vec![r[0].copy()]).collect(),
                cursor: if to < total { Some(vec![to as u8]) } else { None },
            }));
            assert_eq!(response.cursor().is_none(), c.is_done());
            for row in response.rows() {
                seen.push(row.get_i64("id").unwrap().unwrap());
            }
            fetches += 1;
        }
        assert_eq!(seen, (0..total as i64).collect::<Vec<_>>());
        assert_eq!(fetches, if total == 0 { 1 } else { (total + 2) / 3 });
    }
}

#[test]
fn an_empty_page_size_is_a_usage_error() {
    match Cursor::open(vec![], 0) {
        Err(Error::Usage(_)) => {}
        other => panic!("{other:?}"),
    }
}

fn stats() -> PagerStats {
    PagerStats { page_count: 9, free_ids: 2, trunk_count: 1, active_slot: 1, txn_id: 4 }
}

#[test]
fn reports_read_as_text() {
    let report = IntegrityReport { stats: stats(), tables_checked: 3 };
    let text = report.to_text();
    assert!(text.contains('9') && text.contains('4') && text.contains('3'), "{text}");
    let def = TableDef::new(
        "users",
        vec![ColumnDef::new("id", TypeKind::I64), ColumnDef::new("city", TypeKind::Text)],
        vec!["id"],
    )
    .index(IndexDef::new("by_city", vec!["city"]));
    let info = table_info(&def, 5);
    assert_eq!((info.name.as_str(), info.columns, info.rows), ("users", 2, 5));
    assert_eq!(info.indexes, vec!["by_city".to_string()]);
    let all = Inspection { stats: stats(), tables: vec![info] };
    let text = all.to_text();
    assert!(text.contains("users") && text.contains("by_city"), "{text}");
}
