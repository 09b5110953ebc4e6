//! The interactive shell, line by line.

use otf::cli::{
    finish, fmt_value, parse_line, parse_number, render_table, run_line, scan_request, schema,
    tables, words, Command, Step, Turn,
};
use otf::dbms::inspect::{Inspection, TableInfo};
use otf::pager::PagerStats;
use otf::proto::{Request, Select, Stage, TableRef};
use otf::value::Value;

fn seeded() -> (Inspection, Vec<Vec<Value>>) {
    let inspection = Inspection {
        stats: PagerStats { page_count: 5, free_ids: 0, trunk_count: 0, active_slot: 1, txn_id: 3 },
        tables: vec![TableInfo {
            name: "users".to_string(),
            columns: 2,
            rows: 2,
            indexes: vec![],
        }],
    };
    let rows = vec![
        vec![Value::I64(1), Value::Text("Ada".into())],
        vec![Value::I64(2), Value::Text("Grace".into())],
    ];
    (inspection, rows)
}

/// What the seeded database answers.
fn answer(command: &Command) -> Result<String, String> {
    let (inspection, rows) = seeded();
    let known = |table: &str| -> Result<(), String> {
        if table == "users" {
            Ok(())
        } else {
            Err(format!("[NotFound] unknown table {table:?}"))
        }
    };
    match command {
        Command::Tables => Ok(tables(&inspection)),
        Command::Schema(table) => schema(&inspection, table),
        Command::Count(table) => known(table).map(|_| rows.len().to_string()),
        Command::Scan(table, limit) => {
            known(table)?;
            let labels = vec!["id".to_string(), "name".to_string()];
            let shown: Vec<Vec<String>> = rows
                .iter()
                .take(*limit as usize)
                .map(|r| r.iter().map(|v| fmt_value(v, "")).collect())
                .collect();
            Ok(render_table(&labels, &shown))
        }
        Command::Inspect => Ok(inspection.to_text()),
        other => panic!("{other:?} is not for the database"),
    }
}

fn step(line: &str, timing: &mut bool) -> Step {
    let answered = match run_line(line, timing) {
        Turn::Step(step) => return step,
        Turn::Answer(out) => out,
        Turn::Ask(command) => answer(&command),
    };
    finish(answered, if *timing { Some("0.250") } else { None })
}

fn output(line: &str) -> String {
    let mut timing = false;
    match step(line, &mut timing) {
        Step::Print(text) => text,
        Step::Quit => "<quit>".to_string(),
    }
}

#[test]
fn quit_variants_signal_quit() {
    for q in ["\\q", "\\quit", "\\exit"] {
        assert_eq!(output(q), "<quit>");
    }
}

#[test]
fn tables_and_count_and_scan() {
    assert_eq!(output("\\tables"), "users");
    assert_eq!(output("\\count users"), "2");
    let scan = output("\\scan users");
    assert!(scan.contains("Ada") && scan.contains("Grace"));
    assert!(scan.contains("(2 row(s))"));
    // A limit caps the rows.
    assert!(output("\\scan users 1").contains("(1 row(s))"));
}

#[test]
fn schema_reports_columns_and_indexes() {
    let s = output("\\schema users");
    assert!(s.contains("users") && s.contains("2 column(s)") && s.contains("2 row(s)"));
}

#[test]
fn errors_never_panic_and_stay_in_the_loop() {
    assert!(output("\\count nope").starts_with("error:"));
    assert!(output("\\bogus").starts_with("error:"));
    assert!(output("\\scan").starts_with("error:"));
    assert_eq!(output(""), "");
}

#[test]
fn timing_toggles_and_annotates() {
    let mut timing = false;
    // Toggle on.
    match step("\\timing", &mut timing) {
        Step::Print(t) => assert_eq!(t, "timing on"),
        Step::Quit => panic!(),
    }
    assert!(timing);
    // A subsequent command carries an elapsed-time annotation.
    match step("\\count users", &mut timing) {
        Step::Print(t) => assert!(t.contains("ms)")),
        Step::Quit => panic!(),
    }
}

#[test]
fn lines_are_read_by_words() {
    assert_eq!(words("  a  bc\td "), vec!["a", "bc", "d"]);
    assert!(words(" \t ").is_empty());
    assert_eq!(parse_line("\\scan users 7"), Command::Scan("users".into(), 7));
    assert_eq!(parse_line("\\scan users"), Command::Scan("users".into(), 20));
    assert_eq!(parse_line("\\count t"), Command::Count("t".into()));
    assert_eq!(parse_line("   "), Command::Nothing);
    assert!(matches!(parse_line("\\scan users x"), Command::Wrong(_)));
    assert_eq!(parse_number("18446744073709551615"), Some(u64::MAX));
    assert_eq!(parse_number("18446744073709551616"), None);
    assert_eq!(parse_number(""), None);
}

#[test]
fn a_scan_is_a_limited_pipeline() {
    let want = Request::Select(Select::Pipeline(vec![
        Stage::Scan(TableRef { table: "t".to_string(), alias: None }),
        Stage::Limit { limit: Some(3), offset: 0 },
    ]));
    assert_eq!(scan_request("t", Some(3)), want);
}

#[test]
fn values_have_their_display_form() {
    assert_eq!(fmt_value(&Value::Null, ""), "NULL");
    assert_eq!(fmt_value(&Value::I64(-7), ""), "-7");
    assert_eq!(fmt_value(&Value::Bool(true), ""), "true");
    assert_eq!(fmt_value(&Value::F64(2.5f64.to_bits()), "2.5"), "2.5");
    assert_eq!(fmt_value(&Value::Text("x".into()), ""), "x");
    assert_eq!(
        fmt_value(&Value::Uuid([0x12; 16]), ""),
        "12121212-1212-1212-1212-121212121212"
    );
    assert_eq!(fmt_value(&Value::Json(b"[1]".to_vec()), ""), "[1]");
    assert_eq!(fmt_value(&Value::Json(vec![b'a', 0xFF, b'b']), ""), "a\u{FFFD}b");
}

#[test]
fn an_unknown_command_is_quoted() {
    assert_eq!(
        parse_line("\\a\"b"),
        Command::Wrong("unknown command \"\\\\a\\\"b\" — try \\help".to_string())
    );
}

#[test]
fn columns_are_padded_to_their_widest_cell() {
    let text = render_table(
        &vec!["a".to_string(), "name".to_string()],
        &vec![vec!["1234".to_string(), "x".to_string()]],
    );
    let lines: Vec<&str> = text.lines().collect();
    assert!(lines[0].starts_with("a    "), "{text}");
    assert!(lines.iter().any(|l| l.starts_with("1234")), "{text}");
    assert!(text.contains("(1 row(s))"));
}
