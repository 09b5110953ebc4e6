//! The interactive shell: its commands, and the text of its answers.
//!
//! There is no text query language, so the shell is an inspection and scan console:
//! meta-commands to list tables, show a schema line, count and scan rows, and run the
//! integrity and inspection tools. A bad command is answered with a message.

use vstd::prelude::*;
use vstd::string::{StrSliceExecFns, StringExecFns};
use vstd::utf8::encode_utf8;
use crate::dbms::inspect::{Inspection, TableInfoV};
use crate::proto::ast::{Request, RequestV, Select, SelectV, Stage, StageV, TableRef, TableRefV};
use crate::text::{
    counted, decimal, decimals_count_to_their_number, from_utf8_lossy, join_text, join_texts,
    joined_texts_stand_apart, lossy, push_decimal, same, show, shown, signed_decimal,
    to_signed_decimal,
};
use crate::value::{uuid_text, uuid_to_string, Value, ValueV};
use crate::views::views;

verus! {

// --- commands ----------------------------------------------------------------

/// Whether a character is white space.
pub open spec fn is_white(c: char) -> bool {
    let n = c as u32;
    9 <= n <= 13 || n == 32 || n == 0x85 || n == 0xA0 || n == 0x1680 || 0x2000 <= n <= 0x200A || n
        == 0x2028 || n == 0x2029 || n == 0x202F || n == 0x205F || n == 0x3000
}

fn white(c: char) -> (r: bool)
    ensures
        r == is_white(c),
{
    let n: u32 = c as u32;
    (9 <= n && n <= 13) || n == 32 || n == 0x85 || n == 0xA0 || n == 0x1680 || (0x2000 <= n && n
        <= 0x200A) || n == 0x2028 || n == 0x2029 || n == 0x202F || n == 0x205F || n == 0x3000
}

/// How many characters stand before the first white space.
pub open spec fn word_len(s: Seq<char>) -> nat
    decreases s.len(),
{
    if s.len() == 0 || is_white(s[0]) {
        0
    } else {
        1 + word_len(s.drop_first())
    }
}

/// The words of a line: its longest parts without white space.
pub open spec fn words_of(s: Seq<char>) -> Seq<Seq<char>>
    decreases s.len(),
{
    if s.len() == 0 {
        Seq::empty()
    } else if is_white(s[0]) {
        words_of(s.drop_first())
    } else {
        proof {
            lemma_word_len(s);
        }
        seq![s.take(word_len(s) as int)] + words_of(s.skip(word_len(s) as int))
    }
}

pub proof fn lemma_word_len(s: Seq<char>)
    ensures
        word_len(s) <= s.len(),
        forall|i: int| 0 <= i < word_len(s) ==> !is_white(#[trigger] s[i]),
        word_len(s) < s.len() ==> is_white(s[word_len(s) as int]),
    decreases s.len(),
{
    if s.len() > 0 && !is_white(s[0]) {
        let rest = s.drop_first();
        lemma_word_len(rest);
        assert forall|i: int| 0 <= i < word_len(s) implies !is_white(#[trigger] s[i]) by {
            if i > 0 {
                assert(s[i] == rest[i - 1]);
            }
        }
    }
}

proof fn lemma_word_len_is(s: Seq<char>, n: int)
    requires
        0 <= n <= s.len(),
        forall|i: int| 0 <= i < n ==> !is_white(#[trigger] s[i]),
        n < s.len() ==> is_white(s[n]),
    ensures
        word_len(s) == n,
{
    lemma_word_len(s);
    if word_len(s) < n {
        assert(!is_white(s[word_len(s) as int]));
    }
    if n < word_len(s) {
        assert(!is_white(s[n]));
    }
}

/// The words of a line.
pub fn words(line: &str) -> (r: Vec<String>)
    ensures
        views(r@) == words_of(line@),
{
    let ghost s = line@;
    let n: usize = line.unicode_len();
    let mut out: Vec<String> = Vec::new();
    let mut i: usize = 0;
    assert(s.skip(0) =~= s);
    assert(views(out@) + words_of(s) =~= words_of(s));
    while i < n
        invariant
            i <= n,
            n == s.len(),
            s == line@,
            views(out@) + words_of(s.skip(i as int)) == words_of(s),
        decreases n - i,
    {
        let ghost rest = s.skip(i as int);
        if white(line.get_char(i)) {
            assert(rest.drop_first() =~= s.skip(i + 1));
            i = i + 1;
        } else {
            let mut j: usize = i + 1;
            while j < n && !white(line.get_char(j))
                invariant
                    i < j <= n,
                    n == s.len(),
                    s == line@,
                    forall|k: int| i <= k < j ==> !is_white(#[trigger] s[k]),
                decreases n - j,
            {
                j = j + 1;
            }
            let ghost before = views(out@);
            let word = line.substring_char(i, j).to_owned();
            proof {
                assert forall|k: int| 0 <= k < j - i implies !is_white(#[trigger] rest[k]) by {
                    assert(rest[k] == s[i + k]);
                }
                lemma_word_len_is(rest, j - i);
                assert(rest.take(j - i) =~= s.subrange(i as int, j as int));
                assert(rest.skip(j - i) =~= s.skip(j as int));
            }
            out.push(word);
            assert(views(out@) =~= before.push(word@));
            assert(before + (seq![word@] + words_of(s.skip(j as int))) =~= views(out@) + words_of(
                s.skip(j as int),
            ));
            i = j;
        }
    }
    assert(s.skip(i as int) =~= Seq::empty());
    assert(views(out@) + Seq::empty() =~= views(out@));
    out
}

/// Whether all characters are decimal digits.
pub open spec fn all_digits(s: Seq<char>) -> bool {
    forall|i: int| 0 <= i < s.len() ==> '0' <= #[trigger] s[i] <= '9'
}

/// The number that decimal digits stand for.
pub open spec fn digits_value(s: Seq<char>) -> nat
    decreases s.len(),
{
    if s.len() == 0 {
        0
    } else {
        10 * digits_value(s.drop_last()) + (s.last() as u32 - 48) as nat
    }
}

/// The digits of a number's text: a leading plus sign is no part of them.
pub open spec fn unsigned_part(s: Seq<char>) -> Seq<char> {
    if s.len() > 1 && s[0] == '+' {
        s.drop_first()
    } else {
        s
    }
}

/// The number that a text stands for, if it stands for one that fits.
pub open spec fn number_of(s: Seq<char>) -> Option<u64> {
    let d = unsigned_part(s);
    if d.len() > 0 && all_digits(d) && digits_value(d) <= u64::MAX {
        Some(digits_value(d) as u64)
    } else {
        None
    }
}

proof fn lemma_digits_grow(s: Seq<char>, n: int)
    requires
        0 <= n <= s.len(),
        all_digits(s),
    ensures
        digits_value(s.take(n)) <= digits_value(s),
    decreases s.len() - n,
{
    if n == s.len() {
        assert(s.take(n) =~= s);
    } else {
        lemma_digits_grow(s, n + 1);
        assert(s.take(n + 1).drop_last() =~= s.take(n));
        assert(s.take(n + 1).last() == s[n]);
    }
}

/// Read a number that is not negative.
pub fn parse_number(text: &str) -> (r: Option<u64>)
    ensures
        r == number_of(text@),
{
    let ghost s = text@;
    let ghost d = unsigned_part(s);
    let n: usize = text.unicode_len();
    if n == 0 {
        return None;
    }
    let start: usize = if n > 1 && text.get_char(0) == '+' {
        1
    } else {
        0
    };
    assert(d =~= s.skip(start as int));
    let mut value: u64 = 0;
    let mut i: usize = start;
    let mut fits = true;
    assert(d.take(0) =~= Seq::empty());
    while i < n
        invariant
            start <= i <= n,
            n == s.len(),
            s == text@,
            d == s.skip(start as int),
            d == unsigned_part(s),
            forall|k: int| 0 <= k < i - start ==> '0' <= #[trigger] d[k] <= '9',
            fits ==> value == digits_value(d.take(i - start)),
            !fits ==> digits_value(d.take(i - start)) > u64::MAX,
        decreases n - i,
    {
        let c = text.get_char(i);
        assert(d[i - start] == c);
        if !('0' <= c && c <= '9') {
            assert(!all_digits(d));
            return None;
        }
        proof {
            assert(d.take(i - start + 1).drop_last() =~= d.take(i - start));
            assert(d.take(i - start + 1).last() == c);
        }
        let digit: u64 = c as u64 - 48;
        if fits {
            match value.checked_mul(10) {
                None => {
                    fits = false;
                },
                Some(tens) => match tens.checked_add(digit) {
                    None => {
                        fits = false;
                    },
                    Some(sum) => {
                        value = sum;
                    },
                },
            }
        }
        i = i + 1;
    }
    assert(d.take(i - start) =~= d);
    if fits {
        Some(value)
    } else {
        None
    }
}

/// A command that the database has to be asked for, or that is answered at once.
#[derive(Debug, PartialEq, Eq)]
pub enum Command {
    /// Nothing.
    Nothing,
    /// Leave.
    Quit,
    /// Show the commands.
    Help,
    /// Toggle command timing.
    Timing,
    /// List tables.
    Tables,
    /// Show a table's columns, rows and indexes.
    Schema(String),
    /// Count a table's rows.
    Count(String),
    /// Print up to so many rows of a table.
    Scan(String, u64),
    /// Show the storage and per-table summary.
    Inspect,
    /// Run the full integrity check.
    Check,
    /// Not a command: the message that says why.
    Wrong(String),
}

/// What a [`Command`] says.
#[verifier::ext_equal]
pub enum CommandV {
    Nothing,
    Quit,
    Help,
    Timing,
    Tables,
    Schema(Seq<char>),
    Count(Seq<char>),
    Scan(Seq<char>, u64),
    Inspect,
    Check,
    Wrong(Seq<char>),
}

impl View for Command {
    type V = CommandV;

    open spec fn view(&self) -> CommandV {
        match self {
            Command::Nothing => CommandV::Nothing,
            Command::Quit => CommandV::Quit,
            Command::Help => CommandV::Help,
            Command::Timing => CommandV::Timing,
            Command::Tables => CommandV::Tables,
            Command::Schema(t) => CommandV::Schema(t@),
            Command::Count(t) => CommandV::Count(t@),
            Command::Scan(t, n) => CommandV::Scan(t@, *n),
            Command::Inspect => CommandV::Inspect,
            Command::Check => CommandV::Check,
            Command::Wrong(m) => CommandV::Wrong(m@),
        }
    }
}

/// The command that words make up.
pub open spec fn command_of(ws: Seq<Seq<char>>) -> CommandV {
    if ws.len() == 0 {
        CommandV::Nothing
    } else {
        let c = ws[0];
        if c == "\\q"@ || c == "\\quit"@ || c == "\\exit"@ {
            CommandV::Quit
        } else if c == "\\help"@ || c == "\\h"@ || c == "\\?"@ {
            CommandV::Help
        } else if c == "\\timing"@ {
            CommandV::Timing
        } else if c == "\\tables"@ {
            CommandV::Tables
        } else if c == "\\schema"@ {
            if ws.len() == 2 {
                CommandV::Schema(ws[1])
            } else {
                CommandV::Wrong("usage: \\schema <table>"@)
            }
        } else if c == "\\count"@ {
            if ws.len() == 2 {
                CommandV::Count(ws[1])
            } else {
                CommandV::Wrong("usage: \\count <table>"@)
            }
        } else if c == "\\scan"@ {
            if ws.len() == 2 {
                CommandV::Scan(ws[1], 20)
            } else if ws.len() == 3 {
                match number_of(ws[2]) {
                    Some(n) => CommandV::Scan(ws[1], n),
                    None => CommandV::Wrong("not a number: "@ + ws[2]),
                }
            } else {
                CommandV::Wrong("usage: \\scan <table> [limit]"@)
            }
        } else if c == "\\inspect"@ {
            CommandV::Inspect
        } else if c == "\\check"@ {
            CommandV::Check
        } else {
            CommandV::Wrong("unknown command "@ + shown(c) + " — try \\help"@)
        }
    }
}

/// Read a line as a command.
pub fn parse_line(line: &str) -> (r: Command)
    ensures
        r@ == command_of(words_of(line@)),
{
    let ws = words(line);
    let ghost vs = views(ws@);
    assert(vs.len() == ws@.len());
    if ws.len() == 0 {
        return Command::Nothing;
    }
    assert(vs[0] == ws@[0]@);
    let c = ws[0].as_str();
    if same(c, "\\q") || same(c, "\\quit") || same(c, "\\exit") {
        Command::Quit
    } else if same(c, "\\help") || same(c, "\\h") || same(c, "\\?") {
        Command::Help
    } else if same(c, "\\timing") {
        Command::Timing
    } else if same(c, "\\tables") {
        Command::Tables
    } else if same(c, "\\schema") {
        if ws.len() == 2 {
            assert(vs[1] == ws@[1]@);
            Command::Schema(ws[1].clone())
        } else {
            Command::Wrong("usage: \\schema <table>".to_owned())
        }
    } else if same(c, "\\count") {
        if ws.len() == 2 {
            assert(vs[1] == ws@[1]@);
            Command::Count(ws[1].clone())
        } else {
            Command::Wrong("usage: \\count <table>".to_owned())
        }
    } else if same(c, "\\scan") {
        if ws.len() == 2 {
            assert(vs[1] == ws@[1]@);
            Command::Scan(ws[1].clone(), 20)
        } else if ws.len() == 3 {
            assert(vs[1] == ws@[1]@ && vs[2] == ws@[2]@);
            match parse_number(ws[2].as_str()) {
                Some(n) => Command::Scan(ws[1].clone(), n),
                None => {
                    let mut m = "not a number: ".to_owned();
                    m.append(ws[2].as_str());
                    Command::Wrong(m)
                },
            }
        } else {
            Command::Wrong("usage: \\scan <table> [limit]".to_owned())
        }
    } else if same(c, "\\inspect") {
        Command::Inspect
    } else if same(c, "\\check") {
        Command::Check
    } else {
        let mut m = "unknown command ".to_owned();
        let q = show(c);
        m.append(q.as_str());
        m.append(" — try \\help");
        Command::Wrong(m)
    }
}

/// What the loop should do after a line.
#[derive(Debug, PartialEq, Eq)]
pub enum Step {
    /// Print this text (may be multi-line or empty) and keep going.
    Print(String),
    /// Leave the shell.
    Quit,
}

/// What a line comes to.
#[derive(Debug, PartialEq, Eq)]
pub enum Turn {
    /// What the loop should do.
    Step(Step),
    /// An answer, still to be finished: see [`finish`].
    Answer(core::result::Result<String, String>),
    /// A question for the database. Its answer is still to be finished.
    Ask(Command),
}

/// Whether a turn is the one that a command calls for.
pub open spec fn turn_for(t: Turn, c: CommandV, timing_after: bool) -> bool {
    match c {
        CommandV::Nothing => t matches Turn::Step(Step::Print(s)) && s@.len() == 0,
        CommandV::Quit => t matches Turn::Step(Step::Quit),
        CommandV::Help => t matches Turn::Answer(Ok(s)) && s@ == help(),
        CommandV::Timing => t matches Turn::Step(Step::Print(s)) && s@ == (if timing_after {
            "timing on"@
        } else {
            "timing off"@
        }),
        CommandV::Wrong(m) => t matches Turn::Answer(Err(s)) && s@ == m,
        _ => t matches Turn::Ask(q) && q@ == c,
    }
}

/// Handle one input line: what it comes to without the database. `timing` is toggled
/// by `\timing`.
pub fn run_line(line: &str, timing: &mut bool) -> (r: Turn)
    ensures
        *final(timing) == (if command_of(words_of(line@)) is Timing {
            !*old(timing)
        } else {
            *old(timing)
        }),
        turn_for(r, command_of(words_of(line@)), *final(timing)),
{
    match parse_line(line) {
        Command::Nothing => Turn::Step(Step::Print(String::new())),
        Command::Quit => Turn::Step(Step::Quit),
        Command::Help => Turn::Answer(Ok(help_text())),
        Command::Timing => {
            // The toggle itself is reported untimed.
            *timing = !*timing;
            Turn::Step(
                Step::Print(
                    if *timing {
                        "timing on".to_owned()
                    } else {
                        "timing off".to_owned()
                    },
                ),
            )
        },
        Command::Wrong(m) => Turn::Answer(Err(m)),
        other => Turn::Ask(other),
    }
}

/// The text of a finished answer.
pub open spec fn finished(out: core::result::Result<Seq<char>, Seq<char>>, ms: Option<Seq<char>>) -> Seq<
    char,
> {
    let text = match out {
        Ok(t) => t,
        Err(m) => "error: "@ + m,
    };
    match ms {
        None => text,
        Some(ms) => {
            let line = if text.len() > 0 && text.last() != '\n' {
                text + "\n"@
            } else {
                text
            };
            line + "("@ + ms + " ms)"@
        },
    }
}

/// What an answer says.
pub open spec fn answer_view(out: core::result::Result<String, String>) -> core::result::Result<
    Seq<char>,
    Seq<char>,
> {
    match out {
        Ok(t) => Ok(t@),
        Err(m) => Err(m@),
    }
}

/// Finish an answer: an error is marked as one, and where timing is on the elapsed
/// milliseconds stand behind it.
pub fn finish(out: core::result::Result<String, String>, ms: Option<&str>) -> (r: Step)
    ensures
        r matches Step::Print(t) && t@ == finished(
            answer_view(out),
            match ms {
                Some(m) => Some(m@),
                None => None,
            },
        ),
{
    let mut text = match out {
        Ok(t) => t,
        Err(m) => {
            let mut t = "error: ".to_owned();
            t.append(m.as_str());
            t
        },
    };
    if let Some(ms) = ms {
        let n: usize = text.as_str().unicode_len();
        if n > 0 && text.as_str().get_char(n - 1) != '\n' {
            text.append("\n");
        }
        text.append("(");
        text.append(ms);
        text.append(" ms)");
    }
    Step::Print(text)
}

/// The list of commands.
pub open spec fn help() -> Seq<char> {
    "commands:\n  \\tables            list tables\n  \\schema <table>    show a table's columns, rows, and indexes\n  \\count  <table>    number of rows\n  \\scan   <table> [n]  print up to n rows (default 20)\n  \\inspect           storage + per-table summary\n  \\check             full integrity check\n  \\timing            toggle command timing\n  \\help              this help\n  \\quit              leave"@
}

/// The list of commands.
pub fn help_text() -> (r: String)
    ensures
        r@ == help(),
{
    "commands:\n  \\tables            list tables\n  \\schema <table>    show a table's columns, rows, and indexes\n  \\count  <table>    number of rows\n  \\scan   <table> [n]  print up to n rows (default 20)\n  \\inspect           storage + per-table summary\n  \\check             full integrity check\n  \\timing            toggle command timing\n  \\help              this help\n  \\quit              leave".to_owned()
}

// --- answers -----------------------------------------------------------------

/// The names of tables, one on each line.
pub fn tables(inspection: &Inspection) -> (r: String)
    ensures
        r@ == (if inspection.tables@.len() == 0 {
            "(no tables)"@
        } else {
            join_text(
                Seq::new(inspection.tables@.len(), |i: int| inspection.tables@[i].name@),
                "\n"@,
            )
        }),
{
    if inspection.tables.len() == 0 {
        return "(no tables)".to_owned();
    }
    let mut names: Vec<String> = Vec::new();
    let mut i: usize = 0;
    while i < inspection.tables.len()
        invariant
            i <= inspection.tables@.len(),
            names@.len() == i,
            forall|j: int| 0 <= j < i ==> (#[trigger] names@[j])@ == inspection.tables@[j].name@,
        decreases inspection.tables@.len() - i,
    {
        names.push(inspection.tables[i].name.clone());
        i = i + 1;
    }
    assert(views(names@) =~= Seq::new(
        inspection.tables@.len(),
        |i: int| inspection.tables@[i].name@,
    ));
    join_texts(&names, "\n")
}

/// The line about a table's columns, rows and indexes.
pub open spec fn schema_line(t: TableInfoV) -> Seq<char> {
    t.name + ": "@ + decimal(t.columns) + " column(s), "@ + decimal(t.rows)
        + " row(s)\nindexes: "@ + (if t.indexes.len() == 0 {
        "(none)"@
    } else {
        join_text(t.indexes, ", "@)
    })
}

/// The answer about a table: that of the first with this name, from `i` on.
pub open spec fn schema_answer(ts: Seq<TableInfoV>, table: Seq<char>, i: int) -> core::result::Result<
    Seq<char>,
    Seq<char>,
>
    decreases ts.len() - i,
{
    if i < 0 || i >= ts.len() {
        Err("no such table: "@ + table)
    } else if ts[i].name == table {
        Ok(schema_line(ts[i]))
    } else {
        schema_answer(ts, table, i + 1)
    }
}

/// A table's columns, rows and indexes.
pub fn schema(inspection: &Inspection, table: &str) -> (r: core::result::Result<String, String>)
    ensures
        answer_view(r) == schema_answer(views(inspection.tables@), table@, 0),
{
    let ghost vs = views(inspection.tables@);
    let mut i: usize = 0;
    while i < inspection.tables.len()
        invariant
            i <= inspection.tables@.len(),
            vs == views(inspection.tables@),
            schema_answer(vs, table@, 0) == schema_answer(vs, table@, i as int),
        decreases inspection.tables@.len() - i,
    {
        let info = &inspection.tables[i];
        assert(vs[i as int] == info@);
        if same(info.name.as_str(), table) {
            let mut out = info.name.clone();
            out.append(": ");
            push_decimal(&mut out, info.columns as u64);
            out.append(" column(s), ");
            push_decimal(&mut out, info.rows as u64);
            out.append(" row(s)\nindexes: ");
            assert(info@.indexes.len() == info.indexes@.len());
            if info.indexes.len() == 0 {
                out.append("(none)");
            } else {
                let names = join_texts(&info.indexes, ", ");
                out.append(names.as_str());
            }
            return Ok(out);
        }
        i = i + 1;
    }
    let mut m = "no such table: ".to_owned();
    m.append(table);
    Err(m)
}

/// The stages of a full-table scan, capped if there is a limit.
pub open spec fn scan_stages(table: Seq<char>, limit: Option<u64>) -> Seq<StageV> {
    let scan = StageV::Scan(TableRefV { table, alias: None });
    match limit {
        None => seq![scan],
        Some(n) => seq![scan, StageV::Limit { limit: Some(n), offset: 0 }],
    }
}

/// A full-table scan, optionally capped by a top-level limit.
pub fn scan_request(table: &str, limit: Option<u64>) -> (r: Request)
    ensures
        r@ == RequestV::Select(SelectV::Pipeline(scan_stages(table@, limit))),
{
    let mut stages: Vec<Stage> = Vec::new();
    stages.push(Stage::Scan(TableRef { table: table.to_owned(), alias: None }));
    if let Some(n) = limit {
        stages.push(Stage::Limit { limit: Some(n), offset: 0 });
    }
    assert(views(stages@) =~= scan_stages(table@, limit));
    Request::Select(Select::Pipeline(stages))
}

/// The text of a value. A float's is `float`.
pub open spec fn value_text(v: ValueV, float: Seq<char>) -> Seq<char> {
    match v {
        ValueV::Null => "NULL"@,
        ValueV::Bool(b) => if b {
            "true"@
        } else {
            "false"@
        },
        ValueV::I64(n) => signed_decimal(n as int),
        ValueV::F64(_) => float,
        ValueV::Text(s) => s,
        ValueV::Timestamp(t) => signed_decimal(t as int),
        ValueV::Blob(b) => "<blob "@ + decimal(b.len()) + " bytes>"@,
        ValueV::Json(j) => lossy(j),
        ValueV::Uuid(u) => uuid_text(u),
    }
}

/// A compact, human-readable rendering of a value. `float` is the text of a float.
pub fn fmt_value(v: &Value, float: &str) -> (r: String)
    ensures
        r@ == value_text(v@, float@),
{
    match v {
        Value::Null => "NULL".to_owned(),
        Value::Bool(b) => if *b {
            "true".to_owned()
        } else {
            "false".to_owned()
        },
        Value::I64(n) => to_signed_decimal(*n),
        Value::F64(_) => float.to_owned(),
        Value::Text(s) => s.clone(),
        Value::Timestamp(t) => to_signed_decimal(*t),
        Value::Blob(b) => {
            let mut out = "<blob ".to_owned();
            push_decimal(&mut out, b.len() as u64);
            out.append(" bytes>");
            out
        },
        Value::Json(j) => from_utf8_lossy(j.as_slice()),
        Value::Uuid(u) => uuid_to_string(u),
    }
}

// --- tables of text ----------------------------------------------------------

/// How many bytes a text takes.
pub open spec fn byte_len(s: Seq<char>) -> nat {
    encode_utf8(s).len()
}

/// The larger of two numbers.
pub open spec fn larger(a: nat, b: nat) -> nat {
    if a >= b {
        a
    } else {
        b
    }
}

/// The cell of a row in column `i`; a missing one is empty.
pub open spec fn text_at(row: Seq<Seq<char>>, i: int) -> Seq<char> {
    if 0 <= i < row.len() {
        row[i]
    } else {
        Seq::empty()
    }
}

/// The width of column `i`: that of its longest cell or label, in bytes.
pub open spec fn width_of(label: Seq<char>, rows: Seq<Seq<Seq<char>>>, i: int) -> nat
    decreases rows.len(),
{
    if rows.len() == 0 {
        byte_len(label)
    } else {
        larger(width_of(label, rows.drop_last(), i), byte_len(text_at(rows.last(), i)))
    }
}

/// A character so many times.
pub open spec fn repeated(c: char, n: nat) -> Seq<char> {
    Seq::new(n, |i: int| c)
}

/// A text padded with spaces to a width in characters.
pub open spec fn padded_text(s: Seq<char>, width: nat) -> Seq<char> {
    if s.len() >= width {
        s
    } else {
        s + repeated(' ', (width - s.len()) as nat)
    }
}

/// A line of cells, each padded to its column's width.
pub open spec fn cells_line(cells: Seq<Seq<char>>, widths: Seq<nat>) -> Seq<char> {
    join_text(
        Seq::new(widths.len(), |i: int| padded_text(text_at(cells, i), widths[i])),
        "  "@,
    )
}

/// The widths of all columns.
pub open spec fn widths_of(labels: Seq<Seq<char>>, rows: Seq<Seq<Seq<char>>>) -> Seq<nat> {
    Seq::new(labels.len(), |i: int| width_of(labels[i], rows, i))
}

/// The lines of rows, each behind a line break.
pub open spec fn row_lines(rows: Seq<Seq<Seq<char>>>, widths: Seq<nat>) -> Seq<char>
    decreases rows.len(),
{
    if rows.len() == 0 {
        Seq::empty()
    } else {
        row_lines(rows.drop_last(), widths) + "\n"@ + cells_line(rows.last(), widths)
    }
}

/// An aligned text table: the labels, a rule, the rows, and how many there are.
pub open spec fn table_text(labels: Seq<Seq<char>>, rows: Seq<Seq<Seq<char>>>) -> Seq<char> {
    if labels.len() == 0 {
        "(no columns)"@
    } else {
        let widths = widths_of(labels, rows);
        cells_line(labels, widths) + "\n"@ + join_text(
            Seq::new(widths.len(), |i: int| repeated('-', widths[i])),
            "  "@,
        ) + row_lines(rows, widths) + "\n("@ + decimal(rows.len()) + " row(s))"@
    }
}

/// What rows of text hold.
pub open spec fn text_rows(rows: Seq<Vec<String>>) -> Seq<Seq<Seq<char>>> {
    Seq::new(rows.len(), |i: int| views(rows[i]@))
}

fn push_repeated(out: &mut String, what: &str, n: usize, Ghost(c): Ghost<char>)
    requires
        what@ == seq![c],
    ensures
        final(out)@ == old(out)@ + repeated(c, n as nat),
{
    let mut i: usize = 0;
    assert(out@ =~= old(out)@ + repeated(c, 0));
    while i < n
        invariant
            i <= n,
            what@ == seq![c],
            out@ == old(out)@ + repeated(c, i as nat),
        decreases n - i,
    {
        out.append(what);
        i = i + 1;
        assert(out@ =~= old(out)@ + repeated(c, i as nat));
    }
}

fn pad(s: &str, width: usize) -> (r: String)
    ensures
        r@ == padded_text(s@, width as nat),
{
    proof {
        reveal_strlit(" ");
        assert(" "@ =~= seq![' ']);
    }
    let mut out = s.to_owned();
    let n: usize = s.unicode_len();
    if n < width {
        push_repeated(&mut out, " ", width - n, Ghost(' '));
    }
    out
}

fn cell_text(row: &Vec<String>, i: usize) -> (r: String)
    ensures
        r@ == text_at(views(row@), i as int),
{
    if i < row.len() {
        assert(views(row@)[i as int] == row@[i as int]@);
        row[i].clone()
    } else {
        String::new()
    }
}

/// What widths are, as numbers.
spec fn nats(ws: Seq<usize>) -> Seq<nat> {
    Seq::new(ws.len(), |i: int| ws[i] as nat)
}

fn padded_cells(cells: &Vec<String>, widths: &Vec<usize>) -> (r: String)
    ensures
        r@ == cells_line(views(cells@), nats(widths@)),
{
    let ghost vs = views(cells@);
    let ghost ws = nats(widths@);
    let mut parts: Vec<String> = Vec::new();
    let mut i: usize = 0;
    while i < widths.len()
        invariant
            i <= widths@.len(),
            vs == views(cells@),
            ws == nats(widths@),
            parts@.len() == i,
            forall|j: int|
                0 <= j < i ==> (#[trigger] parts@[j])@ == padded_text(text_at(vs, j), ws[j]),
        decreases widths@.len() - i,
    {
        let c = cell_text(cells, i);
        parts.push(pad(c.as_str(), widths[i]));
        i = i + 1;
    }
    assert(views(parts@) =~= Seq::new(
        ws.len(),
        |i: int| padded_text(text_at(vs, i), ws[i]),
    ));
    join_texts(&parts, "  ")
}

fn column_width(label: &String, rows: &Vec<Vec<String>>, i: usize) -> (r: usize)
    ensures
        r == width_of(label@, text_rows(rows@), i as int),
{
    let ghost vs = text_rows(rows@);
    let mut width: usize = label.as_str().as_bytes().len();
    let mut k: usize = 0;
    assert(vs.take(0) =~= Seq::empty());
    while k < rows.len()
        invariant
            k <= rows@.len(),
            vs == text_rows(rows@),
            width == width_of(label@, vs.take(k as int), i as int),
        decreases rows@.len() - k,
    {
        proof {
            assert(vs[k as int] == views(rows@[k as int]@));
            assert(vs.take(k + 1).drop_last() =~= vs.take(k as int));
            assert(vs.take(k + 1).last() == vs[k as int]);
        }
        let c = cell_text(&rows[k], i);
        let n: usize = c.as_str().as_bytes().len();
        if n > width {
            width = n;
        }
        k = k + 1;
    }
    assert(vs.take(k as int) =~= vs);
    width
}

/// Render labels and rows of text as an aligned text table.
pub fn render_table(labels: &Vec<String>, rows: &Vec<Vec<String>>) -> (r: String)
    ensures
        r@ == table_text(views(labels@), text_rows(rows@)),
{
    let ghost ls = views(labels@);
    let ghost vs = text_rows(rows@);
    assert(ls.len() == labels@.len());
    if labels.len() == 0 {
        return "(no columns)".to_owned();
    }
    let mut widths: Vec<usize> = Vec::new();
    let mut rules: Vec<String> = Vec::new();
    proof {
        reveal_strlit("-");
        assert("-"@ =~= seq!['-']);
    }
    let mut i: usize = 0;
    while i < labels.len()
        invariant
            i <= labels@.len(),
            ls == views(labels@),
            vs == text_rows(rows@),
            widths@.len() == i,
            rules@.len() == i,
            "-"@ == seq!['-'],
            forall|j: int| 0 <= j < i ==> #[trigger] widths@[j] == width_of(ls[j], vs, j),
            forall|j: int|
                0 <= j < i ==> (#[trigger] rules@[j])@ == repeated('-', widths@[j] as nat),
        decreases labels@.len() - i,
    {
        assert(ls[i as int] == labels@[i as int]@);
        let w = column_width(&labels[i], rows, i);
        let mut rule = String::new();
        push_repeated(&mut rule, "-", w, Ghost('-'));
        assert(rule@ =~= repeated('-', w as nat));
        widths.push(w);
        rules.push(rule);
        i = i + 1;
    }
    let ghost ws = widths_of(ls, vs);
    assert(nats(widths@) =~= ws);
    assert(views(rules@) =~= Seq::new(ws.len(), |i: int| repeated('-', ws[i])));
    let mut out = padded_cells(labels, &widths);
    out.append("\n");
    let rule = join_texts(&rules, "  ");
    out.append(rule.as_str());
    let ghost head = out@;
    let mut k: usize = 0;
    assert(vs.take(0) =~= Seq::empty());
    assert(head + Seq::empty() =~= head);
    while k < rows.len()
        invariant
            k <= rows@.len(),
            vs == text_rows(rows@),
            nats(widths@) == ws,
            out@ == head + row_lines(vs.take(k as int), ws),
        decreases rows@.len() - k,
    {
        proof {
            assert(vs[k as int] == views(rows@[k as int]@));
            assert(vs.take(k + 1).drop_last() =~= vs.take(k as int));
            assert(vs.take(k + 1).last() == vs[k as int]);
        }
        out.append("\n");
        let line = padded_cells(&rows[k], &widths);
        out.append(line.as_str());
        k = k + 1;
        assert(out@ =~= head + row_lines(vs.take(k as int), ws));
    }
    assert(vs.take(k as int) =~= vs);
    out.append("\n(");
    push_decimal(&mut out, rows.len() as u64);
    out.append(" row(s))");
    out
}

// --- what commands and answers are -------------------------------------------

/// The words of a line are told by three rules: an empty line has none, a line without
/// white space is one word, and white space parts a line into the words before it and
/// those behind it.
pub proof fn words_stand_between_white_space(a: Seq<char>, w: char, b: Seq<char>)
    ensures
        words_of(Seq::empty()) == Seq::<Seq<char>>::empty(),
        a.len() > 0 && (forall|i: int| 0 <= i < a.len() ==> !is_white(#[trigger] a[i])) ==> words_of(
            a,
        ) == seq![a],
        is_white(w) ==> words_of(a.push(w) + b) == words_of(a) + words_of(b),
    decreases a.len(),
{
    if a.len() > 0 && (forall|i: int| 0 <= i < a.len() ==> !is_white(#[trigger] a[i])) {
        lemma_word_len_is(a, a.len() as int);
        assert(!is_white(a[0]));
        assert(a.take(a.len() as int) =~= a);
        assert(a.skip(a.len() as int) =~= Seq::empty());
        assert(words_of(a.skip(a.len() as int)) =~= Seq::empty());
        assert(words_of(a) =~= seq![a]);
    }
    if is_white(w) {
        let s = a.push(w) + b;
        if a.len() == 0 {
            assert(s[0] == w);
            assert(s.drop_first() =~= b);
            assert(words_of(a) + words_of(b) =~= words_of(b));
        } else if is_white(a[0]) {
            assert(s[0] == a[0]);
            assert(s.drop_first() =~= a.drop_first().push(w) + b);
            words_stand_between_white_space(a.drop_first(), w, b);
        } else {
            lemma_word_len(a);
            let n = word_len(a) as int;
            assert forall|i: int| 0 <= i < n implies !is_white(#[trigger] s[i]) by {
                assert(s[i] == a[i]);
            }
            assert(s[n] == if n < a.len() {
                a[n]
            } else {
                w
            });
            lemma_word_len_is(s, n);
            assert(n > 0) by {
                lemma_word_len_is(a, n);
            }
            assert(s.take(n) =~= a.take(n));
            assert(s.skip(n) =~= a.skip(n).push(w) + b);
            words_stand_between_white_space(a.skip(n), w, b);
            assert(seq![a.take(n)] + (words_of(a.skip(n)) + words_of(b)) =~= seq![a.take(n)]
                + words_of(a.skip(n)) + words_of(b));
        }
    }
}

/// The text of a number is read as that number, with or without a plus sign and with
/// any zeros in front, where it fits; what holds anything but digits behind the sign is
/// read as none.
pub proof fn numbers_are_read_as_written(n: nat, zeros: nat, s: Seq<char>)
    ensures
        ({
            let text = Seq::new(zeros, |i: int| '0') + decimal(n);
            let want = if n <= u64::MAX {
                Some(n as u64)
            } else {
                None
            };
            number_of(text) == want && number_of(seq!['+'] + text) == want
        }),
        number_of(Seq::empty()) is None,
        (exists|i: int| 0 < i < s.len() && !('0' <= #[trigger] s[i] <= '9')) ==> number_of(s) is None,
        s.len() > 0 && !('0' <= s[0] <= '9') && s[0] != '+' ==> number_of(s) is None,
        number_of(seq!['+']) is None,
{
    decimals_count_to_their_number(n);
    let text = Seq::new(zeros, |i: int| '0') + decimal(n);
    lemma_zeros(decimal(n), zeros);
    lemma_counted(decimal(n));
    assert(all_digits(text)) by {
        assert forall|i: int| 0 <= i < text.len() implies '0' <= #[trigger] text[i] <= '9' by {
            if i >= zeros {
                assert(text[i] == decimal(n)[i - zeros]);
            }
        }
    }
    assert('0' <= text[0] <= '9');
    assert(unsigned_part(text) == text);
    let signed = seq!['+'] + text;
    assert(signed.drop_first() =~= text);
    assert(unsigned_part(signed) == text);
    if exists|i: int| 0 < i < s.len() && !('0' <= #[trigger] s[i] <= '9') {
        let i = choose|i: int| 0 < i < s.len() && !('0' <= #[trigger] s[i] <= '9');
        let d = unsigned_part(s);
        if s[0] == '+' {
            assert(d[i - 1] == s[i]);
        } else {
            assert(d[i] == s[i]);
        }
    }
    if s.len() > 0 && !('0' <= s[0] <= '9') && s[0] != '+' {
        assert(unsigned_part(s)[0] == s[0]);
    }
    assert(unsigned_part(seq!['+'])[0] == '+');
}

proof fn lemma_zeros(s: Seq<char>, zeros: nat)
    ensures
        digits_value(Seq::new(zeros, |i: int| '0') + s) == digits_value(s),
    decreases zeros + s.len(),
{
    let text = Seq::new(zeros, |i: int| '0') + s;
    if s.len() > 0 {
        assert(text.drop_last() =~= Seq::new(zeros, |i: int| '0') + s.drop_last());
        assert(text.last() == s.last());
        lemma_zeros(s.drop_last(), zeros);
    } else if zeros > 0 {
        assert(text.drop_last() =~= Seq::new((zeros - 1) as nat, |i: int| '0') + s);
        assert(text.last() == '0');
        lemma_zeros(s, (zeros - 1) as nat);
    } else {
        assert(text =~= s);
    }
}

proof fn lemma_counted(s: Seq<char>)
    requires
        all_digits(s),
    ensures
        digits_value(s) == counted(s),
    decreases s.len(),
{
    if s.len() > 0 {
        let front = s.drop_last();
        assert forall|i: int| 0 <= i < front.len() implies '0' <= #[trigger] front[i] <= '9' by {
            assert(front[i] == s[i]);
        }
        lemma_counted(front);
    }
}

/// A finished answer is the answer, marked where it is an error; where it was timed, the
/// time stands in brackets on a line of its own behind it.
pub proof fn answers_are_finished_as_they_are(m: Seq<char>, ms: Seq<char>)
    ensures
        finished(Ok(m), None) == m,
        finished(Err(m), None) == "error: "@ + m,
        m.len() == 0 || m.last() == '\n' ==> finished(Ok(m), Some(ms)) == m + "("@ + ms + " ms)"@,
        m.len() > 0 && m.last() != '\n' ==> finished(Ok(m), Some(ms)) == m + "\n"@ + "("@ + ms
            + " ms)"@,
        finished(Err(m), Some(ms)) == finished(Ok("error: "@ + m), Some(ms)),
{
}

/// What is told of a table is told of the first that has its name, and only where one has.
pub proof fn tables_are_told_by_name(ts: Seq<TableInfoV>, table: Seq<char>, i: int)
    ensures
        0 <= i < ts.len() && ts[i].name == table && (forall|j: int|
            0 <= j < i ==> (#[trigger] ts[j]).name != table) ==> schema_answer(ts, table, 0) == Ok::<
            Seq<char>,
            Seq<char>,
        >(schema_line(ts[i])),
        (forall|j: int| 0 <= j < ts.len() ==> (#[trigger] ts[j]).name != table) ==> schema_answer(
            ts,
            table,
            0,
        ) == Err::<Seq<char>, Seq<char>>("no such table: "@ + table),
{
    if 0 <= i < ts.len() && ts[i].name == table && (forall|j: int|
        0 <= j < i ==> (#[trigger] ts[j]).name != table) {
        lemma_told(ts, table, 0, i);
    }
    if forall|j: int| 0 <= j < ts.len() ==> (#[trigger] ts[j]).name != table {
        lemma_told(ts, table, 0, ts.len() as int);
    }
}

/// The line about a table begins with its name and tells its columns before its rows. It
/// ends with the names of its indexes, and says so where there are none.
pub proof fn schema_lines_tell_what_a_table_has(t: TableInfoV)
    ensures
        ({
            let columns = t.name + ": "@ + decimal(t.columns) + " column(s), "@;
            let rows = decimal(t.rows) + " row(s)\nindexes: "@;
            let line = schema_line(t);
            let n = columns.len() as int;
            let m = n + rows.len();
            &&& line.take(n) == columns
            &&& line.subrange(n, m) == rows
            &&& t.indexes.len() == 0 ==> line.skip(m) == "(none)"@
            &&& t.indexes.len() == 1 ==> line.skip(m) == t.indexes[0]
            &&& forall|a: Seq<Seq<char>>, b: Seq<Seq<char>>|
                a.len() > 0 && b.len() > 0 && t.indexes == #[trigger] (a + b) ==> line.skip(m)
                    == join_text(a, ", "@) + ", "@ + join_text(b, ", "@)
        }),
{
    let columns = t.name + ": "@ + decimal(t.columns) + " column(s), "@;
    let rows = decimal(t.rows) + " row(s)\nindexes: "@;
    let line = schema_line(t);
    let names = if t.indexes.len() == 0 {
        "(none)"@
    } else {
        join_text(t.indexes, ", "@)
    };
    let n = columns.len() as int;
    let m = n + rows.len();
    assert(line =~= columns + rows + names);
    assert(line.take(n) =~= columns);
    assert(line.subrange(n, m) =~= rows);
    assert(line.skip(m) =~= names);
    assert forall|a: Seq<Seq<char>>, b: Seq<Seq<char>>|
        a.len() > 0 && b.len() > 0 && t.indexes == #[trigger] (a + b) implies line.skip(m)
        == join_text(a, ", "@) + ", "@ + join_text(b, ", "@) by {
        joined_texts_stand_apart(a, b, ", "@);
    }
}

proof fn lemma_told(ts: Seq<TableInfoV>, table: Seq<char>, n: int, i: int)
    requires
        0 <= n <= i <= ts.len(),
        forall|j: int| n <= j < i ==> (#[trigger] ts[j]).name != table,
    ensures
        schema_answer(ts, table, n) == schema_answer(ts, table, i),
    decreases i - n,
{
    if n < i {
        lemma_told(ts, table, n + 1, i);
    }
}

/// A column is as wide as its longest text, in bytes: no text of it is longer, and one of
/// them is just as long.
pub proof fn columns_are_as_wide_as_their_longest_text(
    label: Seq<char>,
    rows: Seq<Seq<Seq<char>>>,
    i: int,
)
    ensures
        encode_utf8(label).len() <= width_of(label, rows, i),
        forall|r: int|
            0 <= r < rows.len() && 0 <= i < (#[trigger] rows[r]).len() ==> encode_utf8(
                rows[r][i],
            ).len() <= width_of(label, rows, i),
        width_of(label, rows, i) == encode_utf8(label).len() || width_of(label, rows, i) == 0
            || exists|r: int|
            0 <= r < rows.len() && 0 <= i < (#[trigger] rows[r]).len() && width_of(label, rows, i)
                == encode_utf8(rows[r][i]).len(),
    decreases rows.len(),
{
    if rows.len() > 0 {
        let front = rows.drop_last();
        columns_are_as_wide_as_their_longest_text(label, front, i);
        let l = rows.len() - 1;
        assert forall|r: int|
            0 <= r < rows.len() && 0 <= i < (#[trigger] rows[r]).len() implies encode_utf8(
            rows[r][i],
        ).len() <= width_of(label, rows, i) by {
            if r < l {
                assert(front[r] == rows[r]);
            }
        }
        if width_of(label, front, i) >= byte_len(text_at(rows.last(), i)) {
            if exists|r: int|
                0 <= r < front.len() && 0 <= i < (#[trigger] front[r]).len() && width_of(
                    label,
                    front,
                    i,
                ) == encode_utf8(front[r][i]).len() {
                let r = choose|r: int|
                    0 <= r < front.len() && 0 <= i < (#[trigger] front[r]).len() && width_of(
                        label,
                        front,
                        i,
                    ) == encode_utf8(front[r][i]).len();
                assert(rows[r] == front[r]);
            }
        } else if 0 <= i < rows[l].len() {
            assert(rows[l] == rows.last());
        } else {
            assert(encode_utf8(Seq::<char>::empty()).len() == 0);
        }
    }
}

/// A padded text is the text, with spaces behind it up to the width and no further.
pub proof fn texts_are_padded_behind(s: Seq<char>, width: nat)
    ensures
        padded_text(s, width).len() == if s.len() < width {
            width
        } else {
            s.len()
        },
        forall|i: int| 0 <= i < s.len() ==> #[trigger] padded_text(s, width)[i] == s[i],
        forall|i: int|
            s.len() <= i < padded_text(s, width).len() ==> #[trigger] padded_text(s, width)[i]
                == ' ',
{
}

/// A scan asks for every row of the table, in one stage, and for no more than its limit
/// in a second one where it has a limit.
pub proof fn scans_ask_for_the_table(table: Seq<char>, limit: Option<u64>)
    ensures
        scan_stages(table, limit).len() == if limit is Some {
            2nat
        } else {
            1nat
        },
        scan_stages(table, limit)[0] == StageV::Scan(TableRefV { table, alias: None }),
        limit matches Some(n) ==> (scan_stages(table, limit)[1] matches StageV::Limit {
            limit: l,
            offset,
        } && l == Some(n) && offset == 0),
{
}

/// The commands: those that leave, those that stand alone, those that take a table, and
/// the scan, which may take a limit. A command that does not get what it takes, and a
/// word that is none, is wrong.
pub proof fn commands_are_read_by_their_first_word(ws: Seq<Seq<char>>)
    ensures
        ws.len() == 0 <==> command_of(ws) is Nothing,
        ws.len() > 0 ==> {
            let c = ws[0];
            let is = command_of(ws);
            &&& (is is Quit <==> (c == "\\q"@ || c == "\\quit"@ || c == "\\exit"@))
            &&& (is is Help <==> (c == "\\help"@ || c == "\\h"@ || c == "\\?"@))
            &&& (is is Timing <==> c == "\\timing"@)
            &&& (is is Tables <==> c == "\\tables"@)
            &&& (is is Inspect <==> c == "\\inspect"@)
            &&& (is is Check <==> c == "\\check"@)
            &&& (is is Schema <==> (c == "\\schema"@ && ws.len() == 2))
            &&& (is is Count <==> (c == "\\count"@ && ws.len() == 2))
            &&& (is is Scan <==> (c == "\\scan"@ && (ws.len() == 2 || (ws.len() == 3 && number_of(
                ws[2],
            ) is Some))))
            &&& (is matches CommandV::Schema(t) ==> t == ws[1])
            &&& (is matches CommandV::Count(t) ==> t == ws[1])
            &&& (is matches CommandV::Scan(t, n) ==> t == ws[1] && Some(n) == if ws.len() == 3 {
                number_of(ws[2])
            } else {
                Some(20u64)
            })
        },
{
    lemma_command_words();
}

proof fn lemma_command_words()
    ensures
        "\\q"@.len() == 2 && "\\h"@.len() == 2 && "\\?"@.len() == 2,
        "\\q"@[1] == 'q' && "\\h"@[1] == 'h' && "\\?"@[1] == '?',
        "\\quit"@.len() == 5 && "\\exit"@.len() == 5 && "\\help"@.len() == 5 && "\\scan"@.len() == 5,
        "\\quit"@[1] == 'q' && "\\exit"@[1] == 'e' && "\\help"@[1] == 'h' && "\\scan"@[1] == 's',
        "\\count"@.len() == 6 && "\\check"@.len() == 6,
        "\\count"@[2] == 'o' && "\\check"@[2] == 'h',
        "\\timing"@.len() == 7 && "\\tables"@.len() == 7 && "\\schema"@.len() == 7,
        "\\timing"@[2] == 'i' && "\\tables"@[2] == 'a' && "\\schema"@[2] == 'c',
        "\\inspect"@.len() == 8,
{
    reveal_strlit("\\q");
    reveal_strlit("\\h");
    reveal_strlit("\\?");
    reveal_strlit("\\quit");
    reveal_strlit("\\exit");
    reveal_strlit("\\help");
    reveal_strlit("\\scan");
    reveal_strlit("\\count");
    reveal_strlit("\\check");
    reveal_strlit("\\timing");
    reveal_strlit("\\tables");
    reveal_strlit("\\schema");
    reveal_strlit("\\inspect");
}

/// Values are shown as they are: NULL by its name, truth by its word, numbers and times in
/// decimal digits, text and documents as their characters, a UUID in its groups, and a blob
/// by its size alone.
pub proof fn values_are_shown_as_they_are(v: ValueV, float: Seq<char>)
    ensures
        v is Null ==> value_text(v, float) == "NULL"@,
        v == ValueV::Bool(true) ==> value_text(v, float) == "true"@,
        v == ValueV::Bool(false) ==> value_text(v, float) == "false"@,
        v matches ValueV::I64(n) ==> value_text(v, float) == signed_decimal(n as int),
        v matches ValueV::Timestamp(t) ==> value_text(v, float) == value_text(
            ValueV::I64(t),
            float,
        ),
        v is F64 ==> value_text(v, float) == float,
        v matches ValueV::Text(s) ==> value_text(v, float) == s,
        v matches ValueV::Uuid(u) ==> value_text(v, float) == uuid_text(u),
        v matches ValueV::Json(j) ==> value_text(v, float) == lossy(j),
        v matches ValueV::Blob(b) ==> value_text(v, float) == "<blob "@ + decimal(b.len())
            + " bytes>"@,
{
}

} // verus!
