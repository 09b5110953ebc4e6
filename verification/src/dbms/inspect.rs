//! The reports of the integrity check and the file inspector.

use vstd::prelude::*;
use vstd::string::StringExecFns;
use crate::catalog::schema::{TableDef, TableV};
use crate::pager::state::PagerStats;
use crate::text::{decimal, join_text, join_texts, push_decimal};
use crate::views::views;

verus! {

/// The outcome of a passing integrity check: storage statistics and how many tables
/// were cross-checked.
#[derive(Debug, Clone, Copy, PartialEq, Eq)]
pub struct IntegrityReport {
    /// Pager-level statistics gathered during the check.
    pub stats: PagerStats,
    /// The number of tables whose trees and indexes were verified.
    pub tables_checked: usize,
}

impl IntegrityReport {
    /// The text of the report.
    pub open spec fn text(self) -> Seq<char> {
        "integrity ok: "@ + decimal(self.stats.page_count as nat) + " pages, "@ + decimal(
            self.stats.free_ids as nat,
        ) + " free, "@ + decimal(self.tables_checked as nat) + " tables checked (txn "@ + decimal(
            self.stats.txn_id as nat,
        ) + ")"@
    }

    /// The report as text.
    pub fn to_text(&self) -> (r: String)
        ensures
            r@ == self.text(),
    {
        let mut out = "integrity ok: ".to_owned();
        push_decimal(&mut out, self.stats.page_count);
        out.append(" pages, ");
        push_decimal(&mut out, self.stats.free_ids);
        out.append(" free, ");
        push_decimal(&mut out, self.tables_checked as u64);
        out.append(" tables checked (txn ");
        push_decimal(&mut out, self.stats.txn_id);
        out.append(")");
        out
    }
}

/// A single table's structural summary.
#[derive(Debug, Clone, PartialEq, Eq)]
pub struct TableInfo {
    /// The table name.
    pub name: String,
    /// The number of columns.
    pub columns: usize,
    /// The number of live rows.
    pub rows: usize,
    /// The secondary index names.
    pub indexes: Vec<String>,
}

/// What a [`TableInfo`] says.
#[verifier::ext_equal]
pub struct TableInfoV {
    pub name: Seq<char>,
    pub columns: nat,
    pub rows: nat,
    pub indexes: Seq<Seq<char>>,
}

impl View for TableInfo {
    type V = TableInfoV;

    open spec fn view(&self) -> TableInfoV {
        TableInfoV {
            name: self.name@,
            columns: self.columns as nat,
            rows: self.rows as nat,
            indexes: views(self.indexes@),
        }
    }
}

/// The summary of a table with this many rows.
pub open spec fn summary(t: TableV, rows: nat) -> TableInfoV {
    TableInfoV {
        name: t.name,
        columns: t.columns.len(),
        rows,
        indexes: Seq::new(t.indexes.len(), |i: int| t.indexes[i].name),
    }
}

/// Summarize a table with this many rows.
pub fn table_info(def: &TableDef, rows: usize) -> (r: TableInfo)
    ensures
        r@ == summary(def@, rows as nat),
{
    let ghost xs = def@.indexes;
    let mut indexes: Vec<String> = Vec::new();
    let mut i: usize = 0;
    while i < def.indexes.len()
        invariant
            i <= def.indexes@.len(),
            xs == views(def.indexes@),
            indexes@.len() == i,
            forall|j: int| 0 <= j < i ==> (#[trigger] indexes@[j])@ == xs[j].name,
        decreases def.indexes@.len() - i,
    {
        assert(xs[i as int] == def.indexes@[i as int]@);
        indexes.push(def.indexes[i].name.clone());
        i = i + 1;
    }
    let r = TableInfo { name: def.name.clone(), columns: def.columns.len(), rows, indexes };
    assert(r@.indexes =~= summary(def@, rows as nat).indexes);
    r
}

/// A structural snapshot of a database file: storage statistics and a summary of each
/// table, in name order.
#[derive(Debug, Clone, PartialEq, Eq)]
pub struct Inspection {
    /// Pager-level statistics.
    pub stats: PagerStats,
    /// One entry per table, in name order.
    pub tables: Vec<TableInfo>,
}

/// The line about a table.
pub open spec fn table_line(t: TableInfoV) -> Seq<char> {
    "  "@ + t.name + " — "@ + decimal(t.columns) + " column(s), "@ + decimal(t.rows) + " row(s)"@
        + (if t.indexes.len() == 0 {
        "\n"@
    } else {
        ", indexes: "@ + join_text(t.indexes, ", "@) + "\n"@
    })
}

/// The lines about tables.
pub open spec fn table_lines(ts: Seq<TableInfoV>) -> Seq<char>
    decreases ts.len(),
{
    if ts.len() == 0 {
        Seq::empty()
    } else {
        table_lines(ts.drop_last()) + table_line(ts.last())
    }
}

fn push_table_line(out: &mut String, t: &TableInfo)
    ensures
        final(out)@ == old(out)@ + table_line(t@),
{
    out.append("  ");
    out.append(t.name.as_str());
    out.append(" — ");
    push_decimal(out, t.columns as u64);
    out.append(" column(s), ");
    push_decimal(out, t.rows as u64);
    out.append(" row(s)");
    assert(t@.indexes.len() == t.indexes@.len());
    if t.indexes.len() == 0 {
        out.append("\n");
    } else {
        out.append(", indexes: ");
        let names = join_texts(&t.indexes, ", ");
        out.append(names.as_str());
        out.append("\n");
    }
    assert(out@ =~= old(out)@ + table_line(t@));
}

impl Inspection {
    /// The text of the dump.
    pub open spec fn text(self) -> Seq<char> {
        "database: "@ + decimal(self.stats.page_count as nat) + " pages, "@ + decimal(
            self.stats.free_ids as nat,
        ) + " free, "@ + decimal(self.stats.trunk_count as nat) + " trunk(s), meta slot "@
            + decimal(self.stats.active_slot as nat) + ", txn "@ + decimal(
            self.stats.txn_id as nat,
        ) + "\n"@ + (if self.tables@.len() == 0 {
            "  (no tables)\n"@
        } else {
            Seq::empty()
        }) + table_lines(views(self.tables@))
    }

    /// The dump as text.
    pub fn to_text(&self) -> (r: String)
        ensures
            r@ == self.text(),
    {
        let mut out = "database: ".to_owned();
        push_decimal(&mut out, self.stats.page_count);
        out.append(" pages, ");
        push_decimal(&mut out, self.stats.free_ids);
        out.append(" free, ");
        push_decimal(&mut out, self.stats.trunk_count);
        out.append(" trunk(s), meta slot ");
        push_decimal(&mut out, self.stats.active_slot);
        out.append(", txn ");
        push_decimal(&mut out, self.stats.txn_id);
        out.append("\n");
        let ghost first = out@;
        if self.tables.len() == 0 {
            out.append("  (no tables)\n");
        }
        let ghost head = out@;
        let ghost vs = views(self.tables@);
        let mut i: usize = 0;
        assert(vs.take(0) =~= Seq::empty());
        assert(head + Seq::empty() =~= head);
        assert(first + Seq::empty() =~= first);
        while i < self.tables.len()
            invariant
                i <= self.tables@.len(),
                vs == views(self.tables@),
                out@ == head + table_lines(vs.take(i as int)),
            decreases self.tables@.len() - i,
        {
            proof {
                assert(vs[i as int] == self.tables@[i as int]@);
                assert(vs.take(i + 1).drop_last() =~= vs.take(i as int));
            }
            push_table_line(&mut out, &self.tables[i]);
            i = i + 1;
            assert(out@ =~= head + table_lines(vs.take(i as int)));
        }
        assert(vs.take(i as int) =~= vs);
        out
    }
}

/// A table is summed up by its name, how many columns and rows it has, and the names of its
/// indexes, in their order.
pub proof fn tables_are_summed_up_as_they_are(t: TableV, rows: nat)
    ensures
        summary(t, rows).name == t.name,
        summary(t, rows).columns == t.columns.len(),
        summary(t, rows).rows == rows,
        summary(t, rows).indexes.len() == t.indexes.len(),
        forall|i: int|
            0 <= i < t.indexes.len() ==> #[trigger] summary(t, rows).indexes[i]
                == t.indexes[i].name,
{
}

/// The lines about tables are those about each of them, in order, and end with a line break
/// each.
pub proof fn tables_are_told_one_by_one(a: Seq<TableInfoV>, b: Seq<TableInfoV>)
    ensures
        table_lines(a + b) == table_lines(a) + table_lines(b),
        a.len() == 1 ==> table_lines(a) == table_line(a[0]),
        a.len() > 0 ==> table_lines(a).len() > 0 && table_lines(a).last() == '\n',
    decreases b.len(),
{
    reveal_strlit("\n");
    if b.len() == 0 {
        assert(a + b =~= a);
        assert(table_lines(a) + table_lines(b) =~= table_lines(a));
    } else {
        assert((a + b).drop_last() =~= a + b.drop_last());
        tables_are_told_one_by_one(a, b.drop_last());
        assert(table_lines(a) + table_lines(b.drop_last()) + table_line(b.last()) =~= table_lines(a)
            + (table_lines(b.drop_last()) + table_line(b.last())));
    }
    if a.len() == 1 {
        assert(a.drop_last() =~= Seq::empty());
        assert(table_lines(a.drop_last()) =~= Seq::empty());
        assert(Seq::<char>::empty() + table_line(a[0]) =~= table_line(a[0]));
    }
    if a.len() > 0 {
        assert(table_line(a.last()).last() == '\n');
    }
}

} // verus!
