//! How the shell lays out its tables: as a grid of lines of one length, in which a column
//! stands at the same place in every line.

use vstd::prelude::*;
use vstd::utf8::encode_utf8;
use crate::cli::{
    cells_line, columns_are_as_wide_as_their_longest_text, padded_text, repeated, row_lines,
    table_text, text_at, texts_are_padded_behind, width_of, widths_of,
};
use crate::text::{decimal, join_text};

verus! {

/// Where a column begins in a line: behind the columns before it, each with two spaces
/// behind it.
pub open spec fn begins(widths: Seq<nat>, i: int) -> nat
    decreases i,
{
    if i <= 0 {
        0
    } else {
        begins(widths, i - 1) + widths[i - 1] + 2
    }
}

/// What stands at place `k` of a column in which `text` stands.
pub open spec fn stands_at(text: Seq<char>, k: int) -> char {
    if 0 <= k < text.len() {
        text[k]
    } else {
        ' '
    }
}

proof fn lemma_begins(widths: Seq<nat>, i: int, n: int)
    requires
        0 <= i < n,
    ensures
        begins(widths, i) + widths[i] + 2 <= begins(widths, n),
    decreases n - i,
{
    if i + 1 < n {
        lemma_begins(widths, i, n - 1);
    }
}

proof fn lemma_joined(parts: Seq<Seq<char>>, widths: Seq<nat>, n: int, i: int)
    requires
        0 <= i < n <= parts.len(),
        parts.len() == widths.len(),
        forall|j: int| 0 <= j < parts.len() ==> (#[trigger] parts[j]).len() == widths[j],
    ensures
        ({
            let line = join_text(parts.take(n), "  "@);
            let at = begins(widths, i) as int;
            &&& line.len() + 2 == begins(widths, n)
            &&& at + widths[i] <= line.len()
            &&& forall|k: int|
                0 <= k < widths[i] ==> #[trigger] parts[i][k] == line[at + k]
            &&& i + 1 < n ==> line[at + widths[i]] == ' ' && line[at + widths[i] + 1] == ' '
        }),
    decreases n,
{
    reveal_strlit("  ");
    assert(parts.take(n).drop_last() =~= parts.take(n - 1));
    assert(parts.take(n).last() == parts[n - 1]);
    lemma_begins(widths, i, n);
    if n == 1 {
        assert(begins(widths, 0) == 0);
        assert(join_text(parts.take(1), "  "@) == parts[0]);
    } else if i < n - 1 {
        lemma_joined(parts, widths, n - 1, i);
        lemma_begins(widths, i, n - 1);
        let before = join_text(parts.take(n - 1), "  "@);
        let line = join_text(parts.take(n), "  "@);
        assert(line == before + "  "@ + parts[n - 1]);
        let at = begins(widths, i) as int;
        assert forall|k: int| 0 <= k < widths[i] implies #[trigger] parts[i][k] == line[at + k] by {
            assert(line[at + k] == before[at + k]);
        }
    } else {
        lemma_joined(parts, widths, n - 1, n - 2);
        let before = join_text(parts.take(n - 1), "  "@);
        let line = join_text(parts.take(n), "  "@);
        assert(line == before + "  "@ + parts[n - 1]);
    }
}

/// A line shows each cell from where its column begins, and spaces behind it up to where
/// the next column begins. A cell that is missing is empty.
pub proof fn cells_stand_in_their_columns(
    cells: Seq<Seq<char>>,
    widths: Seq<nat>,
    i: int,
    k: int,
)
    requires
        0 <= i < widths.len(),
        0 <= k < widths[i] + 2,
        forall|j: int|
            0 <= j < cells.len() && j < widths.len() ==> (#[trigger] cells[j]).len() <= widths[j],
    ensures
        cells_line(cells, widths).len() + 2 == begins(widths, widths.len() as int),
        k < widths[i] || i + 1 < widths.len() ==> begins(widths, i) + k < cells_line(
            cells,
            widths,
        ).len() && cells_line(cells, widths)[begins(widths, i) + k] == (if i < cells.len() {
            stands_at(cells[i], k)
        } else {
            ' '
        }),
{
    let n = widths.len() as int;
    let parts = Seq::new(widths.len(), |j: int| padded_text(text_at(cells, j), widths[j]));
    assert forall|j: int| 0 <= j < parts.len() implies (#[trigger] parts[j]).len() == widths[j] by {
        texts_are_padded_behind(text_at(cells, j), widths[j]);
        if j < cells.len() {
            assert(text_at(cells, j) == cells[j]);
        }
    }
    assert(parts.take(n) =~= parts);
    lemma_joined(parts, widths, n, i);
    lemma_begins(widths, i, n);
    if i + 1 < n {
        lemma_begins(widths, i + 1, n);
        assert(begins(widths, i + 1) == begins(widths, i) + widths[i] + 2);
    }
    texts_are_padded_behind(text_at(cells, i), widths[i]);
    if i < cells.len() {
        assert(cells[i].len() <= widths[i]);
    }
    if k < widths[i] {
        assert(parts[i][k] == padded_text(text_at(cells, i), widths[i])[k]);
    }
}

proof fn lemma_bytes(s: Seq<char>)
    ensures
        s.len() <= encode_utf8(s).len(),
    decreases s.len(),
{
    if s.len() > 0 {
        lemma_bytes(s.drop_first());
    }
}

proof fn lemma_rows(rows: Seq<Seq<Seq<char>>>, widths: Seq<nat>, long: int, n: int, r: int)
    requires
        0 <= n <= rows.len(),
        0 <= r,
        long >= 1,
        forall|j: int|
            0 <= j < rows.len() ==> cells_line(#[trigger] rows[j], widths).len() + 1 == long,
    ensures
        row_lines(rows.take(n), widths).len() == n * long,
        r < n ==> 0 <= r * long && r * long + long <= n * long,
        r < n ==> row_lines(rows.take(n), widths)[r * long] == '\n',
        r < n ==> row_lines(rows.take(n), widths).subrange(r * long + 1, r * long + long)
            == cells_line(rows[r], widths),
    decreases n,
{
    reveal_strlit("\n");
    if n > 0 {
        let front = rows.take(n - 1);
        assert(rows.take(n).drop_last() =~= front);
        assert(rows.take(n).last() == rows[n - 1]);
        lemma_rows(rows, widths, long, n - 1, r);
        assert(n * long == (n - 1) * long + long) by (nonlinear_arith);
        assert(0 <= (n - 1) * long) by (nonlinear_arith)
            requires
                n > 0,
                long >= 1,
        ;
        let all = row_lines(rows.take(n), widths);
        let before = row_lines(front, widths);
        assert(all == before + "\n"@ + cells_line(rows[n - 1], widths));
        if r < n - 1 {
            assert(all[r * long] == before[r * long]);
            assert(all.subrange(r * long + 1, r * long + long) =~= before.subrange(
                r * long + 1,
                r * long + long,
            ));
        } else if r == n - 1 {
            assert(all.subrange(r * long + 1, r * long + long) =~= cells_line(rows[r], widths));
        }
    } else {
        assert(0 * long == 0) by (nonlinear_arith);
    }
}

/// The rule under the labels.
spec fn rule_of(widths: Seq<nat>) -> Seq<char> {
    join_text(Seq::new(widths.len(), |j: int| repeated('-', widths[j])), "  "@)
}

/// What stands behind the rows.
spec fn end_of(n: nat) -> Seq<char> {
    "\n("@ + decimal(n) + " row(s))"@
}

proof fn lemma_pieces(
    head: Seq<char>,
    rule: Seq<char>,
    body: Seq<char>,
    end: Seq<char>,
    t: Seq<char>,
    long: int,
)
    requires
        head.len() == long - 1,
        rule.len() == long - 1,
        t == head + "\n"@ + rule + body + end,
    ensures
        t.len() == 2 * long - 1 + body.len() + end.len(),
        t[long - 1] == '\n',
        forall|x: int| 0 <= x < head.len() ==> t[x] == #[trigger] head[x],
        forall|x: int| 0 <= x < rule.len() ==> t[long + x] == #[trigger] rule[x],
        forall|x: int| 0 <= x < body.len() ==> t[2 * long - 1 + x] == #[trigger] body[x],
        forall|x: int|
            0 <= x < end.len() ==> t[2 * long - 1 + body.len() + x] == #[trigger] end[x],
{
    reveal_strlit("\n");
}

proof fn lemma_row_fits(labels: Seq<Seq<char>>, rows: Seq<Seq<Seq<char>>>, q: int)
    requires
        0 <= q < rows.len(),
    ensures
        forall|j: int|
            0 <= j < rows[q].len() && j < labels.len() ==> (#[trigger] rows[q][j]).len()
                <= widths_of(labels, rows)[j],
{
    assert forall|j: int| 0 <= j < rows[q].len() && j < labels.len() implies (
    #[trigger] rows[q][j]).len() <= widths_of(labels, rows)[j] by {
        columns_are_as_wide_as_their_longest_text(labels[j], rows, j);
        lemma_bytes(rows[q][j]);
    }
}

proof fn lemma_lengths(labels: Seq<Seq<char>>, rows: Seq<Seq<Seq<char>>>)
    requires
        labels.len() > 0,
    ensures
        ({
            let widths = widths_of(labels, rows);
            let long = begins(widths, labels.len() as int) - 1;
            &&& long >= 1
            &&& cells_line(labels, widths).len() == long - 1
            &&& rule_of(widths).len() == long - 1
            &&& row_lines(rows, widths).len() == rows.len() * long
            &&& forall|j: int|
                0 <= j < labels.len() ==> (#[trigger] labels[j]).len() <= widths[j]
            &&& forall|q: int|
                0 <= q < rows.len() ==> cells_line(#[trigger] rows[q], widths).len() + 1 == long
        }),
{
    let n = labels.len() as int;
    let widths = widths_of(labels, rows);
    let long = begins(widths, n) - 1;
    lemma_begins(widths, 0, n);
    assert forall|j: int| 0 <= j < labels.len() implies (#[trigger] labels[j]).len()
        <= widths[j] by {
        columns_are_as_wide_as_their_longest_text(labels[j], rows, j);
        lemma_bytes(labels[j]);
    }
    cells_stand_in_their_columns(labels, widths, 0, 0);
    assert forall|q: int| 0 <= q < rows.len() implies cells_line(#[trigger] rows[q], widths).len()
        + 1 == long by {
        lemma_row_fits(labels, rows, q);
        cells_stand_in_their_columns(rows[q], widths, 0, 0);
    }
    let marks = Seq::new(widths.len(), |j: int| repeated('-', widths[j]));
    assert(marks.take(n) =~= marks);
    lemma_joined(marks, widths, n, 0);
    assert(rows.take(rows.len() as int) =~= rows);
    lemma_rows(rows, widths, long, rows.len() as int, 0);
}

proof fn lemma_table(labels: Seq<Seq<char>>, rows: Seq<Seq<Seq<char>>>)
    requires
        labels.len() > 0,
    ensures
        ({
            let widths = widths_of(labels, rows);
            table_text(labels, rows) == cells_line(labels, widths) + "\n"@ + rule_of(widths)
                + row_lines(rows, widths) + end_of(rows.len())
        }),
{
    let widths = widths_of(labels, rows);
    let front = cells_line(labels, widths) + "\n"@ + rule_of(widths) + row_lines(rows, widths);
    assert(front + "\n("@ + decimal(rows.len()) + " row(s))"@ =~= front + end_of(rows.len()));
}

/// A table begins with the labels, each where its column begins, and a rule as wide as
/// the column under each of them. All its lines are equally long, and behind the rows
/// stands how many they are.
pub proof fn tables_begin_with_their_labels(
    labels: Seq<Seq<char>>,
    rows: Seq<Seq<Seq<char>>>,
    i: int,
    k: int,
)
    requires
        0 <= i < labels.len(),
        0 <= k < widths_of(labels, rows)[i] + 2,
        k < widths_of(labels, rows)[i] || i + 1 < labels.len(),
    ensures
        ({
            let widths = widths_of(labels, rows);
            let long = begins(widths, labels.len() as int) - 1;
            let at = begins(widths, i) + k;
            let t = table_text(labels, rows);
            &&& widths.len() == labels.len()
            &&& widths[i] == width_of(labels[i], rows, i)
            &&& t[at] == stands_at(labels[i], k)
            &&& t[long - 1] == '\n'
            &&& t[long + at] == if k < widths[i] {
                '-'
            } else {
                ' '
            }
            &&& t.skip(2 * long - 1 + rows.len() * long) == "\n("@ + decimal(rows.len())
                + " row(s))"@
        }),
{
    let n = labels.len() as int;
    let widths = widths_of(labels, rows);
    let long = begins(widths, n) - 1;
    let at = begins(widths, i) + k;
    lemma_lengths(labels, rows);
    lemma_table(labels, rows);
    let head = cells_line(labels, widths);
    let rule = rule_of(widths);
    let body = row_lines(rows, widths);
    let end = end_of(rows.len());
    let t = table_text(labels, rows);
    lemma_pieces(head, rule, body, end, t, long);
    cells_stand_in_their_columns(labels, widths, i, k);
    assert(t[at] == head[at]);
    let marks = Seq::new(widths.len(), |j: int| repeated('-', widths[j]));
    assert(marks.take(n) =~= marks);
    lemma_joined(marks, widths, n, i);
    if k < widths[i] {
        assert(marks[i][k] == rule[begins(widths, i) + k]);
    }
    assert(t[long + at] == rule[at]);
    let rest = t.skip(2 * long - 1 + rows.len() * long);
    assert(rest.len() == end.len());
    assert forall|x: int| 0 <= x < end.len() implies rest[x] == #[trigger] end[x] by {
        assert(t[2 * long - 1 + body.len() + x] == end[x]);
    }
    assert(rest =~= end);
}

/// The rows of a table follow in their order, each in a line of its own, and each cell
/// stands under the label of its column.
pub proof fn rows_follow_in_their_order(
    labels: Seq<Seq<char>>,
    rows: Seq<Seq<Seq<char>>>,
    r: int,
    i: int,
    k: int,
)
    requires
        0 <= r < rows.len(),
        0 <= i < labels.len(),
        0 <= k < widths_of(labels, rows)[i] + 2,
        k < widths_of(labels, rows)[i] || i + 1 < labels.len(),
    ensures
        ({
            let widths = widths_of(labels, rows);
            let long = begins(widths, labels.len() as int) - 1;
            let at = begins(widths, i) + k;
            let t = table_text(labels, rows);
            &&& t[2 * long - 1 + r * long] == '\n'
            &&& t[2 * long + r * long + at] == (if i < rows[r].len() {
                stands_at(rows[r][i], k)
            } else {
                ' '
            })
        }),
{
    let widths = widths_of(labels, rows);
    let long = begins(widths, labels.len() as int) - 1;
    let at = begins(widths, i) + k;
    lemma_lengths(labels, rows);
    lemma_table(labels, rows);
    let body = row_lines(rows, widths);
    let t = table_text(labels, rows);
    lemma_pieces(cells_line(labels, widths), rule_of(widths), body, end_of(rows.len()), t, long);
    assert(rows.take(rows.len() as int) =~= rows);
    lemma_rows(rows, widths, long, rows.len() as int, r);
    lemma_row_fits(labels, rows, r);
    cells_stand_in_their_columns(rows[r], widths, i, k);
    let line = cells_line(rows[r], widths);
    assert(body.subrange(r * long + 1, r * long + long)[at] == line[at]);
    assert(t[2 * long - 1 + (r * long + 1 + at)] == body[r * long + 1 + at]);
    assert(t[2 * long - 1 + r * long] == body[r * long]);
}

} // verus!
