//! Tables of aligned columns.

use crate::text;
use crate::text::{align_left, align_right, join, push_fill};
use vstd::prelude::*;
use vstd::string::*;

verus! {

/// The number of columns of a table.
pub const COLUMNS: usize = 9;

/// The cells of a row.
pub open spec fn cells(row: [String; 9]) -> Seq<Seq<char>> {
    text::texts(row@)
}

/// The cells of each row.
pub open spec fn rows_of(rows: Seq<[String; 9]>) -> Seq<Seq<Seq<char>>> {
    Seq::new(rows.len(), |i: int| cells(rows[i]))
}

/// The width of a column: the number of bytes of its longest cell.
pub open spec fn column_width(rows: Seq<Seq<Seq<char>>>, column: int) -> nat
    decreases rows.len(),
{
    if rows.len() == 0 {
        0
    } else {
        let width = column_width(rows.drop_last(), column);
        let length = vstd::utf8::encode_utf8(rows.last()[column]).len();
        if length > width {
            length
        } else {
            width
        }
    }
}

/// The widths of all columns.
pub open spec fn column_widths(rows: Seq<Seq<Seq<char>>>) -> Seq<nat> {
    Seq::new(COLUMNS as nat, |column: int| column_width(rows, column))
}

/// The cells of a row, each as wide as its column: the first one to the left, the others to the
/// right.
pub open spec fn aligned_cells(row: Seq<Seq<char>>, widths: Seq<nat>) -> Seq<Seq<char>> {
    Seq::new(
        COLUMNS as nat,
        |column: int|
            if column == 0 {
                text::aligned_left(row[column], widths[column] as int)
            } else {
                text::aligned_right(row[column], widths[column] as int)
            },
    )
}

/// The line of a row.
pub open spec fn row_line(row: Seq<Seq<char>>, widths: Seq<nat>) -> Seq<char> {
    text::joined(aligned_cells(row, widths), " | "@)
}

/// The cells of the line under the heading.
pub open spec fn rule_cells(widths: Seq<nat>) -> Seq<Seq<char>> {
    Seq::new(COLUMNS as nat, |column: int| text::fill('-', widths[column] as int))
}

/// The line under the heading.
pub open spec fn rule_line(widths: Seq<nat>) -> Seq<char> {
    text::joined(rule_cells(widths), "-+-"@)
}

/// The lines of a table: one for each row, and a rule between the first row and the second.
pub open spec fn table_lines(rows: Seq<Seq<Seq<char>>>) -> Seq<Seq<char>> {
    let widths = column_widths(rows);
    let lines = rows.map_values(|row: Seq<Seq<char>>| row_line(row, widths));
    if rows.len() <= 1 {
        lines
    } else {
        lines.insert(1, rule_line(widths))
    }
}

/// The text of a table.
pub open spec fn table_text(rows: Seq<Seq<Seq<char>>>) -> Seq<char> {
    text::joined(table_lines(rows), "\n"@)
}

/// The width of one column of the table.
fn measure_column(rows: &Vec<[String; 9]>, column: usize) -> (width: usize)
    requires
        column < COLUMNS,
    ensures
        width == column_width(rows_of(rows@), column as int),
{
    let mut width: usize = 0;
    let mut seen: usize = 0;
    while seen < rows.len()
        invariant
            column < COLUMNS,
            seen <= rows.len(),
            width == column_width(rows_of(rows@).take(seen as int), column as int),
        decreases rows.len() - seen,
    {
        let length: usize = rows[seen][column].as_str().as_bytes().len();
        if length > width {
            width = length;
        }
        proof {
            let taken = rows_of(rows@).take(seen + 1);
            assert(taken.drop_last() =~= rows_of(rows@).take(seen as int));
            assert(taken.last()[column as int] == rows@[seen as int]@[column as int]@);
        }
        seen += 1;
    }
    assert(rows_of(rows@).take(seen as int) =~= rows_of(rows@));
    width
}

/// The widths of all columns of the table.
fn measure_columns(rows: &Vec<[String; 9]>) -> (widths: Vec<usize>)
    ensures
        widths@.map_values(|width: usize| width as nat) == column_widths(rows_of(rows@)),
{
    let mut widths: Vec<usize> = Vec::new();
    let mut column: usize = 0;
    while column < COLUMNS
        invariant
            column <= COLUMNS,
            widths.len() == column,
            forall|c: int|
                0 <= c < column ==> #[trigger] widths@[c] == column_width(rows_of(rows@), c),
        decreases COLUMNS - column,
    {
        widths.push(measure_column(rows, column));
        column += 1;
    }
    widths
}

/// The line of a row.
fn render_row(row: &[String; 9], widths: &Vec<usize>) -> (line: String)
    requires
        widths.len() == COLUMNS,
    ensures
        line@ == row_line(cells(*row), widths@.map_values(|width: usize| width as nat)),
{
    let ghost expected = aligned_cells(
        cells(*row),
        widths@.map_values(|width: usize| width as nat),
    );
    let mut parts: Vec<String> = Vec::new();
    let mut column: usize = 0;
    while column < COLUMNS
        invariant
            widths.len() == COLUMNS,
            column <= COLUMNS,
            parts.len() == column,
            expected == aligned_cells(
                cells(*row),
                widths@.map_values(|width: usize| width as nat),
            ),
            forall|c: int| 0 <= c < column ==> (#[trigger] parts@[c])@ == expected[c],
        decreases COLUMNS - column,
    {
        let cell = row[column].as_str();
        if column == 0 {
            parts.push(align_left(cell, widths[column]));
        } else {
            parts.push(align_right(cell, widths[column]));
        }
        column += 1;
    }
    assert(text::texts(parts@) =~= expected);
    join(&parts, " | ")
}

/// The line under the heading.
fn render_rule(widths: &Vec<usize>) -> (line: String)
    requires
        widths.len() == COLUMNS,
    ensures
        line@ == rule_line(widths@.map_values(|width: usize| width as nat)),
{
    let mut parts: Vec<String> = Vec::new();
    let mut column: usize = 0;
    while column < COLUMNS
        invariant
            widths.len() == COLUMNS,
            column <= COLUMNS,
            parts.len() == column,
            forall|c: int|
                0 <= c < column ==> (#[trigger] parts@[c])@ == text::fill('-', widths@[c] as int),
        decreases COLUMNS - column,
    {
        let mut part = String::new();
        push_fill(&mut part, '-', widths[column]);
        parts.push(part);
        column += 1;
    }
    assert(text::texts(parts@) =~= rule_cells(widths@.map_values(|width: usize| width as nat)));
    join(&parts, "-+-")
}

/// Renders a table: every column as wide as its longest cell, a rule under the first row.
pub fn render_table(rows: &Vec<[String; 9]>) -> (text: String)
    ensures
        text@ == table_text(rows_of(rows@)),
{
    let widths = measure_columns(rows);
    let ghost model = rows_of(rows@);
    let ghost all = table_lines(model);
    assert(column_widths(model) == widths@.map_values(|width: usize| width as nat));
    assert(widths.len() == COLUMNS) by {
        assert(column_widths(model).len() == widths@.len());
    }
    let mut lines: Vec<String> = Vec::new();
    let mut row: usize = 0;
    while row < rows.len()
        invariant
            widths.len() == COLUMNS,
            model == rows_of(rows@),
            all == table_lines(model),
            column_widths(model) == widths@.map_values(|width: usize| width as nat),
            row <= rows.len(),
            lines.len() == (if row <= 1 { row as int } else { row + 1 }),
            forall|i: int| 0 <= i < lines.len() ==> (#[trigger] lines@[i])@ == all[i],
        decreases rows.len() - row,
    {
        if row == 1 {
            lines.push(render_rule(&widths));
        }
        lines.push(render_row(&rows[row], &widths));
        assert(model[row as int] == cells(rows@[row as int]));
        row += 1;
    }
    assert(text::texts(lines@) =~= all);
    join(&lines, "\n")
}

/// Where a column starts in every line of a table whose columns have these widths.
pub open spec fn column_start(widths: Seq<nat>, column: int) -> nat {
    text::part_start(widths, 3, column)
}

/// The number of characters of every line of a table whose columns have these widths.
pub open spec fn line_width(widths: Seq<nat>) -> nat {
    column_start(widths, COLUMNS - 1) + widths[COLUMNS - 1]
}

/// Whether the line is divided in columns of these widths by `separator`.
pub open spec fn divided(line: Seq<char>, widths: Seq<nat>, separator: Seq<char>) -> bool {
    &&& line.len() == line_width(widths)
    &&& forall|column: int|
        0 < column < COLUMNS ==> {
            let start = #[trigger] column_start(widths, column) as int;
            &&& 3 <= start <= line.len()
            &&& line.subrange(start - 3, start) == separator
        }
}

proof fn lemma_bytes_at_least_chars(chars: Seq<char>)
    ensures
        vstd::utf8::encode_utf8(chars).len() >= chars.len(),
    decreases chars.len(),
{
    if chars.len() > 0 {
        lemma_bytes_at_least_chars(chars.drop_first());
        vstd::utf8::char_is_scalar(chars[0]);
    }
}

proof fn lemma_column_fits(rows: Seq<Seq<Seq<char>>>, row: int, column: int)
    requires
        0 <= row < rows.len(),
    ensures
        rows[row][column].len() <= column_width(rows, column),
    decreases rows.len(),
{
    lemma_bytes_at_least_chars(rows[row][column]);
    if row < rows.len() - 1 {
        lemma_column_fits(rows.drop_last(), row, column);
        assert(rows.drop_last()[row] == rows[row]);
    }
}

proof fn lemma_divided(parts: Seq<Seq<char>>, widths: Seq<nat>, separator: Seq<char>)
    requires
        parts.len() == COLUMNS,
        separator.len() == 3,
        text::lengths(parts) == widths,
    ensures
        divided(text::joined(parts, separator), widths, separator),
{
    let line = text::joined(parts, separator);
    assert forall|column: int| 0 < column < COLUMNS implies {
        let start = #[trigger] column_start(widths, column) as int;
        &&& 3 <= start <= line.len()
        &&& line.subrange(start - 3, start) == separator
    } by {
        text::lemma_joined_layout(parts, separator, column);
    }
    text::lemma_joined_layout(parts, separator, 0);
}

/// All lines of a table have the same number of characters, and in all of them the separators of
/// the columns stand at the same places.
pub proof fn lemma_lines_align(rows: Seq<Seq<Seq<char>>>, line: int)
    requires
        0 <= line < table_lines(rows).len(),
    ensures
        rows.len() > 1 && line == 1 ==> divided(
            table_lines(rows)[line],
            column_widths(rows),
            "-+-"@,
        ),
        !(rows.len() > 1 && line == 1) ==> divided(
            table_lines(rows)[line],
            column_widths(rows),
            " | "@,
        ),
{
    reveal_strlit("-+-");
    reveal_strlit(" | ");
    let widths = column_widths(rows);
    if rows.len() > 1 && line == 1 {
        assert(text::lengths(rule_cells(widths)) =~= widths);
        lemma_divided(rule_cells(widths), widths, "-+-"@);
    } else {
        let row = if line == 0 || rows.len() <= 1 { line } else { line - 1 };
        let parts = aligned_cells(rows[row], widths);
        assert forall|column: int| 0 <= column < COLUMNS implies #[trigger] parts[column].len()
            == widths[column] by {
            lemma_column_fits(rows, row, column);
        }
        assert(text::lengths(parts) =~= widths);
        lemma_divided(parts, widths, " | "@);
        assert(table_lines(rows)[line] == row_line(rows[row], widths));
    }
}

/// A line of a table holds no characters but those of the cells, blanks and the characters of the
/// separators.
pub proof fn lemma_line_only(
    rows: Seq<Seq<Seq<char>>>,
    allowed: spec_fn(char) -> bool,
    line: int,
)
    requires
        allowed(' '),
        allowed('|'),
        allowed('-'),
        allowed('+'),
        forall|row: int, column: int|
            0 <= row < rows.len() && 0 <= column < COLUMNS ==> text::only(
                #[trigger] rows[row][column],
                allowed,
            ),
        0 <= line < table_lines(rows).len(),
    ensures
        text::only(table_lines(rows)[line], allowed),
{
    reveal_strlit("-+-");
    reveal_strlit(" | ");
    let widths = column_widths(rows);
    if rows.len() > 1 && line == 1 {
        text::lemma_joined_only(rule_cells(widths), "-+-"@, allowed);
    } else {
        let row = if line == 0 || rows.len() <= 1 { line } else { line - 1 };
        let parts = aligned_cells(rows[row], widths);
        assert forall|column: int| 0 <= column < parts.len() implies text::only(
            #[trigger] parts[column],
            allowed,
        ) by {
            assert(text::only(rows[row][column], allowed));
        }
        text::lemma_joined_only(parts, " | "@, allowed);
        assert(table_lines(rows)[line] == row_line(rows[row], widths));
    }
}

/// A column is as wide as the bytes of its longest cell: none is longer, and one is as long, unless
/// there are none.
pub proof fn lemma_width_is_that_of_the_longest(rows: Seq<Seq<Seq<char>>>, column: int)
    ensures
        forall|row: int|
            0 <= row < rows.len() ==> vstd::utf8::encode_utf8(
                (#[trigger] rows[row])[column],
            ).len() <= column_width(rows, column),
        rows.len() > 0 ==> exists|row: int|
            0 <= row < rows.len() && vstd::utf8::encode_utf8((#[trigger] rows[row])[column]).len()
                == column_width(rows, column),
        rows.len() == 0 ==> column_width(rows, column) == 0,
    decreases rows.len(),
{
    if rows.len() > 0 {
        let front = rows.drop_last();
        lemma_width_is_that_of_the_longest(front, column);
        assert forall|row: int| 0 <= row < rows.len() implies vstd::utf8::encode_utf8(
            (#[trigger] rows[row])[column],
        ).len() <= column_width(rows, column) by {
            if row < front.len() {
                assert(front[row] == rows[row]);
            }
        }
        let last = rows.len() - 1;
        if vstd::utf8::encode_utf8(rows[last][column]).len() != column_width(rows, column) {
            if front.len() > 0 {
                let row = choose|row: int|
                    0 <= row < front.len() && vstd::utf8::encode_utf8(
                        (#[trigger] front[row])[column],
                    ).len() == column_width(front, column);
                assert(front[row] == rows[row]);
            }
        }
    }
}

/// Every cell stands in the line of its row, between the start and the end of its column, with
/// nothing but blanks beside it: on its right in the first column, on its left in the others.
pub proof fn lemma_cell_stands_in_its_column(rows: Seq<Seq<Seq<char>>>, row: int, column: int)
    requires
        0 <= row < rows.len(),
        0 <= column < COLUMNS,
    ensures
        ({
            let cell = rows[row][column];
            let start = column_start(column_widths(rows), column) as int;
            let width = column_width(rows, column) as int;
            let line = table_lines(rows)[if row == 0 { 0 } else { row + 1 }];
            let field = line.subrange(start, start + width);
            &&& start + width <= line.len()
            &&& cell.len() <= width
            &&& column == 0 ==> field.take(cell.len() as int) == cell && forall|i: int|
                cell.len() <= i < width ==> #[trigger] field[i] == ' '
            &&& column > 0 ==> field.skip(width - cell.len()) == cell && forall|i: int|
                0 <= i < width - cell.len() ==> #[trigger] field[i] == ' '
        }),
{
    let widths = column_widths(rows);
    let parts = aligned_cells(rows[row], widths);
    assert forall|c: int| 0 <= c < COLUMNS implies #[trigger] parts[c].len() == widths[c] by {
        lemma_column_fits(rows, row, c);
    }
    assert(text::lengths(parts) =~= widths);
    reveal_strlit(" | ");
    text::lemma_joined_layout(parts, " | "@, column);
    lemma_column_fits(rows, row, column);
    let line = if row == 0 { 0 } else { row + 1 };
    assert(table_lines(rows)[line] == row_line(rows[row], widths));
    let cell = rows[row][column];
    let width = column_width(rows, column) as int;
    if column == 0 {
        assert(parts[column].take(cell.len() as int) =~= cell);
    } else {
        assert(parts[column].skip(width - cell.len()) =~= cell);
    }
}

/// The columns stand three characters apart, the first one at the start of the line.
pub proof fn lemma_columns_stand_apart(widths: Seq<nat>, column: int)
    requires
        0 <= column,
    ensures
        column_start(widths, 0) == 0,
        column_start(widths, column + 1) == column_start(widths, column) + widths[column] + 3,
{
}

/// The line under the first row is made of dashes, but for a cross between each two columns.
pub proof fn lemma_rule_is_dashes(rows: Seq<Seq<Seq<char>>>, column: int)
    requires
        rows.len() > 1,
        0 <= column < COLUMNS,
    ensures
        ({
            let start = column_start(column_widths(rows), column) as int;
            let line = table_lines(rows)[1];
            &&& forall|i: int|
                start <= i < start + column_width(rows, column) ==> #[trigger] line[i] == '-'
            &&& column > 0 ==> line[start - 3] == '-' && line[start - 2] == '+' && line[start - 1]
                == '-'
        }),
{
    let widths = column_widths(rows);
    let parts = rule_cells(widths);
    assert(text::lengths(parts) =~= widths);
    reveal_strlit("-+-");
    text::lemma_joined_layout(parts, "-+-"@, column);
    let start = column_start(widths, column) as int;
    let line = table_lines(rows)[1];
    let field = line.subrange(start, start + widths[column]);
    assert forall|i: int| start <= i < start + column_width(rows, column) implies #[trigger] line[i]
        == '-' by {
        assert(field[i - start] == line[i]);
    }
    if column > 0 {
        let gap = line.subrange(start - 3, start);
        assert(gap[0] == line[start - 3] && gap[1] == line[start - 2] && gap[2] == line[start - 1]);
    }
}

/// The text of a table holds its lines one below the other: one for each row, and one more for the
/// rule if there is more than one row.
pub proof fn lemma_text_holds_the_lines(rows: Seq<Seq<Seq<char>>>, line: int)
    requires
        0 <= line < table_lines(rows).len(),
    ensures
        table_lines(rows).len() == rows.len() + (if rows.len() > 1 { 1int } else { 0 }),
        ({
            let lines = table_lines(rows);
            let text = table_text(rows);
            let start = text::part_start(text::lengths(lines), 1, line) as int;
            &&& start + lines[line].len() <= text.len()
            &&& text.subrange(start, start + lines[line].len()) == lines[line]
            &&& line > 0 ==> start > 0 && text[start - 1] == '\n'
            &&& line == lines.len() - 1 ==> start + lines[line].len() == text.len()
        }),
{
    reveal_strlit("\n");
    text::lemma_joined_layout(table_lines(rows), "\n"@, line);
    if line > 0 {
        let lines = table_lines(rows);
        let start = text::part_start(text::lengths(lines), 1, line) as int;
        assert(table_text(rows).subrange(start - 1, start)[0] == table_text(rows)[start - 1]);
    }
}

/// The cells of rows are the texts that the rows hold, one for one.
pub proof fn lemma_rows_are_plain(rows: Seq<[String; 9]>, row: int, column: int)
    requires
        0 <= row < rows.len(),
        0 <= column < 9,
    ensures
        rows_of(rows).len() == rows.len(),
        rows_of(rows)[row].len() == 9,
        rows_of(rows)[row][column] == rows[row]@[column]@,
{
}

} // verus!
