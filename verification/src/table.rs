//! Printable tables: rows of text cells, each row headed by a label.

use crate::text::texts_of;
use vstd::prelude::*;

verus! {

#[verifier::external_type_specification]
#[verifier::external_body]
pub struct ExTable(prettytable::Table);

#[verifier::external_type_specification]
#[verifier::external_body]
pub struct ExRow(prettytable::Row);

#[verifier::external_type_specification]
#[verifier::external_body]
pub struct ExCell(prettytable::Cell);

/// The text that a cell holds: what `Cell::get_content` gives.
pub uninterp spec fn cell_text(cell: prettytable::Cell) -> Seq<char>;

/// The texts of the cells of a row, in order.
pub uninterp spec fn row_cells(row: prettytable::Row) -> Seq<Seq<char>>;

/// The rows of a table, in order, each as the texts of its cells.
pub uninterp spec fn table_rows(table: prettytable::Table) -> Seq<Seq<Seq<char>>>;

/// The text holds no line break, so that a cell shows it as it is.
pub open spec fn single_line(text: Seq<char>) -> bool {
    forall|i: int| 0 <= i < text.len() ==> #[trigger] text[i] != '\n' && text[i] != '\r'
}

/// The text holds no escape character. The `prettytable` crate counts what
/// follows one as hidden, and stops where it counted more than the width of
/// the text.
pub open spec fn printable(text: Seq<char>) -> bool {
    forall|i: int| 0 <= i < text.len() ==> #[trigger] text[i] != '\u{1b}'
}

/// Every text is printable.
pub open spec fn all_printable(texts: Seq<Seq<char>>) -> bool {
    forall|i: int| 0 <= i < texts.len() ==> printable(#[trigger] texts[i])
}

/// Every label and every cell of the rows is printable.
pub open spec fn rows_printable(rows: Seq<(String, Vec<String>)>) -> bool {
    forall|i: int|
        0 <= i < rows.len() ==> printable((#[trigger] rows[i]).0@) && all_printable(
            texts_of(rows[i].1@),
        )
}

/// The texts of a sequence of cells.
pub open spec fn cell_texts(cells: Seq<prettytable::Cell>) -> Seq<Seq<char>> {
    Seq::new(cells.len(), |i: int| cell_text(cells[i]))
}

/// Every text is a single line.
pub open spec fn all_single_line(texts: Seq<Seq<char>>) -> bool {
    forall|i: int| 0 <= i < texts.len() ==> single_line(#[trigger] texts[i])
}

/// A labelled row as text: the label, then the cells.
pub open spec fn labelled(label: Seq<char>, cells: Seq<Seq<char>>) -> Seq<Seq<char>> {
    seq![label] + cells
}

/// Labelled rows as text.
pub open spec fn labelled_rows(rows: Seq<(String, Vec<String>)>) -> Seq<Seq<Seq<char>>> {
    Seq::new(rows.len(), |i: int| labelled(rows[i].0@, texts_of(rows[i].1@)))
}

/// Every label and every cell of the rows is a single line.
pub open spec fn rows_single_line(rows: Seq<(String, Vec<String>)>) -> bool {
    forall|i: int|
        0 <= i < rows.len() ==> single_line((#[trigger] rows[i]).0@) && all_single_line(
            texts_of(rows[i].1@),
        )
}

/// Makes a cell with `prettytable::Cell::new`. Trusted: a cell made from a
/// text without line breaks holds that text. The crate splits the text into
/// lines, so nothing is claimed of a text that has line breaks. A text with
/// an escape character is left out: on some of them the crate panics.
#[verifier::external_body]
fn new_cell(text: &str) -> (cell: prettytable::Cell)
    requires
        printable(text@),
    ensures
        single_line(text@) ==> cell_text(cell) == text@,
{
    prettytable::Cell::new(text)
}

/// Makes a row with `prettytable::Row::new`. Trusted: the row holds the
/// given cells, in their order.
#[verifier::external_body]
fn new_row(cells: Vec<prettytable::Cell>) -> (row: prettytable::Row)
    ensures
        row_cells(row) == cell_texts(cells@),
{
    prettytable::Row::new(cells)
}

/// Makes a table with `prettytable::Table::new`. Trusted: it has no rows.
#[verifier::external_body]
fn new_table() -> (table: prettytable::Table)
    ensures
        table_rows(table) == Seq::<Seq<Seq<char>>>::empty(),
{
    prettytable::Table::new()
}

/// Appends a row with `prettytable::Table::add_row`. Trusted: the rows are
/// the earlier ones, then the new one.
#[verifier::external_body]
fn add_row(table: &mut prettytable::Table, row: prettytable::Row)
    ensures
        table_rows(*final(table)) == table_rows(*old(table)).push(row_cells(row)),
{
    table.add_row(row);
}

/// Decides `printable`.
pub fn is_printable(text: &str) -> (b: bool)
    ensures
        b == printable(text@),
{
    let n: usize = text.unicode_len();
    let mut i: usize = 0;
    while i < n
        invariant
            i <= n,
            n == text@.len(),
            forall|k: int| 0 <= k < i ==> #[trigger] text@[k] != '\u{1b}',
        decreases n - i,
    {
        if text.get_char(i) == '\u{1b}' {
            return false;
        }
        i = i + 1;
    }
    true
}

/// Decides `all_printable`.
pub fn are_printable(cells: &Vec<String>) -> (b: bool)
    ensures
        b == all_printable(texts_of(cells@)),
{
    let mut i: usize = 0;
    while i < cells.len()
        invariant
            i <= cells.len(),
            forall|k: int| 0 <= k < i ==> printable(#[trigger] texts_of(cells@)[k]),
        decreases cells.len() - i,
    {
        if !is_printable(cells[i].as_str()) {
            assert(!printable(texts_of(cells@)[i as int]));
            return false;
        }
        i = i + 1;
    }
    true
}

/// Decides `rows_printable`: whether `build_table` can be asked for.
pub fn can_build_table(rows: &Vec<(String, Vec<String>)>) -> (b: bool)
    ensures
        b == rows_printable(rows@),
{
    let mut i: usize = 0;
    while i < rows.len()
        invariant
            i <= rows.len(),
            forall|k: int|
                0 <= k < i ==> printable((#[trigger] rows@[k]).0@) && all_printable(
                    texts_of(rows@[k].1@),
                ),
        decreases rows.len() - i,
    {
        if !is_printable(rows[i].0.as_str()) || !are_printable(&rows[i].1) {
            return false;
        }
        i = i + 1;
    }
    true
}

/// Puts a cell that holds `name` before the given cells and makes a row of
/// them.
pub fn build_row(name: &str, content: Vec<prettytable::Cell>) -> (row: prettytable::Row)
    requires
        printable(name@),
    ensures
        single_line(name@) ==> row_cells(row) == labelled(name@, cell_texts(content@)),
{
    let ghost given = content@;
    let mut content = content;
    let first = new_cell(name);
    content.insert(0, first);
    let row = new_row(content);
    assert(single_line(name@) ==> cell_texts(content@) =~= labelled(name@, cell_texts(given)));
    row
}

/// Makes a row of a label and of one cell for each text.
pub fn text_row(name: &str, cells: &Vec<String>) -> (row: prettytable::Row)
    requires
        printable(name@),
        all_printable(texts_of(cells@)),
    ensures
        single_line(name@) && all_single_line(texts_of(cells@)) ==> row_cells(row) == labelled(
            name@,
            texts_of(cells@),
        ),
{
    let mut content: Vec<prettytable::Cell> = Vec::new();
    let mut i: usize = 0;
    while i < cells.len()
        invariant
            i <= cells.len(),
            content.len() == i,
            all_printable(texts_of(cells@)),
            forall|k: int|
                0 <= k < i && single_line(cells@[k]@) ==> cell_text(#[trigger] content@[k])
                    == cells@[k]@,
        decreases cells.len() - i,
    {
        assert(printable(texts_of(cells@)[i as int]));
        content.push(new_cell(cells[i].as_str()));
        i = i + 1;
    }
    proof {
        if all_single_line(texts_of(cells@)) {
            assert forall|k: int| 0 <= k < cells.len() implies cell_text(#[trigger] content@[k])
                == cells@[k]@ by {
                assert(single_line(texts_of(cells@)[k]));
            }
            assert(cell_texts(content@) =~= texts_of(cells@));
        }
    }
    build_row(name, content)
}

/// Makes a table of labelled rows, in their order.
pub fn build_table(rows: &Vec<(String, Vec<String>)>) -> (table: prettytable::Table)
    requires
        rows_printable(rows@),
    ensures
        rows_single_line(rows@) ==> table_rows(table) == labelled_rows(rows@),
{
    let mut table = new_table();
    let mut i: usize = 0;
    while i < rows.len()
        invariant
            i <= rows.len(),
            rows_printable(rows@),
            rows_single_line(rows@) ==> table_rows(table) == labelled_rows(rows@).take(i as int),
        decreases rows.len() - i,
    {
        assert(printable(rows@[i as int].0@));
        let row = text_row(rows[i].0.as_str(), &rows[i].1);
        add_row(&mut table, row);
        proof {
            if rows_single_line(rows@) {
                assert(single_line(rows@[i as int].0@));
                assert(labelled_rows(rows@).take(i + 1) =~= labelled_rows(rows@).take(
                    i as int,
                ).push(labelled_rows(rows@)[i as int]));
            }
        }
        i = i + 1;
    }
    assert(labelled_rows(rows@).take(rows.len() as int) =~= labelled_rows(rows@));
    table
}

} // verus!
