//! Reading a table from delimited text: a header row, then rows of as many
//! fields.

use crate::text::texts_of;
use vstd::prelude::*;

verus! {

#[verifier::external_type_specification]
#[verifier::external_body]
pub struct ExCsvError(csv::Error);

/// What the `csv` crate reads out of a text with a reader of its default
/// settings: the fields of the header row and the fields of every row after
/// it, or `None` where it reports an error.
pub uninterp spec fn csv_table(data: Seq<u8>) -> Option<(Seq<Seq<char>>, Seq<Seq<Seq<char>>>)>;

/// Why a text could not be read as a table.
#[derive(Debug)]
pub enum DataAccessError {
    /// The text is not well-formed delimited text; the message says why.
    Parse(String),
    /// The row at this position, counted from the first row after the
    /// header, has not as many fields as the header.
    Width(usize),
}

/// The texts of a sequence of rows.
pub open spec fn rows_view(rows: Seq<Vec<String>>) -> Seq<Seq<Seq<char>>> {
    Seq::new(rows.len(), |j: int| texts_of(rows[j]@))
}

/// The texts of a sequence of named columns.
pub open spec fn columns_view(columns: Seq<(String, Vec<String>)>) -> Seq<
    (Seq<char>, Seq<Seq<char>>),
> {
    Seq::new(columns.len(), |i: int| (columns[i].0@, texts_of(columns[i].1@)))
}

/// What a reading of delimited text came to, errors not told apart.
pub open spec fn parsed_view(r: Result<(Vec<String>, Vec<Vec<String>>), csv::Error>) -> Option<
    (Seq<Seq<char>>, Seq<Seq<Seq<char>>>),
> {
    match r {
        Ok((headers, rows)) => Some((texts_of(headers@), rows_view(rows@))),
        Err(_) => None,
    }
}

/// The position of the first row that has not as many fields as the header,
/// if there is one.
pub open spec fn first_uneven(width: nat, rows: Seq<Seq<Seq<char>>>) -> Option<int>
    decreases rows.len(),
{
    if rows.len() == 0 {
        None
    } else {
        match first_uneven(width, rows.drop_last()) {
            Some(j) => Some(j),
            None => if rows.last().len() != width {
                Some(rows.len() - 1)
            } else {
                None
            },
        }
    }
}

/// A table turned from rows into columns: one column for each header field,
/// named by it, holding that field of every row, in row order.
pub open spec fn table_columns(headers: Seq<Seq<char>>, rows: Seq<Seq<Seq<char>>>) -> Seq<
    (Seq<char>, Seq<Seq<char>>),
> {
    Seq::new(headers.len(), |i: int| (headers[i], Seq::new(rows.len(), |j: int| rows[j][i])))
}

/// Reads delimited text with `csv::Reader::from_reader`, `Reader::headers`
/// and `Reader::records`, and copies every field out. Trusted: the result is
/// what `csv_table` names, for the same bytes; nothing is claimed of what
/// the fields are.
#[verifier::external_body]
fn parse_table(data: &[u8]) -> (r: Result<(Vec<String>, Vec<Vec<String>>), csv::Error>)
    ensures
        parsed_view(r) == csv_table(data@),
{
    let mut reader = csv::Reader::from_reader(data);
    let headers: Vec<String> = reader.headers()?.iter().map(String::from).collect();
    let rows: Vec<Vec<String>> = reader
        .records()
        .map(|row| row.map(|fields| fields.iter().map(String::from).collect()))
        .collect::<Result<Vec<Vec<String>>, csv::Error>>()?;
    Ok((headers, rows))
}

/// The message of a `csv::Error`, as its `Display` writes it. Trusted, and
/// nothing is claimed of the text.
#[verifier::external_body]
fn error_message(error: &csv::Error) -> String {
    format!("{}", error)
}

/// The first uneven row, where there is one, is uneven, and no row before it
/// is; where there is none, every row is even.
pub proof fn lemma_first_uneven(width: nat, rows: Seq<Seq<Seq<char>>>)
    ensures
        match first_uneven(width, rows) {
            Some(j) => 0 <= j < rows.len() && rows[j].len() != width && forall|k: int|
                0 <= k < j ==> (#[trigger] rows[k]).len() == width,
            None => forall|k: int| 0 <= k < rows.len() ==> (#[trigger] rows[k]).len() == width,
        },
    decreases rows.len(),
{
    if rows.len() > 0 {
        lemma_first_uneven(width, rows.drop_last());
        assert forall|k: int| 0 <= k < rows.len() - 1 implies rows.drop_last()[k] == rows[k] by {}
        match first_uneven(width, rows.drop_last()) {
            Some(j) => {
                assert(rows.drop_last()[j] == rows[j]);
                assert forall|k: int| 0 <= k < j implies (#[trigger] rows[k]).len() == width by {
                    assert(rows.drop_last()[k] == rows[k]);
                }
            },
            None => {
                assert forall|k: int| 0 <= k < rows.len() - 1 implies (#[trigger] rows[k]).len()
                    == width by {
                    assert(rows.drop_last()[k] == rows[k]);
                }
            },
        }
    }
}

/// The first `n` rows all have `width` fields.
proof fn lemma_even_prefix(width: nat, rows: Seq<Seq<Seq<char>>>, n: int)
    requires
        0 <= n <= rows.len(),
        forall|k: int| 0 <= k < n ==> (#[trigger] rows[k]).len() == width,
    ensures
        first_uneven(width, rows.take(n)) is None,
    decreases n,
{
    if n > 0 {
        lemma_even_prefix(width, rows, n - 1);
        assert(rows.take(n).drop_last() =~= rows.take(n - 1));
    }
}

/// Rows after the first uneven one do not matter.
proof fn lemma_uneven_stays(width: nat, rows: Seq<Seq<Seq<char>>>, n: int)
    requires
        0 <= n <= rows.len(),
        first_uneven(width, rows.take(n)) is Some,
    ensures
        first_uneven(width, rows) == first_uneven(width, rows.take(n)),
    decreases rows.len() - n,
{
    if n < rows.len() {
        assert(rows.take(n + 1).drop_last() =~= rows.take(n));
        lemma_uneven_stays(width, rows, n + 1);
    } else {
        assert(rows.take(n) =~= rows);
    }
}

/// Turns a table from rows into columns. Fails at the first row that has
/// not as many fields as the header, and only there.
pub fn columns_of(headers: &Vec<String>, rows: &Vec<Vec<String>>) -> (r: Result<
    Vec<(String, Vec<String>)>,
    DataAccessError,
>)
    ensures
        match first_uneven(headers@.len(), rows_view(rows@)) {
            Some(j) => r matches Err(DataAccessError::Width(at)) && at == j,
            None => r matches Ok(columns) && columns_view(columns@) == table_columns(
                texts_of(headers@),
                rows_view(rows@),
            ),
        },
{
    let ghost width = headers@.len();
    let ghost texts = rows_view(rows@);
    let mut j: usize = 0;
    while j < rows.len()
        invariant
            j <= rows.len(),
            texts == rows_view(rows@),
            width == headers@.len(),
            forall|k: int| 0 <= k < j ==> (#[trigger] texts[k]).len() == width,
        decreases rows.len() - j,
    {
        if rows[j].len() != headers.len() {
            proof {
                lemma_even_prefix(width, texts, j as int);
                assert(texts.take(j + 1).drop_last() =~= texts.take(j as int));
                assert(texts.take(j + 1).last() == texts[j as int]);
                lemma_uneven_stays(width, texts, j + 1);
            }
            return Err(DataAccessError::Width(j));
        }
        j = j + 1;
    }
    proof {
        lemma_even_prefix(width, texts, rows.len() as int);
        assert(texts.take(rows.len() as int) =~= texts);
        assert forall|k: int| 0 <= k < rows.len() implies (#[trigger] rows@[k])@.len()
            == width by {
            assert(texts[k].len() == width);
        }
    }
    let mut columns: Vec<(String, Vec<String>)> = Vec::new();
    let mut i: usize = 0;
    while i < headers.len()
        invariant
            i <= headers.len(),
            columns.len() == i,
            texts == rows_view(rows@),
            width == headers@.len(),
            forall|k: int| 0 <= k < rows.len() ==> (#[trigger] rows@[k])@.len() == width,
            forall|c: int|
                0 <= c < i ==> (#[trigger] columns_view(columns@)[c]) == table_columns(
                    texts_of(headers@),
                    texts,
                )[c],
        decreases headers.len() - i,
    {
        let mut column: Vec<String> = Vec::new();
        let mut j: usize = 0;
        while j < rows.len()
            invariant
                j <= rows.len(),
                i < headers.len(),
                column.len() == j,
                width == headers@.len(),
                forall|k: int| 0 <= k < rows.len() ==> (#[trigger] rows@[k])@.len() == width,
                forall|k: int| 0 <= k < j ==> (#[trigger] column@[k])@ == rows@[k]@[i as int]@,
            decreases rows.len() - j,
        {
            assert(rows@[j as int]@.len() == width);
            column.push(rows[j][i].clone());
            j = j + 1;
        }
        let ghost before = columns_view(columns@);
        columns.push((headers[i].clone(), column));
        proof {
            let expected = table_columns(texts_of(headers@), texts);
            assert(texts_of(column@) =~= expected[i as int].1);
            assert forall|c: int| 0 <= c < i + 1 implies (#[trigger] columns_view(columns@)[c])
                == expected[c] by {
                if c < i {
                    assert(columns_view(columns@)[c] == before[c]);
                }
            }
        }
        i = i + 1;
    }
    assert(columns_view(columns@) =~= table_columns(texts_of(headers@), texts));
    Ok(columns)
}

/// Reads delimited text into named columns: the first row names them, and
/// each holds its field of every later row, in row order. Fails with `Parse`
/// exactly where the `csv` crate reports an error, and with `Width` exactly
/// where it reports none and a row is uneven, naming the first such row.
pub fn read_file(data: &[u8]) -> (r: Result<Vec<(String, Vec<String>)>, DataAccessError>)
    ensures
        match csv_table(data@) {
            None => r matches Err(DataAccessError::Parse(_)),
            Some((headers, rows)) => match first_uneven(headers.len(), rows) {
                Some(j) => r matches Err(DataAccessError::Width(at)) && at == j,
                None => r matches Ok(read) && columns_view(read@) == table_columns(headers, rows),
            },
        },
{
    match parse_table(data) {
        Ok((headers, rows)) => columns_of(&headers, &rows),
        Err(error) => Err(DataAccessError::Parse(error_message(&error))),
    }
}

} // verus!
