//! Reading CSV text with the `csv` crate.

use vstd::prelude::*;
use crate::order::strs;

verus! {

/// The error type of the `csv` crate, carried as it is.
#[verifier::external_type_specification]
#[verifier::external_body]
pub struct ExCsvError(csv::Error);

/// The header row that `csv` reads from the text, if it reads one.
pub uninterp spec fn csv_header_row(text: Seq<u8>) -> Option<Seq<Seq<char>>>;

/// The records that `csv` reads after the header row, each one as its
/// fields or as a failure.
pub uninterp spec fn csv_records(text: Seq<u8>) -> Seq<Option<Seq<Seq<char>>>>;

/// A byte of the plain CSV subset: ASCII and not a quote.
pub open spec fn plain_byte(b: u8) -> bool {
    b < 0x80 && b != 0x22
}

/// A line terminator of the default reader: `\n` or `\r`.
pub open spec fn terminator(b: u8) -> bool {
    b == 0x0a || b == 0x0d
}

/// Plain CSV text that holds its header row and ends with a line end: only
/// plain bytes, at least one byte that is not a line terminator (so that the
/// first line with one is the header row), and a last byte `\n`.
pub open spec fn plain_text(text: Seq<u8>) -> bool {
    &&& forall|i: int| 0 <= i < text.len() ==> plain_byte(#[trigger] text[i])
    &&& exists|i: int| 0 <= i < text.len() && !terminator(#[trigger] text[i])
    &&& text.len() > 0
    &&& text.last() == 0x0a
}

/// One plain CSV line: some plain bytes other than line terminators, then
/// `\n`.
pub open spec fn plain_line(line: Seq<u8>) -> bool {
    &&& line.len() >= 2
    &&& line.last() == 0x0a
    &&& forall|i: int| 0 <= i < line.len() - 1 ==> plain_byte(#[trigger] line[i]) && !terminator(line[i])
}

/// The comma separated fields of `bytes`, each byte taken as the character
/// of the same code.
pub open spec fn split_fields(bytes: Seq<u8>) -> Seq<Seq<char>>
    decreases bytes.len(),
{
    if bytes.len() == 0 {
        seq![Seq::empty()]
    } else {
        let rest = split_fields(bytes.drop_last());
        if bytes.last() == 0x2c {
            rest.push(Seq::empty())
        } else {
            rest.update(rest.len() - 1, rest.last().push(bytes.last() as char))
        }
    }
}

/// The fields of a plain line (its bytes before the final `\n`).
pub open spec fn line_fields(line: Seq<u8>) -> Seq<Seq<char>> {
    split_fields(line.drop_last())
}

/// The items read from the text, each one as its fields or as a failure.
pub open spec fn read_items(items: Seq<Result<Vec<String>, csv::Error>>) -> Seq<Option<Seq<Seq<char>>>> {
    items.map_values(
        |item: Result<Vec<String>, csv::Error>|
            match item {
                Ok(r) => Some(strs(r@)),
                Err(_) => None,
            },
    )
}

/// Calls `csv::Reader::from_reader(text).headers()` (default reader: comma
/// separated, first row is the header row) and copies out its fields.
/// Claimed: the result is `Ok` exactly when `csv_header_row` is `Some`, and
/// then holds those fields. Nothing is said of what is inside the error.
/// Also claimed: on plain text (which holds its whole header row, as the
/// first line with a byte that is not a line terminator) a plain line added
/// at the end does not change the header row.
#[verifier::external_body]
pub(crate) fn read_header_row(text: &[u8]) -> (res: Result<Vec<String>, csv::Error>)
    ensures
        res is Ok <==> csv_header_row(text@) is Some,
        res matches Ok(h) ==> csv_header_row(text@) == Some(strs(h@)),
        res matches Ok(h) ==> forall|line: Seq<u8>|
            plain_text(text@) && plain_line(line) ==> #[trigger] csv_header_row(text@ + line) == Some(
                strs(h@),
            ),
{
    let mut reader = csv::Reader::from_reader(text);
    reader.headers().map(|h| h.iter().map(|f| f.to_string()).collect())
}

/// Calls `csv::Reader::from_reader(text).records()` and collects every item,
/// copying out the fields of each record that was read.
/// Claimed: item `i` is `Ok` exactly when `csv_records(text)[i]` is `Some`,
/// and then holds those fields; and, since the default reader is not
/// `flexible`, a record that is read has as many fields as the header row.
/// Also claimed: every data line is read, each time it occurs. On plain text
/// with a header row, a plain line added at the end adds one item at the
/// end: its comma separated fields when it has as many as the header row,
/// else a failure (`UnequalLengths`).
#[verifier::external_body]
pub(crate) fn read_records(text: &[u8]) -> (res: Vec<Result<Vec<String>, csv::Error>>)
    ensures
        res.len() == csv_records(text@).len(),
        forall|i: int|
            0 <= i < res.len() ==> ((#[trigger] res[i]) is Ok <==> csv_records(text@)[i] is Some),
        forall|i: int|
            0 <= i < res.len() ==> (#[trigger] res[i] matches Ok(r) ==> csv_records(text@)[i] == Some(
                strs(r@),
            )),
        forall|i: int|
            0 <= i < res.len() ==> (#[trigger] res[i] matches Ok(r) ==> (csv_header_row(
                text@,
            ) matches Some(h) ==> r.len() == h.len())),
        forall|line: Seq<u8>|
            plain_text(text@) && plain_line(line) && csv_header_row(text@) is Some ==> #[trigger] csv_records(
                text@ + line,
            ) == read_items(res@).push(
                if line_fields(line).len() == csv_header_row(text@).unwrap().len() {
                    Some(line_fields(line))
                } else {
                    None
                },
            ),
{
    let mut reader = csv::Reader::from_reader(text);
    reader.records().map(|item| item.map(|r| r.iter().map(|f| f.to_string()).collect())).collect()
}

/// The records that were read, in order, skipping the failures.
pub open spec fn read_ok(items: Seq<Option<Seq<Seq<char>>>>) -> Seq<Seq<Seq<char>>>
    decreases items.len(),
{
    if items.len() == 0 {
        Seq::empty()
    } else {
        let rest = read_ok(items.drop_last());
        match items.last() {
            Some(r) => rest.push(r),
            None => rest,
        }
    }
}

} // verus!
