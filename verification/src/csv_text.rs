//! CSV text through the csv crate: reading records (no header row, rows of
//! any length; quotes, commas and line breaks inside cells handled by the
//! crate) and writing them back.

use crate::sheet::grid_view;
use vstd::prelude::*;

verus! {

/// The records the csv crate reads from `bytes` (no header row, flexible row
/// lengths), each cell as its characters; none when the crate reports an error.
pub uninterp spec fn csv_records(bytes: Seq<u8>) -> Option<Seq<Seq<Seq<char>>>>;

/// The bytes the csv crate writes for the records `rows` (flexible row
/// lengths); none when the crate reports an error.
pub uninterp spec fn csv_written(rows: Seq<Seq<Seq<char>>>) -> Option<Seq<u8>>;

/// Reads `bytes` as CSV records with `csv::ReaderBuilder` (no headers,
/// flexible), stopping at the first error, whose message it returns. The
/// contract claims the records are a function of the bytes alone; what the
/// message says is left unsaid.
#[verifier::external_body]
pub(crate) fn read_records(bytes: &[u8]) -> (r: Result<Vec<Vec<String>>, String>)
    ensures
        match r {
            Ok(g) => csv_records(bytes@) == Some(grid_view(g@)),
            Err(_) => csv_records(bytes@) is None,
        },
{
    let mut rdr = csv::ReaderBuilder::new().has_headers(false).flexible(true).from_reader(bytes);
    let mut grid = Vec::new();
    for rec in rdr.records() {
        match rec {
            Ok(r) => grid.push(r.iter().map(|s| s.to_string()).collect()),
            Err(e) => return Err(e.to_string()),
        }
    }
    Ok(grid)
}

/// Writes `rows` as CSV with `csv::WriterBuilder` (flexible) into a byte
/// buffer, returning the error's message on failure. The contract claims
/// the bytes are a function of the rows alone; what the message says is
/// left unsaid.
#[verifier::external_body]
pub(crate) fn write_records(rows: &Vec<Vec<String>>) -> (r: Result<Vec<u8>, String>)
    ensures
        match r {
            Ok(b) => csv_written(grid_view(rows@)) == Some(b@),
            Err(_) => csv_written(grid_view(rows@)) is None,
        },
{
    let mut wtr = csv::WriterBuilder::new().flexible(true).from_writer(Vec::new());
    for row in rows {
        if let Err(e) = wtr.write_record(row) {
            return Err(e.to_string());
        }
    }
    wtr.into_inner().map_err(|e| e.to_string())
}

} // verus!
