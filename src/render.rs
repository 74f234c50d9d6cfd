//! Rendering tables as CSV text.

use crate::filters::{Record, TableView};
use vstd::prelude::*;

verus! {

#[verifier::external_type_specification]
#[verifier::external_body]
pub struct ExCsvError(csv::Error);

/// The CSV text that `csv::Writer`, with its default settings, makes of
/// `records`, one line per record.
pub uninterp spec fn csv_text(records: Seq<Seq<Seq<char>>>) -> Seq<char>;

/// All records have the same number of fields.
pub open spec fn same_width(t: TableView) -> bool {
    forall|a: int, b: int| 0 <= a < t.len() && 0 <= b < t.len() ==> #[trigger] t[a].len() == #[trigger] t[b].len()
}

/// Relies on `csv::Writer::from_writer` over a `Vec<u8>` with default settings,
/// `Writer::write_record` for each record in turn, and `Writer::into_inner`:
/// writing to memory does not fail, and a record whose field count differs
/// from the first record's is refused. Fields are UTF-8 and the writer adds
/// ASCII only, so the bytes are UTF-8.
#[verifier::external_body]
pub(crate) fn write_csv(records: &Vec<Record>) -> (r: Result<String, csv::Error>)
    ensures
        r is Ok <==> same_width(records.deep_view()),
        r matches Ok(text) ==> text@ == csv_text(records.deep_view()),
{
    let mut w = csv::Writer::from_writer(Vec::new());
    for rec in records.iter() {
        w.write_record(rec)?;
    }
    let bytes = w.into_inner().map_err(|e| csv::Error::from(e.into_error()))?;
    let text = String::from_utf8(bytes);
    text.map_err(|e| csv::Error::from(std::io::Error::new(std::io::ErrorKind::InvalidData, e)))
}

} // verus!
