//! The row source: decoding CSV bytes into records.
//!
//! The core never opens files itself; callers hand it the file's bytes and
//! the `csv` crate decodes them here, behind one trusted wrapper.  A record
//! is a sequence of field texts; the first record is the header row.

use vstd::prelude::*;

verus! {

/// What the CSV decoder yields on the given bytes: every record, in order,
/// as its sequence of field texts — or nothing when the bytes do not
/// decode.  The decode is a function of the bytes alone.
pub uninterp spec fn csv_records(data: Seq<u8>) -> Option<Seq<Seq<Seq<char>>>>;

/// Relies on `csv::ReaderBuilder` and `csv::Reader::records` (crate
/// `csv`): decodes comma-separated records, treating the first record like
/// any other and allowing records of differing lengths; yields an error
/// record on undecodable input (such as invalid UTF-8).
#[verifier::external_body]
pub(crate) fn decode_csv(data: &[u8]) -> (r: Result<Vec<Vec<String>>, String>)
    ensures
        match r {
            Ok(recs) => csv_records(data@) == Some(recs.deep_view()),
            Err(_) => csv_records(data@) is None,
        },
{
    let mut reader = csv::ReaderBuilder::new().has_headers(false).flexible(true).from_reader(
        data,
    );
    let mut out: Vec<Vec<String>> = Vec::new();
    for record in reader.records() {
        match record {
            Ok(rec) => out.push(rec.iter().map(|f| f.to_string()).collect()),
            Err(e) => {
                return Err(e.to_string());
            },
        }
    }
    Ok(out)
}

/// The header row of a decoded file: its first record, or no columns at
/// all when the file is empty.
pub open spec fn header_of(recs: Seq<Seq<Seq<char>>>) -> Seq<Seq<char>> {
    if recs.len() > 0 {
        recs[0]
    } else {
        Seq::empty()
    }
}

/// The data rows of a decoded file: every record after the header.
pub open spec fn data_rows_of(recs: Seq<Seq<Seq<char>>>) -> Seq<Seq<Seq<char>>> {
    if recs.len() > 0 {
        recs.skip(1)
    } else {
        Seq::empty()
    }
}

} // verus!
