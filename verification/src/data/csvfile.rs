//! Comma-separated files, read through the `csv` crate.
use vstd::prelude::*;

verus! {

/// What the `csv` crate reads from `content` with a header row and the given
/// flexibility: the fields of each data record in order, up to and including the
/// first error, which is given by its message.
pub uninterp spec fn csv_parse(content: Seq<u8>, flexible: bool) -> Seq<Result<Seq<Seq<char>>, Seq<char>>>;

/// The fields of a record, or the message of its error.
pub open spec fn record_view(r: Result<Vec<String>, String>) -> Result<Seq<Seq<char>>, Seq<char>> {
    match r {
        Ok(fs) => Ok(fs@.map_values(|f: String| f@)),
        Err(e) => Err(e@),
    }
}

pub open spec fn records_view(rs: Seq<Result<Vec<String>, String>>) -> Seq<Result<Seq<Seq<char>>, Seq<char>>> {
    rs.map_values(|r: Result<Vec<String>, String>| record_view(r))
}

/// Calls `csv::ReaderBuilder::from_reader` (header row on, flexibility as given) on
/// `content` and walks `Reader::records` up to the first error. The contract says
/// that the result is the named outcome for `(content, flexible)`; how the crate
/// splits fields and which inputs it refuses is not stated.
#[verifier::external_body]
pub(crate) fn read_csv_records(content: &[u8], flexible: bool) -> (r: Vec<Result<Vec<String>, String>>)
    ensures
        records_view(r@) == csv_parse(content@, flexible),
{
    let mut rdr = csv::ReaderBuilder::new().has_headers(true).flexible(flexible).from_reader(content);
    let mut out = Vec::new();
    for rec in rdr.records() {
        match rec {
            Ok(r) => out.push(Ok(r.iter().map(|f| f.to_string()).collect())),
            Err(e) => {
                out.push(Err(e.to_string()));
                break;
            },
        }
    }
    out
}

} // verus!
