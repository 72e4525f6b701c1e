//! Reading CSV records through the `csv` crate.

use vstd::prelude::*;

verus! {

/// A parse error of the `csv` crate.
#[verifier::external_type_specification]
#[verifier::external_body]
pub struct ExCsvError(csv::Error);

/// One record of CSV data, as `csv` reads it.
#[verifier::external_type_specification]
#[verifier::external_body]
pub struct ExStringRecord(csv::StringRecord);

/// The fields that `record` holds, in order.
pub uninterp spec fn record_fields(record: csv::StringRecord) -> Seq<Seq<char>>;

/// What a `csv::Reader` built with field delimiter `delimiter` and with
/// `has_headers` set as given yields for `input`: the fields of each record it
/// reads before its first error, in order, and whether an error ended the
/// reading (`false` when the input was read to its end).
pub uninterp spec fn csv_records(input: Seq<u8>, delimiter: u8, has_headers: bool) -> (
    Seq<Seq<Seq<char>>>,
    bool,
);

/// Reads `input` with a `csv::Reader` that `csv::ReaderBuilder` configures
/// with `delimiter` and `has_headers` (every other setting at its default),
/// collecting each `StringRecord` that `Reader::records` yields, until the
/// first error, which is handed back beside them.
///
/// Trusted: the fields of the records and the presence of an error are what
/// the reader yields for these arguments, under the name `csv_records`;
/// nothing is stated of the error value itself.
#[verifier::external_body]
pub(crate) fn read_records(input: &[u8], delimiter: u8, has_headers: bool) -> (r: (
    Vec<csv::StringRecord>,
    Option<csv::Error>,
))
    ensures
        r.0@.map_values(|record: csv::StringRecord| record_fields(record)) == csv_records(
            input@,
            delimiter,
            has_headers,
        ).0,
        r.1 is Some == csv_records(input@, delimiter, has_headers).1,
{
    let mut reader = csv::ReaderBuilder::new().delimiter(delimiter).has_headers(has_headers).from_reader(input);
    let mut records: Vec<csv::StringRecord> = Vec::new();
    for result in reader.records() {
        match result {
            Ok(record) => records.push(record),
            Err(err) => return (records, Some(err)),
        }
    }
    (records, None)
}

/// `StringRecord::len`: the number of fields of `record`.
#[verifier::external_body]
pub(crate) fn field_count(record: &csv::StringRecord) -> (r: usize)
    ensures
        r == record_fields(*record).len(),
{
    record.len()
}

/// `StringRecord::get`: the field of `record` at `i`, or `None` when the
/// record has no field there.
#[verifier::external_body]
pub(crate) fn field(record: &csv::StringRecord, i: usize) -> (r: Option<&str>)
    ensures
        r is Some <==> i < record_fields(*record).len(),
        r matches Some(text) ==> text@ == record_fields(*record)[i as int],
{
    record.get(i)
}

} // verus!
