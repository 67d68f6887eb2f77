use vstd::prelude::*;
use crate::text::{parse_port, parse_unsigned};
use crate::uri::{parses_as_uri, uri_parses};

verus! {

/// The records that `csv::ReaderBuilder::new().from_reader(data).records()`
/// yields, the first row being taken as the header and skipped, each record
/// as its fields' text; `None` when the reader reports an error (malformed
/// or non-UTF-8 input, or a record whose field count differs from the
/// header's). A function of the bytes alone.
pub uninterp spec fn csv_records_of(data: Seq<u8>) -> Option<Seq<Seq<Seq<char>>>>;

/// Records as the text of their fields.
pub open spec fn records_view(r: Option<Vec<Vec<String>>>) -> Option<Seq<Seq<Seq<char>>>> {
    match r {
        Some(v) => Some(v@.map_values(|rec: Vec<String>| rec@.map_values(|f: String| f@))),
        None => None,
    }
}

/// Reads `data` as CSV with `csv::ReaderBuilder::new()` (a header row, comma
/// separated, records of the header's length) and collects the records of
/// `records()` as strings, stopping at the first error.
///
/// Claimed: the result is `csv_records_of(data)`, and every record has at
/// least one field. The second claim rests on csv-core's reader: a record
/// starts only at a byte that does not end a line (empty lines are skipped),
/// and every way a record ends completes a field first. The call returns:
/// reading from a slice never fails, and the reader's one panic, a record
/// count past `u64::MAX`, needs more bytes than memory holds.
#[verifier::external_body]
fn csv_records(data: &[u8]) -> (r: Option<Vec<Vec<String>>>)
    ensures
        records_view(r) == csv_records_of(data@),
        r matches Some(v) ==> forall|i: int| 0 <= i < v@.len() ==> #[trigger] v@[i]@.len() > 0,
{
    csv::ReaderBuilder::new()
        .from_reader(data)
        .records()
        .map(|rec| rec.map(|rec| rec.iter().map(|f| f.to_string()).collect()))
        .collect::<Result<Vec<Vec<String>>, csv::Error>>()
        .ok()
}

/// The first field of each record.
pub open spec fn first_fields(rs: Seq<Seq<Seq<char>>>) -> Seq<Seq<char>> {
    rs.map_values(|rec: Seq<Seq<char>>| rec[0])
}

/// The port numbers listed in CSV `data`, one per record in its first field:
/// `None` when the CSV cannot be read or some first field is not a `u16`.
pub fn ports_from_csv(data: &[u8]) -> (r: Option<Vec<u16>>)
    ensures
        match csv_records_of(data@) {
            None => r is None,
            Some(rs) => {
                &&& r is Some <==> forall|i: int|
                    0 <= i < rs.len() ==> #[trigger] parse_unsigned(first_fields(rs)[i], u16::MAX as nat)
                        is Some
                &&& r matches Some(ports) ==> {
                    &&& ports@.len() == rs.len()
                    &&& forall|i: int|
                        0 <= i < rs.len() ==> parse_unsigned(first_fields(rs)[i], u16::MAX as nat) == Some(
                            #[trigger] ports@[i] as nat,
                        )
                }
            },
        },
{
    let records = match csv_records(data) {
        Some(records) => records,
        None => return None,
    };
    let ghost rs = records_view(Some(records))->0;
    assert(csv_records_of(data@) == Some(rs));
    assert(rs.len() == records@.len());
    let mut ports: Vec<u16> = Vec::new();
    let mut i: usize = 0;
    while i < records.len()
        invariant
            i <= records@.len(),
            rs == records_view(Some(records))->0,
            csv_records_of(data@) == Some(rs),
            rs.len() == records@.len(),
            forall|k: int| 0 <= k < records@.len() ==> #[trigger] records@[k]@.len() > 0,
            ports@.len() == i,
            forall|k: int|
                0 <= k < i ==> parse_unsigned(first_fields(rs)[k], u16::MAX as nat) == Some(
                    #[trigger] ports@[k] as nat,
                ),
            forall|k: int|
                0 <= k < i ==> #[trigger] parse_unsigned(first_fields(rs)[k], u16::MAX as nat) is Some,
        decreases records@.len() - i,
    {
        assert(records@[i as int]@.len() > 0);
        let field = records[i][0].as_str();
        assert(field@ == first_fields(rs)[i as int]);
        match parse_port(field) {
            Some(p) => ports.push(p),
            None => {
                assert(parse_unsigned(first_fields(rs)[i as int], u16::MAX as nat) is None);
                return None;
            },
        }
        i = i + 1;
    }
    Some(ports)
}

/// The backend addresses listed in CSV `data`, one per record in its first
/// field: `None` when the CSV cannot be read or some first field does not
/// parse as a URI.
pub fn uris_from_csv(data: &[u8]) -> (r: Option<Vec<String>>)
    ensures
        match csv_records_of(data@) {
            None => r is None,
            Some(rs) => {
                &&& r is Some <==> forall|i: int|
                    0 <= i < rs.len() ==> #[trigger] parses_as_uri(first_fields(rs)[i])
                &&& r matches Some(uris) ==> {
                    &&& uris@.len() == rs.len()
                    &&& forall|i: int| 0 <= i < rs.len() ==> #[trigger] uris@[i]@ == first_fields(rs)[i]
                }
            },
        },
{
    let records = match csv_records(data) {
        Some(records) => records,
        None => return None,
    };
    let ghost rs = records_view(Some(records))->0;
    assert(csv_records_of(data@) == Some(rs));
    assert(rs.len() == records@.len());
    let mut uris: Vec<String> = Vec::new();
    let mut i: usize = 0;
    while i < records.len()
        invariant
            i <= records@.len(),
            rs == records_view(Some(records))->0,
            csv_records_of(data@) == Some(rs),
            rs.len() == records@.len(),
            forall|k: int| 0 <= k < records@.len() ==> #[trigger] records@[k]@.len() > 0,
            uris@.len() == i,
            forall|k: int| 0 <= k < i ==> #[trigger] uris@[k]@ == first_fields(rs)[k],
            forall|k: int| 0 <= k < i ==> #[trigger] parses_as_uri(first_fields(rs)[k]),
        decreases records@.len() - i,
    {
        assert(records@[i as int]@.len() > 0);
        let field = records[i][0].as_str();
        assert(field@ == first_fields(rs)[i as int]);
        if !uri_parses(field) {
            assert(!parses_as_uri(first_fields(rs)[i as int]));
            return None;
        }
        uris.push(field.to_owned());
        i = i + 1;
    }
    Some(uris)
}

} // verus!
