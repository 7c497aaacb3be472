//! Records of a table file: each record carries an identifier and a table as
//! JSON text, and is answered by a record with the rotated table.

use crate::json::{document_read, process_json_array, processed};
use vstd::prelude::*;

verus! {

/// How validity is written in an output record.
pub open spec fn validity_text(is_valid: bool) -> Seq<char> {
    if is_valid {
        "true"@
    } else {
        "false"@
    }
}

/// The record that answers an input record with these fields, or `None` for an
/// input record to be skipped: one with fewer than two fields. The answer
/// holds the identifier as it came, what `process_json_array` puts out for the
/// second field, and whether that field held a table.
pub open spec fn answer_of(fields: Seq<String>) -> Option<Seq<Seq<char>>> {
    if fields.len() < 2 {
        None
    } else {
        let out = processed(document_read(fields[1]@));
        Some(seq![fields[0]@, out.0, validity_text(out.1)])
    }
}

/// The texts of a record's fields.
pub open spec fn texts_of(record: Seq<String>) -> Seq<Seq<char>> {
    Seq::new(record.len(), |i: int| record[i]@)
}

/// The names of the three output columns.
pub fn header() -> (names: Vec<String>)
    ensures
        texts_of(names@) == seq!["id"@, "json"@, "is_valid"@],
{
    let mut names: Vec<String> = Vec::with_capacity(3);
    names.push("id".to_string());
    names.push("json".to_string());
    names.push("is_valid".to_string());
    assert(texts_of(names@) =~= seq!["id"@, "json"@, "is_valid"@]);
    names
}

/// Answers one input record: rotates the table in its second field and
/// returns the output record, or `None` where the input record has fewer than
/// two fields and is to be skipped. A field that holds no table is answered
/// too, with the empty array and `false`.
pub fn answer_record(fields: &Vec<String>) -> (answer: Option<Vec<String>>)
    ensures
        match answer {
            Some(record) => answer_of(fields@) == Some(texts_of(record@)),
            None => answer_of(fields@) is None,
        },
{
    if fields.len() < 2 {
        return None;
    }
    let (rotated_json, is_valid) = process_json_array(fields[1].as_str());
    let mut record: Vec<String> = Vec::with_capacity(3);
    record.push(fields[0].clone());
    record.push(rotated_json);
    record.push(
        if is_valid {
            "true".to_string()
        } else {
            "false".to_string()
        },
    );
    assert(texts_of(record@) =~= answer_of(fields@).unwrap());
    Some(record)
}

} // verus!
