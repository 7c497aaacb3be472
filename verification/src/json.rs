//! Tables carried as JSON arrays: the numbers are read out of a JSON text,
//! rotated as a square table, and written back as JSON.
//!
//! Reading and writing JSON is the work of `serde_json`; what it returns is
//! taken on trust and named by `document_read` and `numbers_written`. What is
//! decided on that ground is verified here: which documents hold a table, which
//! integer each number stands for, and what comes out for every document.

use crate::double::{whole_double, whole_of_double};
use crate::rotate::{rotate_right, rotation_of};
use crate::square::{is_perfect_square, square_len};
use serde_json::Value;
use vstd::prelude::*;

verus! {

/// One element of a JSON array, as far as rotation reads it.
#[derive(Clone, Copy, Debug, PartialEq, Eq)]
pub enum Element {
    /// A JSON number. `integer` is its value where the number is written as
    /// an integer that fits in 64 bits with sign; `double_bits` is the double
    /// that the number reads as, by its IEEE 754 bits.
    Number { integer: Option<i64>, double_bits: Option<u64> },
    /// Anything that is not a number.
    Other,
}

/// A text read as JSON.
#[derive(Debug, PartialEq, Eq)]
pub enum Document {
    /// The text is not JSON.
    Malformed,
    /// The text is JSON, but no array.
    NotArray,
    /// The text is a JSON array of these elements.
    Array(Vec<Element>),
}

/// What a `Document` holds, with the elements as a sequence.
pub enum Reading {
    /// The text is not JSON.
    Malformed,
    /// The text is JSON, but no array.
    NotArray,
    /// The text is a JSON array of these elements.
    Array(Seq<Element>),
}

impl View for Document {
    type V = Reading;

    open spec fn view(&self) -> Reading {
        match self {
            Document::Malformed => Reading::Malformed,
            Document::NotArray => Reading::NotArray,
            Document::Array(items) => Reading::Array(items@),
        }
    }
}

/// What `serde_json` reads the text as.
pub uninterp spec fn document_read(text: Seq<char>) -> Reading;

/// The JSON text that `serde_json` writes for an array of these integers, if
/// it writes one.
pub uninterp spec fn numbers_written(numbers: Seq<i64>) -> Option<Seq<char>>;

/// Parses the text with `serde_json::from_str` into a `serde_json::Value` and
/// hands out what rotation reads of it: whether the text parsed, whether the
/// value is an array, and of each element of the array whether it is a
/// number, with what `Number::as_i64` and `Number::as_f64` return for it (the
/// double by its bits). The contract only gives the outcome its name,
/// `document_read`: the same text is always read the same.
#[verifier::external_body]
fn read_document(text: &str) -> (document: Document)
    ensures
        document@ == document_read(text@),
{
    match serde_json::from_str::<Value>(text) {
        Ok(Value::Array(items)) => Document::Array(items.iter().map(|item| match item {
            Value::Number(number) => Element::Number {
                integer: number.as_i64(),
                double_bits: number.as_f64().map(|double| double.to_bits()),
            },
            _ => Element::Other,
        }).collect()),
        Ok(_) => Document::NotArray,
        Err(_) => Document::Malformed,
    }
}

/// Writes the integers as a JSON array with `serde_json::to_string`, and
/// gives `None` where that fails. The contract only gives the outcome its
/// name, `numbers_written`: the same integers are always written the same.
#[verifier::external_body]
fn write_numbers(numbers: &Vec<i64>) -> (text: Option<String>)
    ensures
        text matches Some(written) ==> numbers_written(numbers@) == Some(written@),
        text is None ==> numbers_written(numbers@) is None,
{
    serde_json::to_string(numbers).ok()
}

/// The integer that an element stands for: a number's integer value where it
/// has one, else the whole value of its double, and nothing for a number with
/// a part behind the point or for what is no number.
pub open spec fn whole_of(element: Element) -> Option<i64> {
    match element {
        Element::Number { integer: Some(value), double_bits: _ } => Some(value),
        Element::Number { integer: None, double_bits: Some(bits) } => whole_of_double(bits),
        _ => None,
    }
}

/// Every element stands for an integer.
pub open spec fn all_whole(items: Seq<Element>) -> bool {
    forall|i: int| 0 <= i < items.len() ==> (#[trigger] whole_of(items[i])) is Some
}

/// The integers that the elements stand for, in their order.
pub open spec fn integers_of(items: Seq<Element>) -> Seq<i64> {
    Seq::new(items.len(), |i: int| whole_of(items[i]).unwrap())
}

/// The table that a document holds: the integers of an array that has at
/// least one element, a perfect square of them, all standing for integers.
pub open spec fn table_of(reading: Reading) -> Option<Seq<i64>> {
    match reading {
        Reading::Array(items) => if all_whole(items) && items.len() > 0 && is_perfect_square(
            items.len() as int,
        ) {
            Some(integers_of(items))
        } else {
            None
        },
        _ => None,
    }
}

/// The JSON text put out for a rotated table: what `serde_json` wrote, or the
/// empty array where it wrote nothing.
pub open spec fn rotated_text(written: Option<Seq<char>>) -> Seq<char> {
    match written {
        Some(text) => text,
        None => "[]"@,
    }
}

/// What is put out for a document: the rotated table as JSON and `true`
/// where the document holds a table, the empty array and `false` where it
/// does not.
pub open spec fn processed(reading: Reading) -> (Seq<char>, bool) {
    match table_of(reading) {
        Some(numbers) => (rotated_text(numbers_written(rotation_of(numbers))), true),
        None => ("[]"@, false),
    }
}

/// What is put out for a document that holds no table.
fn invalid() -> (out: (String, bool))
    ensures
        out.0@ == "[]"@,
        !out.1,
{
    ("[]".to_string(), false)
}

/// The integer that an element stands for, if it stands for one.
pub fn whole_number(element: &Element) -> (whole: Option<i64>)
    ensures
        whole == whole_of(*element),
{
    match element {
        Element::Number { integer: Some(value), double_bits: _ } => Some(*value),
        Element::Number { integer: None, double_bits: Some(bits) } => whole_double(*bits),
        _ => None,
    }
}

/// The integers that the elements stand for, or `None` as soon as one of them
/// stands for none.
pub fn whole_numbers(items: &Vec<Element>) -> (numbers: Option<Vec<i64>>)
    ensures
        match numbers {
            Some(found) => all_whole(items@) && found@ == integers_of(items@),
            None => !all_whole(items@),
        },
{
    let mut numbers: Vec<i64> = Vec::with_capacity(items.len());
    let mut i: usize = 0;
    while i < items.len()
        invariant
            i <= items.len(),
            numbers.len() == i,
            forall|j: int| 0 <= j < i ==> whole_of(items@[j]) == Some(#[trigger] numbers@[j]),
        decreases items.len() - i,
    {
        match whole_number(&items[i]) {
            Some(value) => numbers.push(value),
            None => return None,
        }
        i += 1;
    }
    assert forall|j: int| 0 <= j < items@.len() implies (#[trigger] whole_of(items@[j])) is Some by {
        assert(whole_of(items@[j]) == Some(numbers@[j]));
    }
    assert(numbers@ =~= integers_of(items@));
    Some(numbers)
}

/// What is put out for a table that was rotated, given what writing it as
/// JSON returned: the text written, or the empty array where writing failed,
/// and `true` either way.
pub fn rotated_output(written: Option<String>) -> (out: (String, bool))
    ensures
        out.0@ == rotated_text(
            match written {
                Some(text) => Some(text@),
                None => None,
            },
        ),
        out.1,
{
    match written {
        Some(text) => (text, true),
        None => ("[]".to_string(), true),
    }
}

/// Rotates the table that a document holds and writes it back as JSON.
/// Returns the JSON text and `true`, or the empty array and `false` where the
/// document holds no table: where it is no array, where an element is not a
/// whole number, and where the number of elements is zero or no perfect
/// square.
pub fn process_document(document: &Document) -> (out: (String, bool))
    ensures
        (out.0@, out.1) == processed(document@),
{
    let items = match document {
        Document::Array(items) => items,
        _ => return invalid(),
    };
    let mut numbers = match whole_numbers(items) {
        Some(numbers) => numbers,
        None => return invalid(),
    };
    if square_len(numbers.len()).is_none() {
        return invalid();
    }
    if numbers.is_empty() {
        return invalid();
    }
    match rotate_right(&mut numbers) {
        Ok(()) => rotated_output(write_numbers(&numbers)),
        Err(_) => invalid(),
    }
}

/// Reads the text as a JSON array of numbers, rotates it as a square table,
/// and returns the rotated array as JSON with `true`; returns the empty array
/// with `false` where the text is not such a table.
pub fn process_json_array(json_text: &str) -> (out: (String, bool))
    ensures
        (out.0@, out.1) == processed(document_read(json_text@)),
{
    let document = read_document(json_text);
    process_document(&document)
}

} // verus!
