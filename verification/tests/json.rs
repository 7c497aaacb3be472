use rotate_cli::json::{
    process_document, rotated_output, whole_number, whole_numbers, Document, Element,
};
use rotate_cli::process_json_array;

fn integer(value: i64) -> Element {
    Element::Number { integer: Some(value), double_bits: Some((value as f64).to_bits()) }
}

fn double(value: f64) -> Element {
    Element::Number { integer: None, double_bits: Some(value.to_bits()) }
}

#[test]
fn test_process_valid_2x2() {
    // [1, 2]       →   [3, 1]
    // [3, 4]           [4, 2]
    let (result, valid) = process_json_array("[1, 2, 3, 4]");
    assert!(valid);
    assert_eq!(result, "[3,1,4,2]");
}

#[test]
fn test_process_valid_3x3() {
    // [1, 2, 3]       →   [4, 1, 2]
    // [4, 5, 6]           [7, 5, 3]
    // [7, 8, 9]           [8, 9, 6]
    let (result, valid) = process_json_array("[1, 2, 3, 4, 5, 6, 7, 8, 9]");
    assert!(valid);
    assert_eq!(result, "[4,1,2,7,5,3,8,9,6]");
}

#[test]
fn test_process_valid_1x1() {
    let (result, valid) = process_json_array("[42]");
    assert!(valid);
    assert_eq!(result, "[42]");
}

#[test]
fn test_process_invalid_non_square() {
    let (result, valid) = process_json_array("[1, 2, 3]");
    assert!(!valid);
    assert_eq!(result, "[]");
}

#[test]
fn test_process_invalid_empty() {
    let (result, valid) = process_json_array("[]");
    assert!(!valid);
    assert_eq!(result, "[]");
}

#[test]
fn test_process_invalid_non_array() {
    let (result, valid) = process_json_array("42");
    assert!(!valid);
    assert_eq!(result, "[]");
}

#[test]
fn test_process_invalid_non_numeric() {
    let (result, valid) = process_json_array("[1, \"hello\", 3]");
    assert!(!valid);
    assert_eq!(result, "[]");
}

#[test]
fn test_process_malformed_json() {
    let (result, valid) = process_json_array("[1, 2,");
    assert!(!valid);
    assert_eq!(result, "[]");
}

#[test]
fn test_process_with_negative_numbers() {
    // [-1, -2]      →   [-3, -1]
    // [-3, -4]          [-4, -2]
    let (result, valid) = process_json_array("[-1, -2, -3, -4]");
    assert!(valid);
    assert_eq!(result, "[-3,-1,-4,-2]");
}

#[test]
fn process_takes_whole_doubles_as_integers() {
    let (result, valid) = process_json_array("[1.0, 2e0, 30e-1, 4.000]");
    assert!(valid);
    assert_eq!(result, "[3,1,4,2]");

    let (result, valid) = process_json_array("[1e2, 2, 3, 4]");
    assert!(valid);
    assert_eq!(result, "[3,100,4,2]");

    let (result, valid) = process_json_array("[-0.0]");
    assert!(valid);
    assert_eq!(result, "[0]");

    assert_eq!(process_json_array("[-0]"), ("[0]".to_string(), true));
}

#[test]
fn process_refuses_a_number_with_a_fraction() {
    assert_eq!(process_json_array("[1.5]"), ("[]".to_string(), false));
    assert_eq!(process_json_array("[1, 2, 3, 4.25]"), ("[]".to_string(), false));
    assert_eq!(process_json_array("[1e-3]"), ("[]".to_string(), false));
}

#[test]
fn process_takes_numbers_beyond_the_range_to_its_ends() {
    assert_eq!(
        process_json_array("[18446744073709551615]"),
        ("[9223372036854775807]".to_string(), true)
    );
    assert_eq!(
        process_json_array("[9223372036854775808]"),
        ("[9223372036854775807]".to_string(), true)
    );
    assert_eq!(
        process_json_array("[123456789012345678901234567890]"),
        ("[9223372036854775807]".to_string(), true)
    );
    assert_eq!(process_json_array("[1e19]"), ("[9223372036854775807]".to_string(), true));
    assert_eq!(process_json_array("[-1e19]"), ("[-9223372036854775808]".to_string(), true));
    assert_eq!(
        process_json_array("[9223372036854775807]"),
        ("[9223372036854775807]".to_string(), true)
    );
    assert_eq!(
        process_json_array("[-9223372036854775808]"),
        ("[-9223372036854775808]".to_string(), true)
    );
}

#[test]
fn process_refuses_what_is_no_array_of_numbers() {
    for text in [
        "", "null", "true", "\"[1]\"", "{\"a\": [1]}", "[null]", "[[1]]", "[true]", "[{}]",
        "[1, 2, 3, 4", "[1 2 3 4]", "1, 2, 3, 4", "[1, 2, 3, 4] x", "[1e400]",
    ] {
        assert_eq!(process_json_array(text), ("[]".to_string(), false), "{text:?}");
    }
}

#[test]
fn process_rotates_a_4x4_json_table() {
    let (result, valid) =
        process_json_array("[1,2,3,4,5,6,7,8,9,10,11,12,13,14,15,16]");
    assert!(valid);
    assert_eq!(result, "[5,1,2,3,9,10,6,4,13,11,7,8,14,15,16,12]");
}

#[test]
fn document_with_a_table_is_rotated() {
    let document = Document::Array(vec![integer(1), double(2.0), integer(3), integer(4)]);
    assert_eq!(process_document(&document), ("[3,1,4,2]".to_string(), true));
}

#[test]
fn document_without_a_table_gives_the_empty_array() {
    let invalid = ("[]".to_string(), false);
    assert_eq!(process_document(&Document::Malformed), invalid);
    assert_eq!(process_document(&Document::NotArray), invalid);
    assert_eq!(process_document(&Document::Array(vec![])), invalid);
    assert_eq!(process_document(&Document::Array(vec![integer(1), integer(2)])), invalid);
    assert_eq!(process_document(&Document::Array(vec![Element::Other])), invalid);
    assert_eq!(process_document(&Document::Array(vec![double(0.5)])), invalid);
    assert_eq!(
        process_document(&Document::Array(vec![Element::Number {
            integer: None,
            double_bits: None
        }])),
        invalid
    );
}

#[test]
fn whole_number_reads_each_kind_of_element() {
    assert_eq!(whole_number(&integer(7)), Some(7));
    assert_eq!(whole_number(&integer(i64::MIN)), Some(i64::MIN));
    assert_eq!(whole_number(&double(7.0)), Some(7));
    assert_eq!(whole_number(&double(-7.0)), Some(-7));
    assert_eq!(whole_number(&double(7.5)), None);
    assert_eq!(whole_number(&Element::Other), None);
    assert_eq!(whole_number(&Element::Number { integer: None, double_bits: None }), None);
    // The integer value goes before the double.
    assert_eq!(
        whole_number(&Element::Number { integer: Some(3), double_bits: Some(0.5f64.to_bits()) }),
        Some(3)
    );
}

#[test]
fn whole_numbers_needs_every_element_whole() {
    assert_eq!(whole_numbers(&vec![]), Some(vec![]));
    assert_eq!(
        whole_numbers(&vec![integer(1), double(2.0), integer(-3)]),
        Some(vec![1, 2, -3])
    );
    assert_eq!(whole_numbers(&vec![integer(1), double(2.5), integer(-3)]), None);
    assert_eq!(whole_numbers(&vec![integer(1), Element::Other]), None);
}

#[test]
fn rotated_output_falls_back_to_the_empty_array() {
    assert_eq!(rotated_output(Some("[3,1,4,2]".to_string())), ("[3,1,4,2]".to_string(), true));
    assert_eq!(rotated_output(None), ("[]".to_string(), true));
}
