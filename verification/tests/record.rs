use rotate_cli::record::{answer_record, header};

fn fields(texts: &[&str]) -> Vec<String> {
    texts.iter().map(|text| text.to_string()).collect()
}

#[test]
fn header_names_the_three_columns() {
    assert_eq!(header(), fields(&["id", "json", "is_valid"]));
}

#[test]
fn record_with_a_table_is_answered_with_its_rotation() {
    assert_eq!(
        answer_record(&fields(&["1", "[1, 2, 3, 4]"])),
        Some(fields(&["1", "[3,1,4,2]", "true"]))
    );
    assert_eq!(
        answer_record(&fields(&["row-9", "[40, 20, 90, 10]"])),
        Some(fields(&["row-9", "[90,40,10,20]", "true"]))
    );
}

#[test]
fn record_without_a_table_is_answered_as_invalid() {
    assert_eq!(
        answer_record(&fields(&["2", "[1, 2, 3]"])),
        Some(fields(&["2", "[]", "false"]))
    );
    assert_eq!(answer_record(&fields(&["3", "[]"])), Some(fields(&["3", "[]", "false"])));
    assert_eq!(answer_record(&fields(&["4", "oops"])), Some(fields(&["4", "[]", "false"])));
    assert_eq!(answer_record(&fields(&["", ""])), Some(fields(&["", "[]", "false"])));
}

#[test]
fn record_with_more_fields_is_answered_from_the_first_two() {
    assert_eq!(
        answer_record(&fields(&["5", "[7]", "extra", "more"])),
        Some(fields(&["5", "[7]", "true"]))
    );
}

#[test]
fn record_with_fewer_than_two_fields_is_skipped() {
    assert_eq!(answer_record(&fields(&[])), None);
    assert_eq!(answer_record(&fields(&["only-id"])), None);
    assert_eq!(answer_record(&fields(&["[1, 2, 3, 4]"])), None);
}
