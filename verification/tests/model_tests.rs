use reed::model::{LibraryEntryType, Month, ParseMonthError};

#[test]
fn month_from_number_accepts_the_whole_range() {
    let expected = [
        Month::Jan,
        Month::Feb,
        Month::Mar,
        Month::Apr,
        Month::May,
        Month::Jun,
        Month::Jul,
        Month::Aug,
        Month::Sep,
        Month::Oct,
        Month::Nov,
        Month::Dec,
    ];
    for n in 1..=12u32 {
        let m = Month::from_number(n).unwrap();
        assert_eq!(m, expected[(n - 1) as usize]);
    }
}

#[test]
fn month_from_number_rejects_out_of_bounds() {
    assert!(matches!(Month::from_number(0), Err(ParseMonthError::OutOfBounds(0))));
    assert!(matches!(Month::from_number(13), Err(ParseMonthError::OutOfBounds(13))));
}

#[test]
fn month_from_str_accepts_words_and_numbers() {
    assert_eq!(Month::from_str("jan").unwrap(), Month::Jan);
    assert_eq!(Month::from_str("JANUARY").unwrap(), Month::Jan);
    assert_eq!(Month::from_str("September").unwrap(), Month::Sep);
    assert_eq!(Month::from_str("3").unwrap(), Month::Mar);
    assert_eq!(Month::from_str("12").unwrap(), Month::Dec);
}

#[test]
fn month_from_str_distinguishes_its_errors() {
    assert!(matches!(Month::from_str("13"), Err(ParseMonthError::OutOfBounds(13))));
    assert!(matches!(Month::from_str("0"), Err(ParseMonthError::OutOfBounds(0))));
    assert!(matches!(Month::from_str("widget"), Err(ParseMonthError::Unknown(_))));
    assert!(matches!(Month::from_str(""), Err(ParseMonthError::Unknown(_))));
}

#[test]
fn month_names_render() {
    assert_eq!(Month::Jan.long_name(), "January");
    assert_eq!(Month::Dec.long_name(), "December");
    assert_eq!(Month::Aug.short_name(), "Aug");
}

#[test]
fn type_labels_render() {
    assert_eq!(LibraryEntryType::Article.type_label(), "Article");
    assert_eq!(LibraryEntryType::PHDThesis.type_label(), "PHDThesis");
    assert_eq!(LibraryEntryType::InProceedings.type_label(), "InProceedings");
}

#[test]
fn month_error_messages_describe_the_failure() {
    let e = Month::from_number(42).unwrap_err();
    assert_eq!(e.message(), "Failed to parse month: 42 out of bounds");
    let e = Month::from_str("blorb").unwrap_err();
    assert_eq!(e.message(), "Failed to parse month: blo unknown");
}
