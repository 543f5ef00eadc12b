use budget::{Entry, Validation};

#[test]
fn validate_date_string() {
    let valid_date = "2016-09-01";
    let invalid_date = "9/1/16";
    let valid_amount = "1000";

    let valid_entry = Entry::new(valid_date.to_string(), valid_amount.to_string());

    let invalid_entry = Entry::new(invalid_date.to_string(), valid_amount.to_string());

    assert_eq!(valid_entry.validate(), Validation::Valid);
    assert_eq!(invalid_entry.validate(), Validation::DateParseError);
}

#[test]
fn validate_amount_string() {
    let valid_date = "2016-09-01";
    let valid_amount = "1000";
    let invalid_amount = "hello";

    let valid_entry = Entry::new(valid_date.to_string(), valid_amount.to_string());

    let invalid_entry = Entry::new(valid_date.to_string(), invalid_amount.to_string());

    assert_eq!(valid_entry.validate(), Validation::Valid);
    assert_eq!(invalid_entry.validate(), Validation::AmountParseError);
}

#[test]
fn entry_formats_with_newline() {
    let valid_date = "2016-09-01";
    let valid_amount = "1000";

    let valid_entry = Entry::new(valid_date.to_string(), valid_amount.to_string());

    assert_eq!(valid_entry.serialize(), "2016-09-01|1000\n");
}

#[test]
fn entry_from_line() {
    let line = "2016-01-01|1000.00".to_string();
    let entry = Entry::from_line(&line);

    assert_eq!(entry.validate(), Validation::Valid);
    assert_eq!(entry.date_string, "2016-01-01");
    assert_eq!(entry.amount_string, "1000.00");
}

#[test]
fn date_checked_before_amount() {
    let bad_both = Entry::new("9/1/16".to_string(), "hello".to_string());
    assert_eq!(bad_both.validate(), Validation::DateParseError);
}

#[test]
fn date_is_a_pattern_check() {
    // Any string of the shape four digits, dash, two digits, dash, two
    // digits passes the date check; validation then turns on the amount.
    let odd_date = Entry::new("0000-99-99".to_string(), "x".to_string());
    assert_eq!(odd_date.validate(), Validation::AmountParseError);
}

#[test]
fn amount_grammar_edges() {
    let date = "2016-09-01";
    for ok in ["0", "5.", ".5", "+5", "-0.50", "1000.00", "007", "-.5"] {
        let e = Entry::new(date.to_string(), ok.to_string());
        assert_eq!(e.validate(), Validation::Valid);
    }
    for bad in ["", "+", "-", ".", "+.", "5..5", "1.2.3", "1e5", " 1", "1 ", "10-0"] {
        let e = Entry::new(date.to_string(), bad.to_string());
        assert_eq!(e.validate(), Validation::AmountParseError);
    }
}

#[test]
fn serialize_then_parse_round_trips() {
    let entry = Entry::new("2016-09-01".to_string(), "-12.50".to_string());
    let line = entry.serialize();
    let back = Entry::from_line(&line);
    assert_eq!(back, entry);
}

#[test]
fn from_line_strips_line_endings_and_extra_fields() {
    let e1 = Entry::from_line("2016-01-01|10\r\n");
    assert_eq!(e1.date_string, "2016-01-01");
    assert_eq!(e1.amount_string, "10");

    let e2 = Entry::from_line("2016-01-01|10|junk");
    assert_eq!(e2.date_string, "2016-01-01");
    assert_eq!(e2.amount_string, "10");
}

#[test]
fn entry_date_fields() {
    let e = Entry::new("2016-09-01".to_string(), "1000".to_string());
    let d = e.date();
    assert_eq!(d.year, 2016);
    assert_eq!(d.month, 9);
    assert_eq!(d.day, 1);
}

#[test]
fn entry_amount_fields() {
    let e = Entry::new("2016-09-01".to_string(), "-12.50".to_string());
    let a = e.amount();
    assert!(a.neg);
    assert_eq!(a.mag, 1250);
    assert_eq!(a.scale, 2);
}
