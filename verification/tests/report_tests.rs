use budget::{entries_from_text, exit_code, filepath, prepare_append, show_report, Entry, Error};

#[test]
fn returns_default_filepath() {
    let default_path = "/home";
    let path = filepath(None, Some(default_path)).unwrap();

    assert_eq!(path, "/home/.budget");
}

#[test]
fn returns_provided_filepath() {
    let path = filepath(Some("/var/budget"), Some("/home")).unwrap();

    assert_eq!(path, "/var/budget");
}

#[test]
fn no_filepath_without_any_directory() {
    assert_eq!(filepath(None, None), None);
}

#[test]
fn prepare_append_serializes_valid_entries() {
    let e = Entry::new("2016-09-01".to_string(), "1000".to_string());
    assert_eq!(prepare_append(&e), Ok("2016-09-01|1000\n".to_string()));
}

#[test]
fn prepare_append_names_the_bad_date() {
    let e = Entry::new("9/1/16".to_string(), "1000".to_string());
    assert_eq!(
        prepare_append(&e),
        Err("Invalid Date 9/1/16; must format as yyyy-mm-dd".to_string())
    );
}

#[test]
fn prepare_append_names_the_bad_amount() {
    let e = Entry::new("2016-09-01".to_string(), "hello".to_string());
    assert_eq!(
        prepare_append(&e),
        Err("Invalid Amount hello; must be a float".to_string())
    );
}

#[test]
fn exit_codes_by_outcome() {
    assert_eq!(exit_code(Ok(true)), 0);
    assert_eq!(exit_code(Ok(false)), 1);
    assert_eq!(exit_code(Err(Error::InputError)), 1);
    assert_eq!(exit_code(Err(Error::ReadError)), 2);
    assert_eq!(exit_code(Err(Error::WriteError)), 3);
}

#[test]
fn show_report_renders_each_consecutive_delta() {
    let text = "2016-09-01|1000\n2016-10-01|1200\n2016-11-01|1100\n2016-12-01|1300\n";
    let entries = entries_from_text(text);

    let lines = show_report(&entries, None, None).unwrap();
    assert_eq!(
        lines,
        vec![
            "2016-09-01 -> 2016-10-01: 1000 -> 1200 | 200",
            "2016-10-01 -> 2016-11-01: 1200 -> 1100 | -100",
            "2016-11-01 -> 2016-12-01: 1100 -> 1300 | 200",
        ]
    );
}

#[test]
fn show_report_applies_the_count_filter() {
    let text = "2016-09-01|1000\n2016-10-01|1200\n2016-11-01|1100\n2016-12-01|1300\n";
    let entries = entries_from_text(text);

    let lines = show_report(&entries, Some("2"), None).unwrap();
    assert_eq!(lines, vec!["2016-11-01 -> 2016-12-01: 1100 -> 1300 | 200"]);
}

#[test]
fn show_report_applies_the_date_filter() {
    let text = "2016-09-01|1000\n2016-10-01|1200\n2016-11-01|1100\n2016-12-01|1300\n";
    let entries = entries_from_text(text);

    let lines = show_report(&entries, None, Some("2016-10-15")).unwrap();
    assert_eq!(lines, vec!["2016-11-01 -> 2016-12-01: 1100 -> 1300 | 200"]);
}

#[test]
fn show_report_rejects_bad_dates_under_a_date_filter() {
    let entries = vec![
        Entry::new("not a date".to_string(), "1".to_string()),
        Entry::new("2016-10-01".to_string(), "2".to_string()),
    ];
    assert_eq!(
        show_report(&entries, None, Some("2016-01-01")),
        Err(Error::InputError)
    );
    // Without the date filter the dates are never read.
    assert!(show_report(&entries, Some("2"), None).is_ok());
}

#[test]
fn show_report_rejects_unreadable_amounts_in_the_window() {
    let entries = vec![
        Entry::new("2016-09-01".to_string(), "1000".to_string()),
        Entry::new("2016-10-01".to_string(), "broken".to_string()),
    ];
    assert_eq!(show_report(&entries, None, None), Err(Error::InputError));

    // A window of one entry reads no amount at all.
    let lines = show_report(&entries, Some("1"), None).unwrap();
    assert_eq!(lines, Vec::<String>::new());
}
