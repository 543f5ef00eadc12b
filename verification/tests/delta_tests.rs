use budget::{delta_by_line, Delta, Entry};

#[test]
fn delta_calculates_difference_between_entries() {
    let entry_1 = Entry::new("2016-10-01".to_string(), "1200".to_string());
    let entry_2 = Entry::new("2016-11-01".to_string(), "1100".to_string());

    let delta = Delta::new(&entry_1, &entry_2);

    assert_eq!(delta.delta(), Some("-100".to_string()));
}

#[test]
fn delta_formats_for_display() {
    let e1 = Entry::new("2016-01-01".to_string(), "1000.00".to_string());
    let e2 = Entry::new("2016-02-01".to_string(), "2000.00".to_string());
    let delta = Delta::new(&e1, &e2);

    assert_eq!(
        delta.display(),
        Some("2016-01-01 -> 2016-02-01: 1000.00 -> 2000.00 | 1000".to_string())
    );
}

#[test]
fn returns_differences_for_each_entry() {
    let entries = vec![
        Entry::new("2016-09-01".to_string(), "1000".to_string()),
        Entry::new("2016-10-01".to_string(), "1200".to_string()),
        Entry::new("2016-11-01".to_string(), "1100".to_string()),
        Entry::new("2016-12-01".to_string(), "1300".to_string()),
    ];

    let differences = delta_by_line(&entries)
        .iter()
        .map(|d| d.delta().unwrap())
        .collect::<Vec<String>>();

    assert_eq!(differences, vec!["200", "-100", "200"]);
}

#[test]
fn delta_count_law_on_short_sequences() {
    let empty: Vec<Entry> = vec![];
    assert_eq!(delta_by_line(&empty).len(), 0);

    let one = vec![Entry::new("2016-09-01".to_string(), "1000".to_string())];
    assert_eq!(delta_by_line(&one).len(), 0);

    let four = vec![
        Entry::new("2016-09-01".to_string(), "1000".to_string()),
        Entry::new("2016-10-01".to_string(), "1200".to_string()),
        Entry::new("2016-11-01".to_string(), "1100".to_string()),
        Entry::new("2016-12-01".to_string(), "1300".to_string()),
    ];
    assert_eq!(delta_by_line(&four).len(), 3);
}

#[test]
fn delta_is_exact_on_fractions() {
    let e1 = Entry::new("2016-01-01".to_string(), "1000.00".to_string());
    let e2 = Entry::new("2016-02-01".to_string(), "1000.50".to_string());
    let d = Delta::new(&e1, &e2);
    assert_eq!(d.delta(), Some("0.5".to_string()));

    let back = Delta::new(&e2, &e1);
    assert_eq!(back.delta(), Some("-0.5".to_string()));
}

#[test]
fn delta_of_equal_amounts_is_unsigned_zero() {
    let e1 = Entry::new("2016-01-01".to_string(), "-12.30".to_string());
    let e2 = Entry::new("2016-02-01".to_string(), "-12.3".to_string());
    let d = Delta::new(&e1, &e2);
    assert_eq!(d.delta(), Some("0".to_string()));
}

#[test]
fn delta_aligns_scales() {
    let e1 = Entry::new("2016-01-01".to_string(), "1.25".to_string());
    let e2 = Entry::new("2016-02-01".to_string(), "2".to_string());
    let d = Delta::new(&e1, &e2);
    assert_eq!(d.delta(), Some("0.75".to_string()));
}

#[test]
fn delta_rejects_amounts_beyond_precision() {
    // Nineteen digits exceed the fixed precision: the amount is valid but
    // the delta cannot be computed.
    let e1 = Entry::new("2016-01-01".to_string(), "1000000000000000000".to_string());
    let e2 = Entry::new("2016-02-01".to_string(), "1".to_string());
    let d = Delta::new(&e1, &e2);
    assert_eq!(d.delta(), None);
    assert_eq!(d.display(), None);
}
