use budget::{entries_from_text, Entry};

#[test]
fn builds_entries_from_file() {
    let text = "2016-01-01|1000.00\n2016-02-01|2000.00\n";
    let entries = entries_from_text(text);

    let expected = vec![
        Entry::new("2016-01-01".to_string(), "1000.00".to_string()),
        Entry::new("2016-02-01".to_string(), "2000.00".to_string()),
    ];

    assert_eq!(entries, expected);
}

#[test]
fn write_entry_to_file() {
    // The prior ledger, then one appended entry, read back: the existing
    // lines stay and the new line trails.
    let existing_lines = vec!["2016-01-01|1000.00", "2016-02-01|2000.00"];
    let mut text = String::new();
    for l in &existing_lines {
        text.push_str(l);
        text.push('\n');
    }

    let valid_entry = Entry::new("2016-09-01".to_string(), "1000".to_string());
    text.push_str(&valid_entry.serialize());

    let lines = text.lines().collect::<Vec<&str>>();
    let mut new_lines = existing_lines.clone();
    new_lines.push("2016-09-01|1000");
    assert_eq!(lines, new_lines);

    let entries = entries_from_text(&text);
    assert_eq!(entries.len(), 3);
    assert_eq!(entries[2], valid_entry);
}

#[test]
fn read_all_is_idempotent() {
    let text = "2016-01-01|1000.00\n2016-02-01|2000.00\nnoise\n\n2016-03-01|1500\n";
    let first = entries_from_text(text);
    let second = entries_from_text(text);
    assert_eq!(first, second);
}

#[test]
fn malformed_and_empty_lines_are_skipped() {
    let text = "2016-01-01|1000.00\nno delimiter here\n\n2016-02-01|2000.00\n";
    let entries = entries_from_text(text);
    assert_eq!(
        entries,
        vec![
            Entry::new("2016-01-01".to_string(), "1000.00".to_string()),
            Entry::new("2016-02-01".to_string(), "2000.00".to_string()),
        ]
    );
}

#[test]
fn reads_windows_line_endings_and_missing_final_newline() {
    let text = "2016-01-01|1000.00\r\n2016-02-01|2000.00";
    let entries = entries_from_text(text);
    assert_eq!(
        entries,
        vec![
            Entry::new("2016-01-01".to_string(), "1000.00".to_string()),
            Entry::new("2016-02-01".to_string(), "2000.00".to_string()),
        ]
    );
}

#[test]
fn empty_text_reads_as_no_entries() {
    assert_eq!(entries_from_text(""), Vec::<Entry>::new());
}

#[test]
fn append_extends_the_read_sequence_by_one() {
    let prior = "2016-01-01|1000.00\n2016-02-01|2000.00\n";
    let before = entries_from_text(prior);

    let appended = Entry::new("2016-09-01".to_string(), "1000".to_string());
    let mut text = prior.to_string();
    text.push_str(&appended.serialize());

    let after = entries_from_text(&text);
    assert_eq!(after.len(), before.len() + 1);
    assert_eq!(after[..before.len()].to_vec(), before);
    assert_eq!(after[after.len() - 1], appended);
}
