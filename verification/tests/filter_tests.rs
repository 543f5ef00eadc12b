use budget::{filter_entries, parse_filter, parse_usize, Date, Entry, Filter};

fn four_entries() -> Vec<Entry> {
    vec![
        Entry::new("2016-09-01".to_string(), "1000".to_string()),
        Entry::new("2016-10-01".to_string(), "1200".to_string()),
        Entry::new("2016-11-01".to_string(), "1100".to_string()),
        Entry::new("2016-12-01".to_string(), "1300".to_string()),
    ]
}

#[test]
fn returns_the_last_n_entries() {
    let entries = four_entries();

    let filter = parse_filter(Some("2"), None);
    let filtered = filter_entries(&entries, &filter);

    assert_eq!(filtered, entries[2..].to_vec());
}

#[test]
fn returns_entries_after_date() {
    let entries = four_entries();

    let filter = parse_filter(None, Some("2016-10-01"));
    let filtered = filter_entries(&entries, &filter);
    assert_eq!(filtered, entries[1..].to_vec());

    let filter_2 = parse_filter(None, Some("2016-10-15"));
    let filtered_2 = filter_entries(&entries, &filter_2);
    assert_eq!(filtered_2, entries[2..].to_vec());
}

#[test]
fn count_of_zero_selects_nothing() {
    let entries = four_entries();
    let filtered = filter_entries(&entries, &Filter::Count(0));
    assert_eq!(filtered.len(), 0);
}

#[test]
fn oversized_count_selects_everything() {
    let entries = four_entries();
    let filtered = filter_entries(&entries, &Filter::Count(10));
    assert_eq!(filtered, entries);
}

#[test]
fn unreadable_arguments_fall_back_to_everything() {
    assert_eq!(parse_filter(Some("abc"), None), Filter::All);
    assert_eq!(parse_filter(Some("-1"), None), Filter::All);
    assert_eq!(
        parse_filter(Some("123456789012345678901234567890"), None),
        Filter::All
    );
    assert_eq!(parse_filter(None, Some("10/15/16")), Filter::All);
    assert_eq!(parse_filter(None, None), Filter::All);
}

#[test]
fn count_argument_takes_precedence() {
    let f = parse_filter(Some("2"), Some("2016-10-01"));
    assert_eq!(f, Filter::Count(2));
}

#[test]
fn future_cutoff_selects_everything() {
    let entries = four_entries();
    let filter = parse_filter(None, Some("2017-01-01"));
    assert_eq!(filter, Filter::Since(Date { year: 2017, month: 1, day: 1 }));
    let filtered = filter_entries(&entries, &filter);
    assert_eq!(filtered, entries);
}

#[test]
fn past_cutoff_selects_everything() {
    let entries = four_entries();
    let filter = parse_filter(None, Some("2015-12-31"));
    let filtered = filter_entries(&entries, &filter);
    assert_eq!(filtered, entries);
}

#[test]
fn parse_usize_reads_plain_counts() {
    assert_eq!(parse_usize("0"), Some(0));
    assert_eq!(parse_usize("42"), Some(42));
    assert_eq!(parse_usize("+7"), Some(7));
    assert_eq!(parse_usize("007"), Some(7));
    assert_eq!(parse_usize(""), None);
    assert_eq!(parse_usize("+"), None);
    assert_eq!(parse_usize("4.2"), None);
    assert_eq!(parse_usize("-1"), None);
}
