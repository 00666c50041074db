use mapgen::journal::{format_entry, format_entry_at, is_raw, same_text};

#[test]
fn stamped_entry_of_one_line() {
    assert_eq!(format_entry("2024-01-02 03:04:05.678", "hello", false), "[2024-01-02 03:04:05.678] hello\n");
}

#[test]
fn stamped_entry_indents_further_lines() {
    assert_eq!(format_entry("T", "a\nb\nc", false), "[T] a\n - b\n - c\n");
}

#[test]
fn stamped_entry_of_empty_message() {
    assert_eq!(format_entry("T", "", false), "[T] \n");
}

#[test]
fn stamped_entry_keeps_a_trailing_empty_line() {
    assert_eq!(format_entry("T", "a\n", false), "[T] a\n - \n");
    assert_eq!(format_entry("T", "\n\n", false), "[T] \n - \n - \n");
}

#[test]
fn stamped_entry_matches_line_by_line_writing() {
    let data = "first\nsecond line\n\nfourth é ü";
    let mut expected = String::new();
    let mut lines = data.split('\n');
    if let Some(line) = lines.next() {
        expected.push_str(&format!("[{}] {}\n", "S", line));
    }
    for line in lines {
        expected.push_str(&format!(" - {}\n", line));
    }
    assert_eq!(format_entry("S", data, false), expected);
}

#[test]
fn raw_entry_is_the_message() {
    assert_eq!(format_entry("T", "a\nb", true), "a\nb");
    assert_eq!(format_entry("T", "", true), "");
}

#[test]
fn raw_only_when_the_flag_reads_false() {
    assert!(is_raw(Some("false")));
    assert!(!is_raw(Some("true")));
    assert!(!is_raw(Some("")));
    assert!(!is_raw(Some("False")));
    assert!(!is_raw(Some("false ")));
    assert!(!is_raw(None));
}

#[test]
fn same_text_compares_characters() {
    assert!(same_text("", ""));
    assert!(same_text("añb", "añb"));
    assert!(!same_text("ab", "abc"));
    assert!(!same_text("abc", "abd"));
}

#[test]
fn entry_at_an_instant_is_stamped_with_date_time_and_milliseconds() {
    assert_eq!(
        format_entry_at(1431648000, 0, "up", false),
        Some("[2015-05-15 00:00:00.000] up\n".to_string())
    );
    assert_eq!(
        format_entry_at(0, 123_456_789, "x\ny", false),
        Some("[1970-01-01 00:00:00.123] x\n - y\n".to_string())
    );
    assert_eq!(
        format_entry_at(86_399, 999_999_999, "", false),
        Some("[1970-01-01 23:59:59.999] \n".to_string())
    );
}

#[test]
fn entry_at_an_instant_agrees_with_chrono() {
    let instant = chrono::DateTime::from_timestamp(1_700_000_000, 5_000_000).unwrap();
    let stamp = instant.format("%F %T%.3f").to_string();
    assert_eq!(
        format_entry_at(1_700_000_000, 5_000_000, "m", false),
        Some(format!("[{}] m\n", stamp))
    );
}

#[test]
fn entry_at_no_instant() {
    assert_eq!(format_entry_at(i64::MAX, 0, "m", false), None);
    assert_eq!(format_entry_at(0, 3_000_000_000, "m", false), None);
    assert_eq!(format_entry_at(i64::MAX, 0, "m", true), Some("m".to_string()));
}
