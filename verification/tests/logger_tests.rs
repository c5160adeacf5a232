use betmasters::logger::{format_log_line, init};
use betmasters::text::replace_all_text;

#[test]
fn line_with_file_and_line_number() {
    assert_eq!(
        format_log_line("INFO", "betmasters", Some("src/main.rs"), Some(42), "ready"),
        "INFO|betmasters|src/main.rs:42: ready"
    );
}

#[test]
fn line_with_file_only() {
    assert_eq!(
        format_log_line("WARN", "t", Some("f.rs"), None, "m"),
        "WARN|t|f.rs: m"
    );
}

#[test]
fn line_without_file() {
    assert_eq!(format_log_line("ERROR", "t", None, Some(7), "boom"), "ERROR|t: boom");
}

#[test]
fn line_numbers_are_decimal() {
    assert_eq!(format_log_line("INFO", "t", Some("f"), Some(0), ""), "INFO|t|f:0: ");
    assert_eq!(
        format_log_line("INFO", "t", Some("f"), Some(4294967295), "x"),
        "INFO|t|f:4294967295: x"
    );
    assert_eq!(format_log_line("INFO", "t", Some("f"), Some(1090), "x"), "INFO|t|f:1090: x");
}

#[test]
fn logger_installs_once() {
    assert!(init());
    assert!(!init());
}

#[test]
fn replacement_is_left_to_right_and_non_overlapping() {
    assert_eq!(replace_all_text("aaaa", "aa", "b"), "bb");
    assert_eq!(replace_all_text("aaa", "aa", "b"), "ba");
    assert_eq!(replace_all_text("xyz", "q", "r"), "xyz");
    assert_eq!(replace_all_text("ab", "abc", "r"), "ab");
}
