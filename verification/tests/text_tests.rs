use forge::paths::{file_extension, join_path};
use forge::table::print_rows;
use forge::text::{blank, chars_of, compare_text, decimal_string, parse_bounded, trim, TextOrder};

#[test]
fn blank_means_only_whitespace() {
    assert!(blank(""));
    assert!(blank(" \t\n\r\u{85}\u{a0}\u{2009}\u{3000}"));
    assert!(!blank(" x "));
    assert!(!blank("\u{200b}"));
}

#[test]
fn trim_both_ends() {
    assert_eq!(trim("  a b \n"), "a b");
    assert_eq!(trim("\u{3000}x\u{2028}"), "x");
    assert_eq!(trim("   "), "");
}

#[test]
fn decimal_rendering() {
    assert_eq!(decimal_string(0), "0");
    assert_eq!(decimal_string(22), "22");
    assert_eq!(decimal_string(u64::MAX), "18446744073709551615");
}

#[test]
fn bounded_parsing() {
    let p = |s: &str, max: u64| parse_bounded(&chars_of(s), max);
    assert_eq!(p("42", u64::MAX), Some(42));
    assert_eq!(p("+7", 10), Some(7));
    assert_eq!(p("007", 10), Some(7));
    assert_eq!(p("11", 10), None);
    assert_eq!(p("", 10), None);
    assert_eq!(p("+", 10), None);
    assert_eq!(p("-1", 10), None);
    assert_eq!(p("1 ", 10), None);
    assert_eq!(p("18446744073709551616", u64::MAX), None);
}

#[test]
fn text_order_is_code_point_order() {
    let c = |a: &str, b: &str| compare_text(&chars_of(a), &chars_of(b));
    assert!(matches!(c("a", "b"), TextOrder::Before));
    assert!(matches!(c("ab", "a"), TextOrder::After));
    assert!(matches!(c("Z", "a"), TextOrder::Before));
    assert!(matches!(c("é", "z"), TextOrder::After));
    assert!(matches!(c("same", "same"), TextOrder::Same));
    assert!(matches!(c("", "x"), TextOrder::Before));
}

#[test]
fn joining_paths() {
    assert_eq!(join_path("/home/u", ".forge"), "/home/u/.forge");
    assert_eq!(join_path("/home/u/", ".forge"), "/home/u/.forge");
    assert_eq!(join_path("", "x"), "x");
    assert_eq!(join_path("/a", "/b"), "/b");
    assert_eq!(join_path("/a", ""), "/a/");
}

#[test]
fn file_extensions() {
    assert_eq!(file_extension("a/b.tar.gz").as_deref(), Some("gz"));
    assert_eq!(file_extension(".bashrc"), None);
    assert_eq!(file_extension("..x.y").as_deref(), Some("y"));
    assert_eq!(file_extension("a/b/"), None);
    assert_eq!(file_extension("/"), None);
    assert_eq!(file_extension("."), None);
}

#[test]
fn ascii_rows_line_up() {
    let rows = vec![
        vec!["NAME".to_string(), "HOST".to_string(), "X".to_string()],
        vec!["a-long-name".to_string(), "h".to_string(), "".to_string()],
        vec!["b".to_string(), "host.example".to_string(), "yes".to_string()],
    ];
    let text = print_rows(&rows);
    let widths: Vec<usize> = text.lines().map(|l| l.len()).collect();
    assert_eq!(widths, vec![30, 30, 30]);
}
