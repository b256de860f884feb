use liars_table::text::replace;
use liars_table::text::trim;
use liars_table::text::u8_to_string;

#[test]
fn main_test_main_modules_exist() {
    // The library's modules are exercised by the suites alongside this one.
}

#[test]
fn main_new_test_main_modules_exist() {
    // The library's modules are exercised by the suites alongside this one.
}

#[test]
fn test_trim_both_ends() {
    assert_eq!(trim("  hello  "), "hello");
    assert_eq!(trim("\t\nhi"), "hi");
    assert_eq!(trim("ok"), "ok");
    assert_eq!(trim("   "), "");
    assert_eq!(trim(""), "");
    // The ideographic space counts as whitespace too.
    assert_eq!(trim("\u{3000}名前\u{3000}"), "名前");
}

#[test]
fn test_replace_left_to_right() {
    assert_eq!(replace("aaa", "aa", "b"), "ba");
    assert_eq!(replace("Hello {name}", "{name}", "Alice"), "Hello Alice");
    assert_eq!(replace("none here", "{x}", "y"), "none here");
    assert_eq!(replace("xx", "x", "xy"), "xyxy");
}

#[test]
fn test_u8_rendering() {
    assert_eq!(u8_to_string(0), "0");
    assert_eq!(u8_to_string(7), "7");
    assert_eq!(u8_to_string(10), "10");
    assert_eq!(u8_to_string(99), "99");
    assert_eq!(u8_to_string(100), "100");
    assert_eq!(u8_to_string(255), "255");
}
