use lib::text::{bool_string, decimal_text, parse_i32, read_i32, signed_text, split_on_space, strip_newlines, trim, trim_end};

#[test]
fn decimal_writing() {
    assert_eq!(decimal_text(0), "0");
    assert_eq!(decimal_text(7), "7");
    assert_eq!(decimal_text(1234567890), "1234567890");
    assert_eq!(decimal_text(u64::MAX), "18446744073709551615");
}

#[test]
fn signed_writing() {
    assert_eq!(signed_text(-42), "-42");
    assert_eq!(signed_text(0), "0");
    assert_eq!(signed_text(i64::MIN), "-9223372036854775808");
    assert_eq!(signed_text(i64::MAX), "9223372036854775807");
}

#[test]
fn trimming_both_ends() {
    assert_eq!(trim("  42\n"), "42");
    assert_eq!(trim("\t a b \r\n"), "a b");
    assert_eq!(trim("   "), "");
    assert_eq!(trim(""), "");
    assert_eq!(trim("\u{3000}x\u{a0}"), "x");
    assert_eq!(trim("x"), "x");
}

#[test]
fn trimming_the_end() {
    assert_eq!(trim_end("  .0. \n"), "  .0.");
    assert_eq!(trim_end("A--B\r\n"), "A--B");
    assert_eq!(trim_end("\n\n"), "");
}

#[test]
fn stripping_line_feeds() {
    assert_eq!(strip_newlines("UMNE TALMAR\n"), "UMNE TALMAR");
    assert_eq!(strip_newlines("\n\nab \n"), "ab ");
    assert_eq!(strip_newlines(" x\r\n"), " x\r");
    assert_eq!(strip_newlines("\n"), "");
}

#[test]
fn splitting_on_spaces() {
    assert_eq!(split_on_space("a  b"), vec!["a", "", "b"]);
    assert_eq!(split_on_space("12 -7 3\n"), vec!["12", "-7", "3\n"]);
    assert_eq!(split_on_space(""), vec![""]);
    assert_eq!(split_on_space(" "), vec!["", ""]);
}

#[test]
fn parsing_integers() {
    assert_eq!(parse_i32("0"), Some(0));
    assert_eq!(parse_i32("+5"), Some(5));
    assert_eq!(parse_i32("-17"), Some(-17));
    assert_eq!(parse_i32("2147483647"), Some(i32::MAX));
    assert_eq!(parse_i32("-2147483648"), Some(i32::MIN));
    assert_eq!(parse_i32("2147483648"), None);
    assert_eq!(parse_i32("-2147483649"), None);
    assert_eq!(parse_i32("99999999999999999999"), None);
    assert_eq!(parse_i32(""), None);
    assert_eq!(parse_i32("-"), None);
    assert_eq!(parse_i32("+"), None);
    assert_eq!(parse_i32("1a"), None);
    assert_eq!(parse_i32(" 1"), None);
    assert_eq!(parse_i32("007"), Some(7));
}

#[test]
fn reading_fields() {
    assert_eq!(read_i32(" 42\n"), Some(42));
    assert_eq!(read_i32("-3\r\n"), Some(-3));
    assert_eq!(read_i32("\n"), None);
    for v in [0, 1, -1, 123456, i32::MIN, i32::MAX] {
        assert_eq!(read_i32(&format!("{}\n", v)), Some(v));
        assert_eq!(parse_i32(&v.to_string()), v.to_string().parse::<i32>().ok());
    }
}

#[test]
fn boolean_writing() {
    assert_eq!(bool_string(true), "true");
    assert_eq!(bool_string(false), "false");
}

#[test]
fn written_numbers_read_back() {
    for v in [0, 7, -7, 10, -10, 2023, i32::MIN, i32::MAX, i32::MIN + 1] {
        assert_eq!(parse_i32(&signed_text(v as i64)), Some(v));
    }
}
