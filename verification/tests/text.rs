use shakedown::text::{
    chars_le, chars_of, contains_chars, find_char, lower_chars, parse_u32, parses_u32, push_decimal,
    sysfs_u32, trimmed,
    remove_all_chars, remove_digits_chars, replace_char_chars, split_lines, split_whitespace,
    string_of, trim_chars,
};

fn s(v: &[char]) -> String {
    v.iter().collect()
}

#[test]
fn lowercase_through_std() {
    assert_eq!(s(&lower_chars(&chars_of("CPU Fan"))), "cpu fan");
    assert_eq!(s(&lower_chars(&chars_of("ÄÖ"))), "äö");
    assert_eq!(s(&lower_chars(&chars_of("GPU temp"))), "gpu temp");
}

#[test]
fn trimming_and_splitting() {
    assert_eq!(s(&trim_chars(&chars_of("  run x \t"))), "run x");
    assert_eq!(s(&trim_chars(&chars_of("\u{3000}x\u{a0}"))), "x");
    let ls = split_lines(&chars_of("a\r\nb\n\nc"));
    let ls: Vec<String> = ls.iter().map(|l| s(l)).collect();
    assert_eq!(ls, vec!["a", "b", "", "c"]);
    let ts = split_whitespace(&chars_of("  cpu   0 \t x"));
    let ts: Vec<String> = ts.iter().map(|t| s(t)).collect();
    assert_eq!(ts, vec!["cpu", "0", "x"]);
}

#[test]
fn numbers() {
    assert!(parses_u32(&chars_of("0")));
    assert!(parses_u32(&chars_of("+7")));
    assert!(parses_u32(&chars_of("4294967295")));
    assert!(!parses_u32(&chars_of("4294967296")));
    assert!(!parses_u32(&chars_of("")));
    assert!(!parses_u32(&chars_of("+")));
    assert!(!parses_u32(&chars_of("-1")));
    assert!(!parses_u32(&chars_of("1x")));
    let mut out = String::from("n=");
    push_decimal(&mut out, 0);
    push_decimal(&mut out, 1234567890123);
    assert_eq!(out, "n=01234567890123");
}

#[test]
fn searching_and_rewriting() {
    assert!(contains_chars(&chars_of("cpu fan"), &chars_of("fan")));
    assert!(!contains_chars(&chars_of("cpu"), &chars_of("fan")));
    assert_eq!(find_char(&chars_of("chip:key"), ':'), Some(4));
    assert_eq!(find_char(&chars_of("chip"), ':'), None);
    assert_eq!(s(&remove_all_chars(&chars_of("cpu temp temp"), &chars_of("temp"))), "cpu  ");
    assert_eq!(s(&replace_char_chars(&chars_of("a:b:c"), ':', ' ')), "a b c");
    assert_eq!(s(&remove_digits_chars(&chars_of("pwm12x3"))), "pwmx");
    assert_eq!(string_of(&chars_of("abc")), "abc");
    assert!(chars_le(&chars_of("ab"), &chars_of("abc")));
    assert!(chars_le(&chars_of("abc"), &chars_of("abd")));
    assert!(!chars_le(&chars_of("b"), &chars_of("abc")));
    assert!(chars_le(&chars_of(""), &chars_of("")));
}

#[test]
fn u32_values() {
    assert_eq!(parse_u32(&chars_of("1200")), Some(1200));
    assert_eq!(parse_u32(&chars_of("+0")), Some(0));
    assert_eq!(parse_u32(&chars_of("4294967295")), Some(u32::MAX));
    assert_eq!(parse_u32(&chars_of("4294967296")), None);
    assert_eq!(parse_u32(&chars_of(" 1")), None);
    assert_eq!(sysfs_u32("  2450\n"), Some(2450));
    assert_eq!(sysfs_u32("abc\n"), None);
    assert_eq!(sysfs_u32(""), None);
    assert_eq!(trimmed("\tnct6775 \n"), "nct6775");
    assert_eq!(trimmed("   "), "");
}
