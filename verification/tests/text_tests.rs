use grader::text::{
    i32_decimal, is_blank, lines_of, parse_i32, same_text, starts_with, ends_with, trim,
};

#[test]
fn trim_removes_white_space_at_both_ends() {
    assert_eq!(trim("  \tsecret-token \r\n"), "secret-token");
    assert_eq!(trim("   "), "");
    assert_eq!(trim("a b"), "a b");
    assert_eq!(trim("\u{3000}x\u{a0}"), "x");
}

#[test]
fn blank_texts() {
    assert!(is_blank(""));
    assert!(is_blank(" \n\t\r"));
    assert!(!is_blank(" x "));
    assert!(is_blank("\u{2003}"));
}

#[test]
fn decimal_of_i32() {
    assert_eq!(i32_decimal(0), "0");
    assert_eq!(i32_decimal(7), "7");
    assert_eq!(i32_decimal(-1), "-1");
    assert_eq!(i32_decimal(1234), "1234");
    assert_eq!(i32_decimal(i32::MIN), "-2147483648");
    assert_eq!(i32_decimal(i32::MAX), "2147483647");
}

#[test]
fn parse_i32_like_std() {
    for s in ["0", "12", "-5", "+7", "007", "2147483647", "-2147483648", "2147483648", "-2147483649",
        "", "-", "+", "1a", " 1", "99999999999999999999", "--1"]
    {
        assert_eq!(parse_i32(s), s.parse::<i32>().ok(), "input {:?}", s);
    }
}

#[test]
fn decimal_reads_back() {
    for n in [0, 1, -1, 42, -42, i32::MAX, i32::MIN, 1000000] {
        assert_eq!(parse_i32(&i32_decimal(n)), Some(n));
    }
}

#[test]
fn lines_like_std() {
    for s in ["", "a", "a\n", "a\nb", "a\r\nb\r\n", "a\n\nb", "\n", "x\r", "a\rb\nc", "\n\n"] {
        let ours = lines_of(s);
        let std: Vec<String> = s.lines().map(|l| l.to_string()).collect();
        assert_eq!(ours, std, "input {:?}", s);
    }
}

#[test]
fn prefixes_and_suffixes() {
    assert!(starts_with("exit:0", "exit:"));
    assert!(!starts_with("exi", "exit:"));
    assert!(ends_with("main.c", ".c"));
    assert!(!ends_with("main.cc", ".c"));
    assert!(same_text("abc", "abc"));
    assert!(!same_text("abc", "abd"));
}
