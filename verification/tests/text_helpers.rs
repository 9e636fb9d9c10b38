use tldr_ollama::text::{
    chars_of, join_texts, join_url, parse_i64_text, parse_u32_text, parse_u64_text,
    push_decimal, text_contains, text_equals, trim_range,
};

#[test]
fn decimal_spelling() {
    for n in [0usize, 5, 10, 99, 100, 4096, usize::MAX] {
        let mut s = String::from("x");
        push_decimal(&mut s, n);
        assert_eq!(s, format!("x{}", n));
    }
}

#[test]
fn trimming() {
    let c: Vec<char> = " \t a b \u{3000}\r".chars().collect();
    let (a, b) = trim_range(&c, 0, c.len());
    assert_eq!(c[a..b].iter().collect::<String>(), "a b");
    let (a, b) = trim_range(&c, 1, 2);
    assert_eq!(a, b);
}

#[test]
fn unsigned_parsing() {
    assert_eq!(parse_u32_text("42"), Some(42));
    assert_eq!(parse_u32_text("+42"), Some(42));
    assert_eq!(parse_u32_text("4294967295"), Some(u32::MAX));
    assert_eq!(parse_u32_text("4294967296"), None);
    assert_eq!(parse_u32_text(""), None);
    assert_eq!(parse_u32_text(" 1"), None);
    assert_eq!(parse_u64_text("18446744073709551615"), Some(u64::MAX));
    assert_eq!(parse_u64_text("18446744073709551616"), None);
    assert_eq!(parse_u64_text("0007"), Some(7));
}

#[test]
fn signed_parsing() {
    assert_eq!(parse_i64_text("-5"), Some(-5));
    assert_eq!(parse_i64_text("+5"), Some(5));
    assert_eq!(parse_i64_text("-9223372036854775808"), Some(i64::MIN));
    assert_eq!(parse_i64_text("-9223372036854775809"), None);
    assert_eq!(parse_i64_text("9223372036854775807"), Some(i64::MAX));
    assert_eq!(parse_i64_text("9223372036854775808"), None);
    assert_eq!(parse_i64_text("-"), None);
    assert_eq!(parse_i64_text("-+1"), None);
    assert_eq!(parse_i64_text("1.5"), None);
    for s in ["12", "-0", "+7", "x", "", "-"] {
        assert_eq!(parse_i64_text(s), s.parse::<i64>().ok());
    }
}

#[test]
fn chars_and_equality() {
    assert_eq!(chars_of("hé!"), vec!['h', 'é', '!']);
    assert!(text_equals("length", "length"));
    assert!(!text_equals("length", "lengths"));
    assert!(!text_equals("stop", "Stop"));
}

#[test]
fn containment() {
    assert!(text_contains("model 'x' not found", "not found"));
    assert!(!text_contains("not fund", "not found"));
    assert!(text_contains("abc", ""));
    assert!(!text_contains("", "a"));
}

#[test]
fn joining() {
    let v = vec!["a".to_string(), "b".to_string(), "c".to_string()];
    assert_eq!(join_texts(&v, ", "), "a, b, c");
    assert_eq!(join_texts(&Vec::new(), ", "), "");
    assert_eq!(join_url("http://h:1///", "/api/chat"), "http://h:1/api/chat");
    assert_eq!(join_url("http://h:1", "/api/tags"), "http://h:1/api/tags");
}
