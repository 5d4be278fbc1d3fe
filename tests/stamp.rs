use compilador::stamp::{parse_stamp, push_stamp};

fn text(t: i64) -> String {
    let mut v = Vec::new();
    push_stamp(t, &mut v);
    v.into_iter().collect()
}

fn parse(x: &str) -> Option<i64> {
    let v: Vec<char> = x.chars().collect();
    parse_stamp(&v, 0, v.len())
}

#[test]
fn stamp_text() {
    assert_eq!(text(0), "0");
    assert_eq!(text(1700000000), "1700000000");
    assert_eq!(text(-42), "-42");
    assert_eq!(text(i64::MIN), "-9223372036854775808");
    assert_eq!(text(i64::MAX), "9223372036854775807");
}

#[test]
fn stamp_parse() {
    assert_eq!(parse("0"), Some(0));
    assert_eq!(parse("007"), Some(7));
    assert_eq!(parse("-42"), Some(-42));
    assert_eq!(parse(""), None);
    assert_eq!(parse("-"), None);
    assert_eq!(parse("12a"), None);
    assert_eq!(parse("+3"), None);
    assert_eq!(parse("99999999999999999999"), None);
    assert_eq!(parse("-9223372036854775809"), None);
}
