use compilador::ledger::Ledger;

fn s(x: &str) -> String {
    x.to_string()
}

#[test]
fn empty_text_gives_empty_ledger() {
    let l = Ledger::parse("");
    assert_eq!(l.len(), 0);
    assert_eq!(l.render(), "");
}

#[test]
fn parse_reads_each_line() {
    let l = Ledger::parse("/a/x.tex;5\n/b/y.tex;1700000000\n");
    assert_eq!(l.len(), 2);
    assert_eq!(l.get(&s("/a/x.tex")), Some(5));
    assert_eq!(l.get(&s("/b/y.tex")), Some(1700000000));
    assert_eq!(l.get(&s("/c/z.tex")), None);
}

#[test]
fn parse_without_final_newline() {
    let l = Ledger::parse("/a/x.tex;12");
    assert_eq!(l.get(&s("/a/x.tex")), Some(12));
}

#[test]
fn parse_skips_malformed_lines() {
    let l = Ledger::parse("no delimiter here\n/a/x.tex;7\n/b;notanumber\n\n/c;\n");
    assert_eq!(l.len(), 1);
    assert_eq!(l.get(&s("/a/x.tex")), Some(7));
}

#[test]
fn parse_later_line_wins() {
    let l = Ledger::parse("/a;1\n/a;9\n");
    assert_eq!(l.len(), 1);
    assert_eq!(l.get(&s("/a")), Some(9));
}

#[test]
fn parse_splits_at_last_semicolon() {
    let l = Ledger::parse("/odd;name.tex;42\n");
    assert_eq!(l.get(&s("/odd;name.tex")), Some(42));
}

#[test]
fn parse_negative_and_extreme_stamps() {
    let l = Ledger::parse("/a;-15\n/b;9223372036854775807\n/c;-9223372036854775808\n/d;9223372036854775808\n");
    assert_eq!(l.get(&s("/a")), Some(-15));
    assert_eq!(l.get(&s("/b")), Some(i64::MAX));
    assert_eq!(l.get(&s("/c")), Some(i64::MIN));
    assert_eq!(l.get(&s("/d")), None);
}

#[test]
fn insert_overwrites() {
    let mut l = Ledger::new();
    l.insert(s("/a"), 3);
    l.insert(s("/b"), 4);
    l.insert(s("/a"), 8);
    assert_eq!(l.len(), 2);
    assert_eq!(l.get(&s("/a")), Some(8));
    assert_eq!(l.get(&s("/b")), Some(4));
}

#[test]
fn render_one_line_per_record() {
    let mut l = Ledger::new();
    l.insert(s("/a/x.tex"), 1700000000);
    l.insert(s("/b"), -3);
    l.insert(s("/c"), 0);
    assert_eq!(l.render(), "/a/x.tex;1700000000\n/b;-3\n/c;0\n");
}

#[test]
fn render_then_parse_round_trip() {
    let mut l = Ledger::new();
    l.insert(s("/a/x.tex"), 1700000000);
    l.insert(s("/b;c"), i64::MIN);
    l.insert(s("/d"), i64::MAX);
    let back = Ledger::parse(&l.render());
    assert_eq!(back.len(), 3);
    assert_eq!(back.get(&s("/a/x.tex")), Some(1700000000));
    assert_eq!(back.get(&s("/b;c")), Some(i64::MIN));
    assert_eq!(back.get(&s("/d")), Some(i64::MAX));
}
