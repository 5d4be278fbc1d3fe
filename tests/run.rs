use compilador::ledger::Ledger;
use compilador::paths::output_path;
use compilador::run::{visit, visit_now, Decision};
use compilador::scan::{EntryKind, Scan};
use compilador::stale::is_stale;

fn s(x: &str) -> String {
    x.to_string()
}

#[test]
fn stale_without_record() {
    let l = Ledger::new();
    assert!(is_stale(&l, &s("/r/a.tex"), 100));
}

#[test]
fn fresh_when_record_is_later() {
    let mut l = Ledger::new();
    l.insert(s("/r/a.tex"), 200);
    assert!(!is_stale(&l, &s("/r/a.tex"), 100));
    assert!(!is_stale(&l, &s("/r/a.tex"), 200));
}

#[test]
fn stale_when_touched_after_record() {
    let mut l = Ledger::new();
    l.insert(s("/r/a.tex"), 200);
    assert!(is_stale(&l, &s("/r/a.tex"), 201));
}

#[test]
fn visit_skips_vanished_file() {
    let mut l = Ledger::new();
    assert_eq!(visit(&mut l, s("/r/gone.tex"), None, 50), Decision::Skip);
    assert_eq!(l.len(), 0);
}

#[test]
fn visit_records_now_even_when_fresh() {
    let mut l = Ledger::new();
    l.insert(s("/r/a.tex"), 200);
    assert_eq!(visit(&mut l, s("/r/a.tex"), Some(100), 300), Decision::Fresh);
    assert_eq!(l.get(&s("/r/a.tex")), Some(300));
}

#[test]
fn visit_now_records_a_recent_time() {
    let mut l = Ledger::new();
    assert_eq!(visit_now(&mut l, s("/r/a.tex"), Some(0)), Decision::Compile);
    let t = l.get(&s("/r/a.tex")).unwrap();
    assert!(t > 1_600_000_000);
}

#[test]
fn scan_walks_a_tree() {
    let mut sc = Scan::new(s("/r"), true);
    let mut found_dirs = 0;
    while let Some(d) = sc.next_dir() {
        found_dirs += 1;
        if d == "/r" {
            sc.visit(s("/r/notes.txt"), EntryKind::File);
            sc.visit(s("/r/top.tex"), EntryKind::File);
            sc.visit(s("/r/deep"), EntryKind::Dir);
            sc.visit(s("/r/link"), EntryKind::Other);
        } else if d == "/r/deep" {
            sc.visit(s("/r/deep/nested"), EntryKind::Dir);
        } else if d == "/r/deep/nested" {
            sc.visit(s("/r/deep/nested/x.tex"), EntryKind::File);
        }
    }
    assert!(sc.is_done());
    assert_eq!(found_dirs, 3);
    let mut found = sc.into_found();
    found.sort();
    assert_eq!(found, vec![s("/r/deep/nested/x.tex"), s("/r/top.tex")]);
}

#[test]
fn scan_of_missing_root_is_empty() {
    let mut sc = Scan::new(s("/nope"), false);
    assert!(sc.is_done());
    assert_eq!(sc.next_dir(), None);
    assert!(sc.into_found().is_empty());
}

#[test]
fn empty_root_writes_empty_ledger() {
    let ledger = Ledger::parse("");
    let mut sc = Scan::new(s("/r"), true);
    while let Some(_d) = sc.next_dir() {}
    assert!(sc.into_found().is_empty());
    assert_eq!(ledger.render(), "");
}

#[test]
fn new_file_is_compiled_once_and_recorded() {
    let mut ledger = Ledger::parse("");
    let mut sc = Scan::new(s("/r"), true);
    while let Some(_d) = sc.next_dir() {
        sc.visit(s("/r/doc.tex"), EntryKind::File);
    }
    let files = sc.into_found();
    let mut compiled = Vec::new();
    for f in files {
        if visit(&mut ledger, f.clone(), Some(1_700_000_000), 1_700_000_010) == Decision::Compile {
            compiled.push(output_path("/r", &f).unwrap());
        }
    }
    assert_eq!(compiled, vec![s("/r/html/doc.html")]);
    assert_eq!(ledger.len(), 1);
    assert_eq!(ledger.get(&s("/r/doc.tex")), Some(1_700_000_010));
    assert_eq!(ledger.render(), "/r/doc.tex;1700000010\n");
}

#[test]
fn second_run_without_changes_compiles_nothing() {
    let saved = s("/r/doc.tex;1700000010\n");
    let mut ledger = Ledger::parse(&saved);
    let d = visit(&mut ledger, s("/r/doc.tex"), Some(1_700_000_000), 1_700_000_020);
    assert_eq!(d, Decision::Fresh);
    assert_eq!(ledger.get(&s("/r/doc.tex")), Some(1_700_000_020));
}

#[test]
fn two_runs_in_a_row() {
    let mut first = Ledger::parse("");
    let files = [s("/r/a.tex"), s("/r/sub/b.tex")];
    for f in files.iter() {
        assert_eq!(visit(&mut first, f.clone(), Some(90), 100), Decision::Compile);
    }
    let mut second = Ledger::parse(&first.render());
    for f in files.iter() {
        assert_eq!(visit(&mut second, f.clone(), Some(90), 101), Decision::Fresh);
    }
}
