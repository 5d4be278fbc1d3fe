use compilador::paths::{is_source_file, output_path};
use compilador::text::{chars_of, find_last, string_of};

#[test]
fn mirror_keeps_relative_structure() {
    assert_eq!(output_path("R", "R/a/b.tex"), Some("R/html/a/b.html".to_string()));
}

#[test]
fn mirror_with_trailing_slash_root() {
    assert_eq!(output_path("/src/", "/src/doc.tex"), Some("/src/html/doc.html".to_string()));
}

#[test]
fn mirror_deep_and_dotted_directories() {
    assert_eq!(
        output_path("/r", "/r/v1.2/notes/ch.1.tex"),
        Some("/r/html/v1.2/notes/ch.1.html".to_string())
    );
}

#[test]
fn mirror_outside_root_is_none() {
    assert_eq!(output_path("/r", "/other/a.tex"), None);
    assert_eq!(output_path("/r", "/rx/a.tex"), None);
}

#[test]
fn scan_filter_excludes_txt() {
    assert!(!is_source_file("R/notes.txt"));
}

#[test]
fn scan_filter_includes_deep_tex() {
    assert!(is_source_file("R/deep/nested/dir/x.tex"));
    assert!(is_source_file("x.tex"));
}

#[test]
fn scan_filter_is_exact() {
    assert!(!is_source_file("R/a.TEX"));
    assert!(!is_source_file("R/a.texx"));
    assert!(!is_source_file("R/.tex"));
    assert!(!is_source_file("R/d.tex/file"));
    assert!(!is_source_file("R/a.tex.bak"));
    assert!(!is_source_file("R/tex"));
}

#[test]
fn text_helpers() {
    let v = chars_of("a/b/c");
    assert_eq!(v.len(), 5);
    assert_eq!(find_last(&v, '/'), Some(3));
    assert_eq!(find_last(&v, '.'), None);
    assert_eq!(string_of(&v, 2, 5), "b/c");
}
