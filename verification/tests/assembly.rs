//! Tests for path handling and document assembly.
use manus::assemble::{
    get_lines_and_output_path, merge_tex, parse_filepath, FileSet, MergeError,
};

fn b(s: &str) -> Vec<u8> {
    s.as_bytes().to_vec()
}

fn lines(texts: &[&str]) -> Vec<Vec<u8>> {
    texts.iter().map(|t| b(t)).collect()
}

/// The three-file document tree the assembly tests run on: thirteen
/// plain lines in all once both directives are expanded.
fn case1() -> FileSet {
    let mut fs = FileSet::new();
    fs.add(
        b("tests/data/case1/main.tex"),
        lines(&[
            "\\documentclass{article}",
            "\\begin{document}",
            "A premise stands at the start.",
            "\\input{chapter1}",
            "\\input{chapters/chapter2.tex}",
            "I conclude that the premise must be true",
            "\\end{document}",
        ]),
    );
    fs.add(
        b("tests/data/case1/chapter1.tex"),
        lines(&[
            "\\section{First}",
            "One line of argument.",
            "Another line of argument.",
            "A third line of argument.",
        ]),
    );
    fs.add(
        b("tests/data/case1/chapters/chapter2.tex"),
        lines(&[
            "\\section{Second}",
            "More argument.",
            "Still more argument.",
            "The final stretch of argument.",
        ]),
    );
    fs
}

#[test]
fn test_parse_filepath() {
    parse_filepath(&b("tests/data/case1/main.tex"), Some(&b("tex"))).expect("This should exist");

    parse_filepath(&b("tests/data/case1/main.tex"), Some(&b("text"))).expect_err(
        "This should fail",
    );

    parse_filepath(&b("tests/data/case1/main"), Some(&b("tex"))).expect("This should pass");

    parse_filepath(&b("Cargo.toml"), Some(&b("toml"))).expect("This should pass");
}

#[test]
fn test_merge_tex() {
    let fs = case1();
    let testpath = b("tests/data/case1/main.tex");

    let merged = merge_tex(&fs, &testpath).unwrap();

    assert_eq!(merged.len(), 13);
}

#[test]
fn test_merge_order() {
    let fs = case1();
    let merged = merge_tex(&fs, &b("tests/data/case1/main.tex")).unwrap();

    // The directive lines are dropped; the included lines stand in
    // their place, in depth-first order.
    assert_eq!(merged[2], b("A premise stands at the start."));
    assert_eq!(merged[3], b("\\section{First}"));
    assert_eq!(merged[7], b("\\section{Second}"));
    assert_eq!(merged[11], b("I conclude that the premise must be true"));
    assert_eq!(merged[12], b("\\end{document}"));
}

#[test]
fn test_merge_missing_file() {
    let mut fs = FileSet::new();
    fs.add(b("main.tex"), lines(&["\\input{intro}"]));
    match merge_tex(&fs, &b("main.tex")) {
        Err(MergeError::Missing(given, relative)) => {
            assert_eq!(given, b("intro.tex"));
            assert_eq!(relative, b("intro.tex"));
        },
        other => panic!("expected a missing-file report, got {:?}", other.is_ok()),
    }
}

#[test]
fn test_merge_unclosed_directive() {
    let mut fs = FileSet::new();
    fs.add(b("main.tex"), lines(&["fine", "\\input{intro"]));
    match merge_tex(&fs, &b("main.tex")) {
        Err(MergeError::Failed(m)) => {
            assert_eq!(m, b("Unclosed delimiter at line 1"));
        },
        other => panic!("expected a failure, got {:?}", other.is_ok()),
    }
}

#[test]
fn test_merge_cycle_reported() {
    let mut fs = FileSet::new();
    fs.add(b("a.tex"), lines(&["\\input{b.tex}"]));
    fs.add(b("b.tex"), lines(&["\\input{a.tex}"]));
    match merge_tex(&fs, &b("a.tex")) {
        Err(MergeError::Failed(m)) => {
            let msg = String::from_utf8_lossy(&m).into_owned();
            assert!(msg.contains("depth"), "{}", msg);
        },
        other => panic!("expected a failure, got {:?}", other.is_ok()),
    }
}

#[test]
fn test_lines_and_output_path() {
    let fs = case1();
    let (merged, out) =
        get_lines_and_output_path(&b("tests/data/case1/main.tex"), None, &fs, None).unwrap();
    assert_eq!(merged.len(), 13);
    assert_eq!(out, b("main.pdf"));

    let (piped, out2) = get_lines_and_output_path(
        &b(" - "),
        Some(&b("custom.pdf")),
        &fs,
        Some(lines(&["one", "two"])),
    )
    .unwrap();
    assert_eq!(piped.len(), 2);
    assert_eq!(out2, b("custom.pdf"));
}
