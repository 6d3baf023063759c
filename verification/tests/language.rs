use sloccrunch::language::{lookup_error_message, LookupError};
use sloccrunch::language::{
    detect_language, filter_programming_languages, is_binary_file_type,
    is_known_non_source_extension, looks_like_rust, merge_candidates, normalize_candidates,
    resolve_ambiguity, select_language, Candidate, LanguageKind, Selection,
};

fn candidate(name: &str, group: Option<&str>, kind: LanguageKind) -> Candidate {
    Candidate {
        name: name.to_owned(),
        group: group.map(|g| g.to_owned()),
        kind,
    }
}

fn names(list: &[Candidate]) -> Vec<&str> {
    list.iter().map(|c| c.name.as_str()).collect()
}

#[test]
fn rust_markers_are_recognised() {
    assert!(looks_like_rust("fn main() {}"));
    assert!(looks_like_rust("std::io"));
    assert!(looks_like_rust("println!(\"x\")"));
    assert!(!looks_like_rust(""));
    assert!(!looks_like_rust("int main(void) { return 0; }"));
    assert!(!looks_like_rust("fn\tmain"));
}

#[test]
fn detects_rust_source() {
    let language = detect_language("src/main.rs", "fn main() {\n    println!(\"hi\");\n}\n").unwrap();
    assert_eq!(language.as_deref(), Some("Rust"));
}

#[test]
fn detects_rust_library_source() {
    let language = detect_language("src/lib.rs", "pub fn answer() -> u32 {\n    42\n}\n").unwrap();
    assert_eq!(language.as_deref(), Some("Rust"));
}

#[test]
fn markdown_is_not_source() {
    let language = detect_language("README.md", "# title\nbody\n").unwrap();
    assert_eq!(language, None);
}

#[test]
fn detects_typescript_despite_non_programming_ambiguity() {
    let language = detect_language(
        "src/index.ts",
        "export const answer: number = 42;\nfunction greet(name: string): string {\n  return name;\n}\n",
    )
    .unwrap();
    assert_eq!(language.as_deref(), Some("TypeScript"));
}

#[test]
fn detects_hidden_rust_file() {
    let language = detect_language(".hidden.rs", "fn visible() {}\n").unwrap();
    assert_eq!(language.as_deref(), Some("Rust"));
}

#[test]
fn gitignore_is_not_source() {
    let language = detect_language(".gitignore", "ignored.rs\nnested/\n").unwrap();
    assert_eq!(language, None);
}

#[test]
fn unknown_extension_is_not_source() {
    let language = detect_language("notes.unknownext", "whatever\n").unwrap();
    assert_eq!(language, None);
}

#[test]
fn binary_file_type() {
    assert!(is_binary_file_type("Binary"));
    assert!(!is_binary_file_type("binary"));
    assert!(!is_binary_file_type("Text"));
}

#[test]
fn normalization_keeps_first_of_each_reported_name() {
    let list = vec![
        candidate("JavaScript", None, LanguageKind::Programming),
        candidate("JSX", Some("JavaScript"), LanguageKind::Programming),
        candidate("XML", None, LanguageKind::Data),
    ];
    let kept = normalize_candidates(&list);
    assert_eq!(names(&kept), vec!["JavaScript", "XML"]);
}

#[test]
fn merge_appends_new_names_only() {
    let by_name = vec![candidate("Makefile", None, LanguageKind::Programming)];
    let by_ext = vec![
        candidate("Makefile", None, LanguageKind::Programming),
        candidate("Text", None, LanguageKind::Prose),
    ];
    let merged = merge_candidates(&by_name, &by_ext);
    assert_eq!(names(&merged), vec!["Makefile", "Text"]);
}

#[test]
fn filter_keeps_programming_languages() {
    let list = vec![
        candidate("XML", None, LanguageKind::Data),
        candidate("TypeScript", None, LanguageKind::Programming),
        candidate("Markdown", None, LanguageKind::Prose),
        candidate("Rust", None, LanguageKind::Programming),
    ];
    assert_eq!(names(&filter_programming_languages(&list)), vec!["TypeScript", "Rust"]);
}

#[test]
fn markdown_extension_in_any_case() {
    let list = vec![candidate("Markdown", None, LanguageKind::Prose)];
    assert!(is_known_non_source_extension(&Some("MD".to_owned()), &list));
    assert!(is_known_non_source_extension(&Some("livemd".to_owned()), &list));
    assert!(!is_known_non_source_extension(&Some("txt".to_owned()), &list));
    assert!(!is_known_non_source_extension(&None, &list));
    assert!(!is_known_non_source_extension(&Some("md".to_owned()), &Vec::new()));
}

#[test]
fn single_candidate_decides() {
    let prog = vec![candidate("TSX", Some("TypeScript"), LanguageKind::Programming)];
    match select_language(&Some("tsx".to_owned()), "", &prog) {
        Selection::Decided(l) => assert_eq!(l.as_deref(), Some("TypeScript")),
        Selection::Ambiguous(_) => panic!("expected a decision"),
    }
    let data = vec![candidate("JSON", None, LanguageKind::Data)];
    match select_language(&Some("json".to_owned()), "{}", &data) {
        Selection::Decided(l) => assert_eq!(l, None),
        Selection::Ambiguous(_) => panic!("expected a decision"),
    }
}

#[test]
fn one_programming_candidate_among_many_decides() {
    let list = vec![
        candidate("TypeScript", None, LanguageKind::Programming),
        candidate("XML", None, LanguageKind::Data),
    ];
    match select_language(&Some("ts".to_owned()), "", &list) {
        Selection::Decided(l) => assert_eq!(l.as_deref(), Some("TypeScript")),
        Selection::Ambiguous(_) => panic!("expected a decision"),
    }
}

#[test]
fn rust_guess_needs_markers() {
    let list = vec![
        candidate("Rust", None, LanguageKind::Programming),
        candidate("RenderScript", None, LanguageKind::Programming),
    ];
    match select_language(&Some("RS".to_owned()), "fn main() {}", &list) {
        Selection::Decided(l) => assert_eq!(l.as_deref(), Some("Rust")),
        Selection::Ambiguous(_) => panic!("expected a decision"),
    }
    match select_language(&Some("rs".to_owned()), "#pragma version(1)", &list) {
        Selection::Decided(_) => panic!("expected ambiguity"),
        Selection::Ambiguous(p) => assert_eq!(names(&p), vec!["Rust", "RenderScript"]),
    }
}

#[test]
fn ambiguity_resolution() {
    let programming = vec![
        candidate("C", None, LanguageKind::Programming),
        candidate("C++", None, LanguageKind::Programming),
    ];
    let found = vec![candidate("C++", None, LanguageKind::Programming)];
    // The heuristics narrow to one language, but not every candidate remains.
    assert_eq!(resolve_ambiguity(2, &programming, &found), None);
    // Nothing found: all candidates are programming languages, the first wins.
    assert_eq!(resolve_ambiguity(2, &programming, &Vec::new()).as_deref(), Some("C"));
    // Some candidates were not programming languages.
    assert_eq!(resolve_ambiguity(3, &programming, &Vec::new()), None);
    // The heuristics name two programming languages for two candidates.
    let both = vec![
        candidate("Objective-C", None, LanguageKind::Programming),
        candidate("C", None, LanguageKind::Programming),
    ];
    assert_eq!(resolve_ambiguity(2, &programming, &both).as_deref(), Some("Objective-C"));
}

#[test]
fn header_narrowed_by_heuristics_is_not_counted() {
    // `.h` names C, C++ and Objective-C; the heuristics pick C++ alone, which
    // leaves fewer languages than candidates, so the file is not counted.
    let language = detect_language("widget.h", "#include <iostream>\nclass Widget {};\n").unwrap();
    assert_eq!(language, None);
}

#[test]
fn path_without_file_name_is_an_error() {
    let error = detect_language("..", "").unwrap_err();
    assert_eq!(error.message, "Invalid path: Not a filename");
}

#[test]
fn detects_language_from_file_bytes() {
    let language = sloccrunch::language::detect_file_language("src/main.rs", b"fn main() {}\n").unwrap();
    assert_eq!(language.as_deref(), Some("Rust"));
    // Invalid UTF-8 is replaced, and the markers are still found.
    let language = sloccrunch::language::detect_file_language("src/main.rs", b"\xff\xfe use x;\n").unwrap();
    assert_eq!(language.as_deref(), Some("Rust"));
    let language = sloccrunch::language::detect_file_language("src/main.rs", b"\xff\xfe").unwrap();
    assert_eq!(language, None);
}

#[test]
fn binary_files_are_not_counted() {
    let language = sloccrunch::language::classify_file("main.rs", "Binary", b"fn main() {}\n").unwrap();
    assert_eq!(language, None);
    let language = sloccrunch::language::classify_file("main.rs", "Rust source", b"fn main() {}\n").unwrap();
    assert_eq!(language.as_deref(), Some("Rust"));
}

#[test]
fn lookup_error_messages() {
    assert_eq!(
        lookup_error_message(&LookupError::InvalidPath("Not a filename".to_owned())),
        "Invalid path: Not a filename"
    );
    assert_eq!(
        lookup_error_message(&LookupError::InvalidRegex { pattern: "(".to_owned(), error: "bad".to_owned() }),
        "Invalid regex pattern '(': bad"
    );
    assert_eq!(
        lookup_error_message(&LookupError::MissingNamedPattern("cpp".to_owned())),
        "Named pattern 'cpp' not found in heuristics"
    );
}

#[test]
fn collected_candidates_have_distinct_names() {
    let list = sloccrunch::language::collect_language_candidates("src/main.rs").unwrap();
    for (i, a) in list.iter().enumerate() {
        for b in &list[i + 1..] {
            assert_ne!(a.name, b.name);
        }
    }
    assert!(list.iter().any(|c| c.name == "Rust"));
}
