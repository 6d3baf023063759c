use sloccrunch::project::{LanguageTotal, ProjectTotals};

fn report(totals: &ProjectTotals) -> Vec<(String, usize)> {
    totals
        .sorted_languages()
        .into_iter()
        .map(|t| (t.language, t.sloc))
        .collect()
}

#[test]
fn empty_totals() {
    let totals = ProjectTotals::new();
    assert_eq!(totals.total_sloc(), 0);
    assert!(totals.languages().is_empty());
    assert!(report(&totals).is_empty());
}

#[test]
fn adds_files_per_language() {
    let mut totals = ProjectTotals::new();
    totals.add_file("Rust", 3);
    totals.add_file("Python", 5);
    totals.add_file("Rust", 3);
    assert_eq!(totals.total_sloc(), 11);
    let languages: Vec<(String, usize)> = totals
        .languages()
        .into_iter()
        .map(|t| (t.language, t.sloc))
        .collect();
    assert_eq!(
        languages,
        vec![("Rust".to_owned(), 6), ("Python".to_owned(), 5)]
    );
}

#[test]
fn empty_file_still_lists_language() {
    let mut totals = ProjectTotals::new();
    totals.add_file("Go", 0);
    assert_eq!(totals.total_sloc(), 0);
    assert_eq!(report(&totals), vec![("Go".to_owned(), 0)]);
}

#[test]
fn report_orders_by_count_then_name() {
    let mut totals = ProjectTotals::new();
    totals.add_file("Shell", 2);
    totals.add_file("C", 10);
    totals.add_file("Rust", 10);
    totals.add_file("Awk", 2);
    totals.add_file("Zig", 40);
    assert_eq!(
        report(&totals),
        vec![
            ("Zig".to_owned(), 40),
            ("C".to_owned(), 10),
            ("Rust".to_owned(), 10),
            ("Awk".to_owned(), 2),
            ("Shell".to_owned(), 2),
        ]
    );
}

#[test]
fn name_order_is_by_code_point() {
    let mut totals = ProjectTotals::new();
    totals.add_file("b", 1);
    totals.add_file("B", 1);
    totals.add_file("Ba", 1);
    totals.add_file("é", 1);
    assert_eq!(
        report(&totals),
        vec![
            ("B".to_owned(), 1),
            ("Ba".to_owned(), 1),
            ("b".to_owned(), 1),
            ("é".to_owned(), 1),
        ]
    );
}

#[test]
fn counting_order_does_not_change_the_report() {
    let files = [("Rust", 4), ("C", 7), ("Rust", 3), ("Python", 1), ("C", 0)];
    let mut forward = ProjectTotals::new();
    for (language, lines) in files {
        forward.add_file(language, lines);
    }
    let mut backward = ProjectTotals::new();
    for (language, lines) in files.iter().rev() {
        backward.add_file(language, *lines);
    }
    assert_eq!(forward.total_sloc(), backward.total_sloc());
    assert_eq!(report(&forward), report(&backward));
}

#[test]
fn total_is_sum_of_languages() {
    let mut totals = ProjectTotals::new();
    totals.add_file("A", 1);
    totals.add_file("B", 2);
    totals.add_file("A", 4);
    let sum: usize = totals.languages().iter().map(|t| t.sloc).sum();
    assert_eq!(totals.total_sloc(), sum);
}

#[test]
fn from_files_sums_per_language() {
    let files = vec![
        LanguageTotal { language: "Rust".to_owned(), sloc: 4 },
        LanguageTotal { language: "C".to_owned(), sloc: 7 },
        LanguageTotal { language: "Rust".to_owned(), sloc: 3 },
    ];
    let totals = ProjectTotals::from_files(&files);
    assert_eq!(totals.total_sloc(), 14);
    assert_eq!(
        report(&totals),
        vec![("C".to_owned(), 7), ("Rust".to_owned(), 7)]
    );
    assert!(report(&ProjectTotals::from_files(&Vec::new())).is_empty());
}
