use sloccrunch::lines::count_lines;

#[test]
fn lines_counts_empty_input() {
    assert_eq!(count_lines(b""), 0);
}

#[test]
fn lines_counts_trailing_newline_lines() {
    assert_eq!(count_lines(b"one\ntwo\n"), 2);
}

#[test]
fn lines_counts_missing_trailing_newline() {
    assert_eq!(count_lines(b"one\ntwo"), 2);
}

#[test]
fn main_counts_empty_input() {
    assert_eq!(count_lines(b""), 0);
}

#[test]
fn main_counts_trailing_newline_lines() {
    assert_eq!(count_lines(b"one\ntwo\n"), 2);
}

#[test]
fn main_counts_missing_trailing_newline() {
    assert_eq!(count_lines(b"one\ntwo"), 2);
}

#[test]
fn counts_only_newlines() {
    assert_eq!(count_lines(b"\n\n\n"), 3);
}

#[test]
fn counts_single_line_without_newline() {
    assert_eq!(count_lines(b"x"), 1);
}

#[test]
fn line_counts_add_up_after_a_newline() {
    let first = b"a\nb\n";
    let second = b"c\nd";
    let mut both = first.to_vec();
    both.extend_from_slice(second);
    assert_eq!(count_lines(&both), count_lines(first) + count_lines(second));
}
