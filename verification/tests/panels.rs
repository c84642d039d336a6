use neuroarena::panels::wrap;

/// The monospace advance and the small type size the status strip is set in.
const CHAR_ADVANCE: f32 = 0.6;
const SMALL: f32 = 11.0;

fn advance(chars: usize, size: f32) -> f32 {
    chars as f32 * size * CHAR_ADVANCE
}

/// The characters a line of `width` pixels holds at `size`, as the shell
/// works it out for the wrapper.
fn budget(width: f32, size: f32, longest: usize) -> usize {
    let mut chars = 0;
    while chars < longest && !(advance(chars + 1, size) > width) {
        chars += 1;
    }
    chars
}

#[test]
fn wrapping_keeps_the_status_to_the_strip_and_its_two_lines() {
    let text = "a long status";
    let width = advance(30, SMALL);
    let lines = wrap(text, budget(width, SMALL, text.chars().count()), 1);
    assert_eq!(lines, vec!["a long status".to_string()]);
    let text = "aaaa bbbb cccc dddd";
    let lines = wrap(
        text,
        budget(advance(9, SMALL), SMALL, text.chars().count()),
        2,
    );
    assert_eq!(lines.len(), 2);
    assert_eq!(
        lines,
        vec!["aaaa bbbb".to_string(), "cccc dddd".to_string()]
    );
}

#[test]
fn whitespace_of_any_kind_separates_words() {
    assert_eq!(
        wrap("  one\ttwo\n three\u{3000}four ", 100, 3),
        vec!["one two three four".to_string()]
    );
    assert!(wrap("", 10, 2).is_empty());
    assert!(wrap(" \t ", 10, 2).is_empty());
}

#[test]
fn a_word_longer_than_the_line_gets_a_line_of_its_own() {
    assert_eq!(
        wrap("ab verylongword cd", 4, 5),
        vec!["ab".to_string(), "verylongword".to_string(), "cd".to_string()]
    );
}

#[test]
fn the_line_limit_cuts_the_rest() {
    assert_eq!(
        wrap("a b c d e f", 3, 2),
        vec!["a b".to_string(), "c d".to_string()]
    );
    // A limit of nothing still lets the first full line through once the text
    // spills past it.
    assert_eq!(wrap("a b c", 3, 0), vec!["a b".to_string()]);
    assert!(wrap("a b", 3, 0).is_empty());
}
