//! Tests of the code-span scanner and of the line assembler's core, driven
//! with hand-made break lists.
use ulb_pwrap::codespan_parser::MarkdownCodespanParser;
use ulb_pwrap::pwrap::wrap_core;

fn feed(parser: &mut MarkdownCodespanParser, text: &str) {
    for c in text.chars() {
        parser.parse_character(c);
    }
}

#[test]
fn scanner_plain_text_stays_wrappable() {
    let mut p = MarkdownCodespanParser::new();
    assert!(p.could_wrap());
    feed(&mut p, "plain words, no spans");
    assert!(p.could_wrap());
    assert_eq!(p.characters_i, 21);
}

#[test]
fn scanner_inside_codespan_blocks_wrapping() {
    let mut p = MarkdownCodespanParser::new();
    feed(&mut p, "a `code");
    assert!(!p.could_wrap());
}

#[test]
fn scanner_closed_codespan_wrappable_again() {
    let mut p = MarkdownCodespanParser::new();
    feed(&mut p, "a `code` b");
    assert!(p.could_wrap());
}

#[test]
fn scanner_short_closing_run_keeps_span_open() {
    let mut p = MarkdownCodespanParser::new();
    feed(&mut p, "``a` b");
    assert!(!p.could_wrap());
    feed(&mut p, "`` c");
    assert!(p.could_wrap());
}

#[test]
fn scanner_long_closing_run_keeps_span_open() {
    let mut p = MarkdownCodespanParser::new();
    feed(&mut p, "`a``");
    // The closing run is still open: a following backtick could extend it.
    feed(&mut p, " b");
    assert!(!p.could_wrap());
}

#[test]
fn scanner_backup_and_restore_roundtrip() {
    let mut p = MarkdownCodespanParser::new();
    feed(&mut p, "ab ");
    p.backup_state();
    let saved_i = p.characters_i;
    assert!(p.could_wrap());
    feed(&mut p, "`code");
    assert!(!p.could_wrap());
    p.restore_state();
    assert!(p.could_wrap());
    assert_eq!(p.characters_i, saved_i);
}

#[test]
fn wrap_core_allowed_break_trims_and_terminates() {
    let chars: Vec<char> = "ab cd".chars().collect();
    let breaks: Vec<(usize, bool)> = vec![(3, false), (5, true)];
    let out = wrap_core(&chars, &breaks, 2, 2);
    let expected: Vec<char> = "ab\ncd".chars().collect();
    assert_eq!(out, expected);
}

#[test]
fn wrap_core_mandatory_break_kept_verbatim() {
    let chars: Vec<char> = "ab \ncd".chars().collect();
    let breaks: Vec<(usize, bool)> = vec![(4, true), (6, true)];
    let out = wrap_core(&chars, &breaks, 80, 80);
    let expected: Vec<char> = "ab \ncd".chars().collect();
    assert_eq!(out, expected);
}

#[test]
fn wrap_core_no_breaks_single_line() {
    let chars: Vec<char> = "abcdef".chars().collect();
    let breaks: Vec<(usize, bool)> = vec![];
    let out = wrap_core(&chars, &breaks, 2, 2);
    let expected: Vec<char> = "abcdef".chars().collect();
    assert_eq!(out, expected);
}

#[test]
fn wrap_core_rejects_break_inside_codespan() {
    let chars: Vec<char> = "`a b` c".chars().collect();
    // A candidate inside the span (position 3) must be rejected; the
    // candidate after the closing fence (position 6) is accepted.
    let breaks: Vec<(usize, bool)> = vec![(3, false), (6, false), (7, true)];
    let out = wrap_core(&chars, &breaks, 1, 1);
    let expected: Vec<char> = "`a b`\nc".chars().collect();
    assert_eq!(out, expected);
}

#[test]
fn wrap_core_vetoes_break_after_hyphen() {
    let chars: Vec<char> = "a-b c".chars().collect();
    let breaks: Vec<(usize, bool)> = vec![(2, false), (4, false), (5, true)];
    let out = wrap_core(&chars, &breaks, 1, 1);
    let expected: Vec<char> = "a-b\nc".chars().collect();
    assert_eq!(out, expected);
}

#[test]
fn wrap_core_greedy_takes_farthest_fitting_break() {
    let chars: Vec<char> = "a b c d".chars().collect();
    let breaks: Vec<(usize, bool)> = vec![(2, false), (4, false), (6, false), (7, true)];
    let out = wrap_core(&chars, &breaks, 3, 3);
    let expected: Vec<char> = "a b\nc d".chars().collect();
    assert_eq!(out, expected);
}
