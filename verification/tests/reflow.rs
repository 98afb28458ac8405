use itui::reflow::{truncate_lines, units_of_str, wrap_lines};
use itui::Style;

fn line_text(line: &itui::ComposedLine) -> String {
    let mut s = String::new();
    for u in line.units.iter() {
        s.push_str(&u.symbol);
    }
    s
}

#[test]
fn truncation_cuts_at_budget() {
    let units = units_of_str("Hello, World!", Style::default());
    let lines = truncate_lines(&units, 5);
    assert_eq!(lines.len(), 1);
    assert_eq!(line_text(&lines[0]), "Hello");
    assert_eq!(lines[0].width, 5);
}

#[test]
fn truncation_discards_rest_of_logical_line() {
    let units = units_of_str("abcdef\ngh", Style::default());
    let lines = truncate_lines(&units, 3);
    assert_eq!(lines.len(), 2);
    assert_eq!(line_text(&lines[0]), "abc");
    assert_eq!(line_text(&lines[1]), "gh");
}

#[test]
fn truncation_zero_budget_composes_nothing() {
    let units = units_of_str("abc", Style::default());
    let lines = truncate_lines(&units, 0);
    assert_eq!(lines.len(), 0);
}

#[test]
fn truncation_counts_wide_graphemes_by_columns() {
    // each of these graphemes is two columns wide
    let units = units_of_str("ああああ", Style::default());
    assert_eq!(units[0].width, 2);
    let lines = truncate_lines(&units, 5);
    assert_eq!(lines.len(), 1);
    assert_eq!(line_text(&lines[0]), "ああ");
    assert_eq!(lines[0].width, 4);
}

#[test]
fn combining_mark_stays_with_its_grapheme() {
    let units = units_of_str("e\u{301}x", Style::default());
    assert_eq!(units.len(), 2);
    assert_eq!(units[0].symbol, "e\u{301}");
    let lines = truncate_lines(&units, 10);
    assert_eq!(lines[0].width, 2);
}

#[test]
fn wrap_moves_whole_words() {
    let units = units_of_str("aa bb cc", Style::default());
    let lines = wrap_lines(&units, 5);
    assert_eq!(lines.len(), 2);
    assert_eq!(line_text(&lines[0]), "aa bb");
    assert_eq!(lines[0].width, 5);
    assert_eq!(line_text(&lines[1]), "cc");
    assert_eq!(lines[1].width, 2);
}

#[test]
fn wrap_trims_trailing_space_at_break() {
    let units = units_of_str("aaa b", Style::default());
    let lines = wrap_lines(&units, 3);
    assert_eq!(lines.len(), 2);
    assert_eq!(line_text(&lines[0]), "aaa");
    assert_eq!(lines[0].width, 3);
    assert_eq!(line_text(&lines[1]), "b");
}

#[test]
fn wrap_hard_breaks_overlong_word() {
    let units = units_of_str("abcdefg", Style::default());
    let lines = wrap_lines(&units, 3);
    assert_eq!(lines.len(), 3);
    assert_eq!(line_text(&lines[0]), "abc");
    assert_eq!(line_text(&lines[1]), "def");
    assert_eq!(line_text(&lines[2]), "g");
}

#[test]
fn wrap_honors_explicit_breaks() {
    let units = units_of_str("ab\n\ncd", Style::default());
    let lines = wrap_lines(&units, 10);
    assert_eq!(lines.len(), 3);
    assert_eq!(line_text(&lines[0]), "ab");
    assert_eq!(line_text(&lines[1]), "");
    assert_eq!(line_text(&lines[2]), "cd");
}

#[test]
fn no_trailing_empty_line_after_final_break() {
    let units = units_of_str("ab\n", Style::default());
    let truncated = truncate_lines(&units, 10);
    assert_eq!(truncated.len(), 1);
    let wrapped = wrap_lines(&units, 10);
    assert_eq!(wrapped.len(), 1);
}

#[test]
fn grapheme_split_reproduces_input() {
    let units = units_of_str("a b\u{301}c", Style::default());
    let mut joined = String::new();
    for u in units.iter() {
        joined.push_str(&u.symbol);
    }
    assert_eq!(joined, "a b\u{301}c");
}
