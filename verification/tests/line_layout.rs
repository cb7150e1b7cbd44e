use luminatti::line_layout::{blank_line, expand_tabs, pad_background, stripe_pattern, wrapped_lines, Color, Line, Span, Style};

fn plain(lines: Vec<Line>) -> Vec<String> {
    lines
        .into_iter()
        .map(|line| line.spans.into_iter().map(|span| span.content).collect())
        .collect()
}

#[test]
fn wraps_at_whitespace_and_aligns_continuation_under_content() {
    let lines = wrapped_lines(
        vec![Span::raw("  1 ")],
        vec![Span::raw("hello world")],
        10,
        Color::Black,
        true,
    );
    assert_eq!(plain(lines), ["  1 hello ", "    world "]);
}

#[test]
fn unwrapped_rows_are_padded_to_the_width() {
    let lines = wrapped_lines(vec![Span::raw("1 ")], vec![Span::raw("abc")], 8, Color::Red, false);
    assert_eq!(plain(lines), ["1 abc   "]);
}

#[test]
fn words_longer_than_the_row_are_cut() {
    let lines = wrapped_lines(vec![], vec![Span::raw("abcdefgh")], 4, Color::Black, true);
    assert_eq!(plain(lines), ["abc ", "def ", "gh  "]);
}

#[test]
fn continuation_rows_keep_the_content_indent() {
    let lines = wrapped_lines(vec![Span::raw("> ")], vec![Span::raw("  ab cd")], 8, Color::Black, true);
    assert_eq!(plain(lines), [">   ab  ", "    cd  "]);
}

#[test]
fn empty_content_gives_the_padded_prefix() {
    let lines = wrapped_lines(vec![Span::raw("7 ")], vec![], 4, Color::Black, true);
    assert_eq!(plain(lines), ["7   "]);
}

#[test]
fn runs_of_one_style_become_one_span() {
    let bold = Style { fg: Some(Color::Yellow), bg: None, add_modifier: 1, sub_modifier: 0 };
    let lines = wrapped_lines(
        vec![],
        vec![Span::raw("ab"), Span::raw("c"), Span::styled("de".to_string(), bold)],
        10,
        Color::Black,
        true,
    );
    assert_eq!(lines.len(), 1);
    let spans = &lines[0].spans;
    assert_eq!(spans.len(), 3);
    assert_eq!(spans[0].content, "abc");
    assert_eq!(spans[1].content, "de");
    assert_eq!(spans[1].style, bold);
    assert_eq!(spans[2].content, "     ");
    assert_eq!(spans[2].style, Style::on(Color::Black));
}

#[test]
fn padding_adds_nothing_to_a_full_row() {
    let spans = pad_background(vec![Span::raw("abcd")], 3, Color::Blue);
    assert_eq!(spans.len(), 1);
    let spans = pad_background(vec![Span::raw("ab")], 3, Color::Blue);
    assert_eq!(spans.len(), 2);
    assert_eq!(spans[1].content, " ");
    assert_eq!(spans[1].style, Style::on(Color::Blue));
}

#[test]
fn blank_rows_and_stripes_have_the_width() {
    let line = blank_line(3, Color::Green);
    assert_eq!(line.spans.len(), 1);
    assert_eq!(line.spans[0].content, "   ");
    assert_eq!(stripe_pattern(2), "╱╱");
    assert_eq!(Style::default(), Style { fg: None, bg: None, add_modifier: 0, sub_modifier: 0 });
}

#[test]
fn tab_expansion_tracks_columns_across_style_spans() {
    let spans = expand_tabs(vec![Span::raw("a"), Span::raw("\tb")], 4);
    assert_eq!(spans[1].content, "   b");
}

#[test]
fn zero_width_tabs_are_removed_without_panicking() {
    let spans = expand_tabs(vec![Span::raw("a\tb")], 0);
    assert_eq!(spans[0].content, "ab");
}

#[test]
fn tabs_at_a_stop_take_a_full_width() {
    let spans = expand_tabs(vec![Span::raw("abcd\tx"), Span::raw("y")], 4);
    assert_eq!(spans[0].content, "abcd    x");
    assert_eq!(spans[1].content, "y");
}
