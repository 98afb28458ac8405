use itui::{Block, Borders, Buffer, Paragraph, Rect, Style, Text};

fn row(buf: &Buffer, y: u16, width: u16) -> String {
    let mut s = String::new();
    for x in 0..width {
        s.push_str(&buf.get(x, y).symbol);
    }
    s
}

#[test]
fn frame_with_all_borders_and_title() {
    let area = Rect::new(0, 0, 5, 3);
    let mut buf = Buffer::empty(area);
    let block = Block::default().title("X").borders(Borders::all()).area(area);
    block.draw(&mut buf);
    assert_eq!(row(&buf, 0, 5), "┌X──┐");
    assert_eq!(row(&buf, 1, 5), "│   │");
    assert_eq!(row(&buf, 2, 5), "└───┘");
}

#[test]
fn corner_glyphs_only_where_both_edges_meet() {
    let area = Rect::new(0, 0, 4, 4);
    let mut buf = Buffer::empty(area);
    let block = Block::default()
        .borders(Borders::new(true, false, true, false))
        .area(area);
    block.draw(&mut buf);
    // left and top edges are enabled: only the top-left corner glyph appears
    assert_eq!(buf.get(0, 0).symbol, "┌");
    assert_eq!(buf.get(3, 0).symbol, "─");
    assert_eq!(buf.get(0, 3).symbol, "│");
    assert_eq!(buf.get(3, 3).symbol, " ");
}

#[test]
fn undersized_frame_draws_nothing() {
    let area = Rect::new(0, 0, 1, 3);
    let mut buf = Buffer::empty(area);
    let block = Block::default().borders(Borders::all()).area(area);
    block.draw(&mut buf);
    for y in 0..3 {
        assert_eq!(buf.get(0, y).symbol, " ");
    }
}

#[test]
fn undersized_frame_inner_is_empty() {
    let block = Block::default()
        .borders(Borders::all())
        .area(Rect::new(2, 2, 1, 1));
    let inner = block.inner();
    assert_eq!(inner.width, 0);
    assert_eq!(inner.height, 0);
}

#[test]
fn inner_reserves_title_row_without_top_border() {
    let block = Block::default().title("T").area(Rect::new(0, 0, 6, 4));
    let inner = block.inner();
    assert_eq!((inner.x, inner.y, inner.width, inner.height), (0, 1, 6, 3));
}

#[test]
fn inner_shrinks_for_each_border() {
    let block = Block::default()
        .borders(Borders::all())
        .area(Rect::new(1, 2, 6, 4));
    let inner = block.inner();
    assert_eq!((inner.x, inner.y, inner.width, inner.height), (2, 3, 4, 2));
}

#[test]
fn paragraph_truncates_to_width() {
    let area = Rect::new(0, 0, 5, 1);
    let mut buf = Buffer::empty(area);
    let p = Paragraph::new(vec![Text::Raw("Hello, World!".to_string())]).area(area);
    p.draw(&mut buf);
    assert_eq!(row(&buf, 0, 5), "Hello");
}

#[test]
fn paragraph_wraps_words() {
    let area = Rect::new(0, 0, 5, 2);
    let mut buf = Buffer::empty(area);
    let p = Paragraph::new(vec![Text::Raw("aa bb cc".to_string())])
        .wrap(true)
        .area(area);
    p.draw(&mut buf);
    assert_eq!(row(&buf, 0, 5), "aa bb");
    assert_eq!(row(&buf, 1, 5), "cc   ");
}

#[test]
fn paragraph_scroll_skips_leading_lines() {
    let area = Rect::new(0, 0, 3, 2);
    let mut buf = Buffer::empty(area);
    let p = Paragraph::new(vec![Text::Raw("one\ntwo\nsix".to_string())])
        .scroll(1)
        .area(area);
    p.draw(&mut buf);
    assert_eq!(row(&buf, 0, 3), "two");
    assert_eq!(row(&buf, 1, 3), "six");
}

#[test]
fn paragraph_right_alignment_offsets_line() {
    let area = Rect::new(0, 0, 5, 1);
    let mut buf = Buffer::empty(area);
    let p = Paragraph::new(vec![Text::Raw("ab".to_string())])
        .alignment(itui::Alignment::Right)
        .area(area);
    p.draw(&mut buf);
    assert_eq!(row(&buf, 0, 5), "   ab");
}

#[test]
fn paragraph_center_alignment_offsets_line() {
    let area = Rect::new(0, 0, 5, 1);
    let mut buf = Buffer::empty(area);
    let p = Paragraph::new(vec![Text::Raw("ab".to_string())])
        .alignment(itui::Alignment::Center)
        .area(area);
    p.draw(&mut buf);
    assert_eq!(row(&buf, 0, 5), " ab  ");
}

#[test]
fn paragraph_inside_block_paints_interior() {
    let area = Rect::new(0, 0, 6, 3);
    let mut buf = Buffer::empty(area);
    let block = Block::default().borders(Borders::all()).area(area);
    let p = Paragraph::new(vec![Text::Raw("hi".to_string())]).block(block);
    p.draw(&mut buf);
    assert_eq!(row(&buf, 0, 6), "┌────┐");
    assert_eq!(row(&buf, 1, 6), "│hi  │");
    assert_eq!(row(&buf, 2, 6), "└────┘");
}

#[test]
fn styled_span_keeps_its_own_style() {
    let area = Rect::new(0, 0, 4, 1);
    let mut buf = Buffer::empty(area);
    let red = Style::default().fg(itui::Color::Red);
    let p = Paragraph::new(vec![
        Text::Raw("a".to_string()),
        Text::Styled("b".to_string(), red),
    ])
    .area(area);
    p.draw(&mut buf);
    assert_eq!(buf.get(0, 0).style.fg, None);
    assert_eq!(buf.get(1, 0).style.fg, Some(itui::Color::Red));
}

#[test]
fn title_is_truncated_to_fit_between_borders() {
    let area = Rect::new(0, 0, 5, 3);
    let mut buf = Buffer::empty(area);
    let block = Block::default()
        .title("abcdef")
        .borders(Borders::all())
        .area(area);
    block.draw(&mut buf);
    assert_eq!(row(&buf, 0, 5), "┌abc┐");
}

#[test]
fn title_without_borders_starts_at_left_edge() {
    let area = Rect::new(0, 0, 4, 2);
    let mut buf = Buffer::empty(area);
    let block = Block::default().title("ab").area(area);
    block.draw(&mut buf);
    assert_eq!(row(&buf, 0, 4), "ab  ");
}

#[test]
fn zero_width_title_cluster_never_reaches_the_corner() {
    // the title's fitted prefix ends in a zero-width cluster that would start
    // exactly on the reserved right-border column; the corner glyph must win
    let area = Rect::new(0, 0, 3, 2);
    let mut buf = Buffer::empty(area);
    let block = Block::default()
        .title("あ\u{200B}")
        .borders(Borders::new(false, true, true, false))
        .area(area);
    block.draw(&mut buf);
    assert_eq!(buf.get(0, 0).symbol, "あ");
    assert_eq!(buf.get(2, 0).symbol, "┐");
    assert_eq!(buf.get(2, 1).symbol, "│");
}

#[test]
fn corner_style_layers_border_style_over_background() {
    let area = Rect::new(0, 0, 4, 3);
    let mut buf = Buffer::empty(area);
    let block = Block::default()
        .borders(Borders::all())
        .border_style(Style::default().fg(itui::Color::Red))
        .style(Style::default().bg(itui::Color::Blue))
        .area(area);
    block.draw(&mut buf);
    assert_eq!(buf.get(0, 0).symbol, "┌");
    assert_eq!(buf.get(0, 0).style.fg, Some(itui::Color::Red));
    assert_eq!(buf.get(0, 0).style.bg, Some(itui::Color::Blue));
}
