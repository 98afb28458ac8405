use itui::{Alignment, Buffer, Color, EventBinding, Paragraph, PointerEvent, Rect, Style, Text};

#[test]
fn rect_bounds_and_hit() {
    let r = Rect::new(2, 3, 4, 5);
    assert_eq!(r.left(), 2);
    assert_eq!(r.right(), 6);
    assert_eq!(r.top(), 3);
    assert_eq!(r.bottom(), 8);
    assert!(r.hit(2, 3));
    assert!(r.hit(5, 7));
    assert!(!r.hit(6, 3));
    assert!(!r.hit(2, 8));
}

#[test]
fn line_offset_by_alignment() {
    assert_eq!(itui::get_line_offset(2, 5, Alignment::Left), 0);
    assert_eq!(itui::get_line_offset(2, 5, Alignment::Right), 3);
    assert_eq!(itui::get_line_offset(2, 5, Alignment::Center), 1);
    // a line wider than the target never offsets
    assert_eq!(itui::get_line_offset(9, 5, Alignment::Right), 0);
    assert_eq!(itui::get_line_offset(9, 5, Alignment::Center), 0);
}

#[test]
fn set_stringn_stops_at_width_budget() {
    let area = Rect::new(0, 0, 6, 1);
    let mut buf = Buffer::empty(area);
    buf.set_stringn(0, 0, "abcdef", 4, Style::default());
    let mut s = String::new();
    for x in 0..6 {
        s.push_str(&buf.get(x, 0).symbol);
    }
    assert_eq!(s, "abcd  ");
}

#[test]
fn fill_background_keeps_symbols() {
    let area = Rect::new(0, 0, 3, 2);
    let mut buf = Buffer::empty(area);
    buf.set_stringn(0, 0, "ab", 3, Style::default());
    buf.fill_background(Rect::new(0, 0, 3, 1), Color::Blue);
    assert_eq!(buf.get(0, 0).symbol, "a");
    assert_eq!(buf.get(0, 0).style.bg, Some(Color::Blue));
    assert_eq!(buf.get(0, 1).style.bg, None);
}

#[test]
fn get_mut_writes_one_cell() {
    let area = Rect::new(0, 0, 2, 1);
    let mut buf = Buffer::empty(area);
    let cell = buf.get_mut(1, 0);
    cell.set_symbol("z");
    assert_eq!(buf.get(1, 0).symbol, "z");
    assert_eq!(buf.get(0, 0).symbol, " ");
}

#[test]
fn triggers_event_first_match_inside_area() {
    let mut p = Paragraph::new(vec![Text::Raw(String::new())]).area(Rect::new(0, 0, 4, 4));
    p.events.push(EventBinding { name: "hover".to_string() });
    p.events.push(EventBinding { name: "click".to_string() });
    p.events.push(EventBinding { name: "click".to_string() });
    let inside = PointerEvent { kind: "click".to_string(), x: 1, y: 1 };
    assert_eq!(p.triggers_event(&inside), Some(1));
    let outside = PointerEvent { kind: "click".to_string(), x: 9, y: 1 };
    assert_eq!(p.triggers_event(&outside), None);
    let unknown = PointerEvent { kind: "key".to_string(), x: 1, y: 1 };
    assert_eq!(p.triggers_event(&unknown), None);
}

#[test]
fn wide_grapheme_occupies_two_columns() {
    let area = Rect::new(0, 0, 4, 1);
    let mut buf = Buffer::empty(area);
    buf.set_stringn(0, 0, "あb", 4, Style::default());
    assert_eq!(buf.get(0, 0).symbol, "あ");
    // the column shadowed by the wide grapheme keeps its old content
    assert_eq!(buf.get(1, 0).symbol, " ");
    assert_eq!(buf.get(2, 0).symbol, "b");
}
