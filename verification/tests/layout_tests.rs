use niv::layout::{Layout, Position, Rect, Viewport};

#[test]
fn layout_splits_the_screen() {
    let l = Layout::new(80, 24);
    assert_eq!(l.text_start_col, 5);
    assert_eq!(l.text_area_width, 75);
    assert_eq!(l.text_area_height, 22);
    assert_eq!(l.status_line_row, 22);
    assert_eq!(l.command_line_row(), 23);
    assert!(l.is_in_text_area(5, 0));
    assert!(!l.is_in_text_area(4, 0));
    assert_eq!(l.screen_to_buffer(7, 3), (2, 3));
    assert_eq!(l.buffer_to_screen(2, 3), (7, 3));
    let r = l.status_line_rect();
    assert_eq!((r.x, r.y, r.width, r.height), (0, 22, 80, 1));
}

#[test]
fn rect_and_position_arithmetic() {
    let r = Rect::new(2, 3, 10, 5);
    assert!(r.contains(2, 3));
    assert!(r.contains(11, 7));
    assert!(!r.contains(12, 7));
    assert_eq!(r.right(), 12);
    assert_eq!(r.bottom(), 8);
    assert_eq!(Position::origin(), Position::new(0, 0));
}

#[test]
fn viewport_scrolling() {
    let mut v = Viewport::new(80, 10);
    v.scroll_down(5);
    assert_eq!(v.top_line, 5);
    v.scroll_up(99);
    assert_eq!(v.top_line, 0);
    v.scroll_right(3);
    assert_eq!(v.left_col, 3);
    v.scroll_left(1);
    assert_eq!(v.left_col, 2);
    assert!(v.contains_line(9));
    assert!(!v.contains_line(10));
    assert_eq!(v.line_to_screen(4), Some(4));
    assert_eq!(v.col_to_screen(1), None);
}
