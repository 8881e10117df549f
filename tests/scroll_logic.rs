use limn_core::geometry::Rect;
use limn_core::scroll::{get_scroll, ScrollDelta, ScrollEdit, ScrollError, ScrollParent, WidgetScroll, WidgetScrollHandler};

#[test]
fn scroll_offset_clamps_to_width_difference() {
    let parent = Rect::new(0, 0, 100, 100);
    let widget = Rect::new(0, 0, 300, 100);
    let mut h = WidgetScrollHandler::new();
    let e = h.scroll_by(-50, 0, parent, widget);
    assert_eq!(h.offset_x, -50);
    assert_eq!(e, ScrollEdit { left: -50, top: 0 });
    let e = h.scroll_by(-500, 0, parent, widget);
    assert_eq!(h.offset_x, -200);
    assert_eq!(e.left, -200);
    let e = h.scroll_by(1000, 0, parent, widget);
    assert_eq!(h.offset_x, 0);
    assert_eq!(e.left, 0);
}

#[test]
fn scroll_event_uses_step_and_parent_origin() {
    let parent = Rect::new(10, 20, 100, 100);
    let widget = Rect::new(10, 20, 100, 400);
    let mut h = WidgetScrollHandler::new();
    let ev = WidgetScroll { event: ScrollDelta::LineDelta(0, -2), parent_bounds: parent };
    let e = h.handle(&ev, widget);
    assert_eq!(h.offset_y, -26);
    assert_eq!(e, ScrollEdit { left: 10, top: -6 });
    let ev = WidgetScroll { event: ScrollDelta::PixelDelta(3, -100), parent_bounds: parent };
    h.handle(&ev, widget);
    assert_eq!(h.offset_x, 0);
    assert_eq!(h.offset_y, -300);
}

#[test]
fn get_scroll_reads_both_units() {
    assert_eq!(get_scroll(ScrollDelta::LineDelta(1, -2)).y, -2);
    assert_eq!(get_scroll(ScrollDelta::PixelDelta(7, 0)).x, 7);
}

#[test]
fn scroll_parent_tracks_one_child() {
    let mut p = ScrollParent::new();
    assert!(p.mouse_wheel(ScrollDelta::LineDelta(0, 1), Rect::new(0, 0, 1, 1)).is_none());
    assert_eq!(p.child_attached(Some(4)), Ok(()));
    assert_eq!(p.child_attached(Some(5)), Err(ScrollError::MoreThanOneChild));
    assert_eq!(p.scrollable, Some(4));
    let b = Rect::new(0, 0, 50, 50);
    let fwd = p.mouse_wheel(ScrollDelta::LineDelta(0, 1), b).unwrap();
    assert_eq!(fwd.0, 4);
    assert_eq!(fwd.1.parent_bounds, b);
    assert_eq!(p.child_attached(None), Ok(()));
    assert_eq!(p.scrollable, None);
}
