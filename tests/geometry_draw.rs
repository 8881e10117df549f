use limn_core::draw::{draw_horizontal_line, draw_rect_outline, Color, DisplayItem, RenderBuilder};
use limn_core::ellipse::{cursor_hit, EllipseState};
use limn_core::geometry::{Point, Rect};
use limn_core::tree::{Container, WidgetTree};

#[test]
fn ellipse_center_inside_corner_outside() {
    let b = Rect::new(0, 0, 100, 50);
    assert!(cursor_hit(b, Point::new(50, 25)));
    assert!(!cursor_hit(b, Point::new(0, 0)));
}

#[test]
fn ellipse_edges_and_degenerate() {
    let b = Rect::new(0, 0, 100, 50);
    assert!(cursor_hit(b, Point::new(0, 25)));
    assert!(cursor_hit(b, Point::new(100, 25)));
    assert!(cursor_hit(b, Point::new(50, 0)));
    assert!(!cursor_hit(b, Point::new(50, 51)));
    assert!(!cursor_hit(b, Point::new(-1, 25)));
    assert!(!cursor_hit(b, Point::new(10, 5)));
    assert!(cursor_hit(b, Point::new(15, 8)));
    assert!(!cursor_hit(Rect::new(0, 0, 0, 50), Point::new(0, 25)));
    assert!(!cursor_hit(Rect::new(10, 10, 20, 20), Point::new(i32::MAX, i32::MIN)));
}

#[test]
fn rect_helpers() {
    let r = Rect::new(10, 20, 30, 40);
    assert_eq!(r.right(), 40);
    assert_eq!(r.bottom(), 60);
    assert_eq!(r.shrink_bounds(2), Rect::new(12, 22, 26, 36));
    assert!(r.contains(Point::new(10, 20)));
    assert!(!r.contains(Point::new(40, 20)));
}

#[test]
fn ellipse_draw_without_border() {
    let mut rb = RenderBuilder::new();
    let s = EllipseState::new();
    let b = Rect::new(0, 0, 10, 10);
    s.draw(b, b, &mut rb);
    assert_eq!(rb.items, vec![DisplayItem::Fill { rect: b, clip: b, color: Color::black() }]);
}

#[test]
fn ellipse_draw_with_thin_border() {
    let mut rb = RenderBuilder::new();
    let s = EllipseState { background_color: Color::white(), border: Some((1, Color::black())) };
    let b = Rect::new(0, 0, 10, 10);
    s.draw(b, b, &mut rb);
    assert_eq!(
        rb.items,
        vec![
            DisplayItem::Fill { rect: b, clip: b, color: Color::black() },
            DisplayItem::Fill { rect: b, clip: Rect::new(2, 2, 6, 6), color: Color::white() },
        ]
    );
}

#[test]
fn outlines_and_lines() {
    let mut rb = RenderBuilder::new();
    draw_rect_outline(Rect::new(1, 2, 3, 4), Color::white(), &mut rb);
    draw_horizontal_line(5, 10, 30, Color::black(), &mut rb);
    assert_eq!(
        rb.items,
        vec![
            DisplayItem::Outline { rect: Rect::new(1, 2, 3, 4), color: Color::white() },
            DisplayItem::Outline { rect: Rect::new(10, 5, 20, 0), color: Color::black() },
        ]
    );
}

#[test]
fn draw_pass_walks_tree_order() {
    let mut t = WidgetTree::new(Container::Free);
    let mut a = t.new_builder();
    a.set_drawable(EllipseState::new());
    let a_id = a.id();
    t.add_child(0, a).unwrap();
    let plain = t.new_builder();
    t.add_child(0, plain).unwrap();
    let mut b = t.new_builder();
    b.set_drawable(EllipseState { background_color: Color::white(), border: None });
    let b_id = b.id();
    t.add_child(a_id, b).unwrap();
    let ra = Rect::new(0, 0, 10, 10);
    let rb = Rect::new(2, 2, 4, 4);
    let mut out = RenderBuilder::new();
    t.draw(&vec![(b_id, rb), (a_id, ra)], &mut out);
    assert_eq!(
        out.items,
        vec![
            DisplayItem::Fill { rect: ra, clip: ra, color: Color::black() },
            DisplayItem::Fill { rect: rb, clip: rb, color: Color::white() },
        ]
    );
}
