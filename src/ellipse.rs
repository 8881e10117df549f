//! Ellipse drawing and hit-testing.
use vstd::prelude::*;
use crate::geometry::{Point, Rect};
use crate::draw::{Color, DisplayItem, RenderBuilder};

verus! {

/// Whether `p` satisfies `((x-cx)/rx)^2 + ((y-cy)/ry)^2 <= 1` for the ellipse inscribed in
/// `b`, with center `(cx, cy)` and radii `rx = width/2`, `ry = height/2`. Both sides are
/// multiplied by `(2 rx)^2 (2 ry)^2` so that everything stays in integers; an ellipse with
/// a zero or negative radius contains no point.
pub open spec fn inside_ellipse(b: Rect, p: Point) -> bool {
    let w = b.width as int;
    let h = b.height as int;
    let dx = 2 * p.x - (2 * b.left + w);
    let dy = 2 * p.y - (2 * b.top + h);
    w > 0 && h > 0 && dx * dx * (h * h) + dy * dy * (w * w) <= (w * w) * (h * h)
}

proof fn lemma_outside_when_far(a: int, w: int, c: int, h: int)
    requires
        w > 0,
        h > 0,
        a * a > w * w,
    ensures
        a * a * (h * h) + c * c * (w * w) > (w * w) * (h * h),
{
    assert(a * a * (h * h) > (w * w) * (h * h)) by (nonlinear_arith)
        requires a * a > w * w, h > 0;
    assert(c * c * (w * w) >= 0) by (nonlinear_arith);
}

fn point_inside_ellipse(b: Rect, p: Point) -> (r: bool)
    ensures
        r == inside_ellipse(b, p),
{
    if b.width <= 0 || b.height <= 0 {
        return false;
    }
    let w: i64 = b.width as i64;
    let h: i64 = b.height as i64;
    let dx: i64 = 2 * (p.x as i64) - (2 * (b.left as i64) + w);
    let dy: i64 = 2 * (p.y as i64) - (2 * (b.top as i64) + h);
    let adx: i64 = if dx < 0 { -dx } else { dx };
    let ady: i64 = if dy < 0 { -dy } else { dy };
    if adx > w {
        proof {
            assert(adx * adx > w * w) by (nonlinear_arith)
                requires adx > w, w > 0;
            assert(dx * dx == adx * adx) by (nonlinear_arith)
                requires adx == dx || adx == -dx;
            lemma_outside_when_far(dx as int, w as int, dy as int, h as int);
        }
        return false;
    }
    if ady > h {
        proof {
            assert(ady * ady > h * h) by (nonlinear_arith)
                requires ady > h, h > 0;
            assert(dy * dy == ady * ady) by (nonlinear_arith)
                requires ady == dy || ady == -dy;
            lemma_outside_when_far(dy as int, h as int, dx as int, w as int);
        }
        return false;
    }
    proof {
        assert(w * w <= 0x4000_0000_0000_0000) by (nonlinear_arith)
            requires 0 < w <= 0x8000_0000;
        assert(h * h <= 0x4000_0000_0000_0000) by (nonlinear_arith)
            requires 0 < h <= 0x8000_0000;
    }
    let w2: i128 = (w as i128) * (w as i128);
    let h2: i128 = (h as i128) * (h as i128);
    proof {
        assert(dx * dx <= w2) by (nonlinear_arith)
            requires w2 == w * w, adx == dx || adx == -dx, 0 <= adx <= w;
        assert(dy * dy <= h2) by (nonlinear_arith)
            requires h2 == h * h, ady == dy || ady == -dy, 0 <= ady <= h;
        assert(0 <= dx * dx) by (nonlinear_arith);
        assert(0 <= dy * dy) by (nonlinear_arith);
        assert((dx * dx) * h2 <= w2 * h2) by (nonlinear_arith)
            requires dx * dx <= w2, 0 <= h2;
        assert((dy * dy) * w2 <= h2 * w2) by (nonlinear_arith)
            requires dy * dy <= h2, 0 <= w2;
        assert(w2 * h2 <= 0x1000_0000_0000_0000_0000_0000_0000_0000) by (nonlinear_arith)
            requires 0 <= w2 <= 0x4000_0000_0000_0000, 0 <= h2 <= 0x4000_0000_0000_0000;
    }
    let dx2: i128 = (dx as i128) * (dx as i128);
    let dy2: i128 = (dy as i128) * (dy as i128);
    dx2 * h2 + dy2 * w2 <= w2 * h2
}

/// Whether `cursor` lies inside the ellipse inscribed in `bounds`.
pub fn cursor_hit(bounds: Rect, cursor: Point) -> (r: bool)
    ensures
        r == inside_ellipse(bounds, cursor),
{
    point_inside_ellipse(bounds, cursor)
}

/// Draw state of an ellipse: a fill color and an optional border of a width and a color.
#[derive(Clone, Copy, Debug)]
pub struct EllipseState {
    pub background_color: Color,
    pub border: Option<(i32, Color)>,
}

/// Border widths below this are drawn at this width.
pub const MIN_BORDER_WIDTH: i32 = 2;

pub open spec fn border_width(width: i32) -> i32 {
    if width < MIN_BORDER_WIDTH {
        MIN_BORDER_WIDTH
    } else {
        width
    }
}

/// The display items that an ellipse state draws for `bounds`.
pub open spec fn ellipse_items(s: EllipseState, bounds: Rect) -> Seq<DisplayItem> {
    match s.border {
        Some((width, color)) => {
            let bw = border_width(width) as int;
            seq![
                DisplayItem::Fill { rect: bounds, clip: bounds, color },
                DisplayItem::Fill {
                    rect: bounds,
                    clip: Rect {
                        left: (bounds.left + bw) as i32,
                        top: (bounds.top + bw) as i32,
                        width: (bounds.width - 2 * bw) as i32,
                        height: (bounds.height - 2 * bw) as i32,
                    },
                    color: s.background_color,
                },
            ]
        },
        None => seq![DisplayItem::Fill { rect: bounds, clip: bounds, color: s.background_color }],
    }
}

/// Whether shrinking `bounds` by the border width stays within `i32`.
pub open spec fn ellipse_fits(s: EllipseState, bounds: Rect) -> bool {
    match s.border {
        Some((width, _)) => {
            let bw = border_width(width) as int;
            i32::MIN <= bounds.left + bw <= i32::MAX && i32::MIN <= bounds.top + bw <= i32::MAX
                && i32::MIN <= bounds.width - 2 * bw <= i32::MAX && i32::MIN <= bounds.height - 2
                * bw <= i32::MAX
        },
        None => true,
    }
}

fn push_ellipse(renderer: &mut RenderBuilder, rect: Rect, clip: Rect, color: Color)
    ensures
        final(renderer).items@ == old(renderer).items@.push(DisplayItem::Fill { rect, clip, color }),
{
    renderer.push(DisplayItem::Fill { rect, clip, color });
}

impl EllipseState {
    pub fn new() -> (r: EllipseState)
        ensures
            r.background_color == Color::black_spec(),
            r.border.is_none(),
    {
        EllipseState { background_color: Color::black(), border: None }
    }

    /// Draws the ellipse: with a border, the border color filled over the bounds, then the
    /// background clipped to the bounds shrunk by the border width; else the background.
    pub fn draw(&self, bounds: Rect, _clip: Rect, renderer: &mut RenderBuilder)
        requires
            ellipse_fits(*self, bounds),
        ensures
            final(renderer).items@ == old(renderer).items@ + ellipse_items(*self, bounds),
    {
        let ghost before = renderer.items@;
        match self.border {
            Some((width, color)) => {
                let width = if width < MIN_BORDER_WIDTH {
                    MIN_BORDER_WIDTH
                } else {
                    width
                };
                push_ellipse(renderer, bounds, bounds, color);
                push_ellipse(renderer, bounds, bounds.shrink_bounds(width), self.background_color);
            },
            None => {
                push_ellipse(renderer, bounds, bounds, self.background_color);
            },
        }
        assert(renderer.items@ =~= before + ellipse_items(*self, bounds));
    }
}

} // verus!
