//! The draw protocol: a per-frame accumulator of display items.
use vstd::prelude::*;
use crate::geometry::Rect;

verus! {

/// An RGBA color, eight bits per channel.
#[derive(Clone, Copy, Debug, PartialEq, Eq, Structural)]
pub struct Color {
    pub r: u8,
    pub g: u8,
    pub b: u8,
    pub a: u8,
}

impl Color {
    pub open spec fn black_spec() -> Color {
        Color { r: 0, g: 0, b: 0, a: 255 }
    }

    /// Opaque black.
    pub fn black() -> (c: Color)
        ensures
            c == Color::black_spec(),
    {
        Color { r: 0, g: 0, b: 0, a: 255 }
    }

    /// Opaque white.
    pub fn white() -> (c: Color)
        ensures
            c == (Color { r: 255, g: 255, b: 255, a: 255 }),
    {
        Color { r: 255, g: 255, b: 255, a: 255 }
    }
}

/// One primitive of a display list.
#[derive(Clone, Copy, Debug, PartialEq, Eq, Structural)]
pub enum DisplayItem {
    /// A filled rectangle, clipped to `clip`.
    Fill { rect: Rect, clip: Rect, color: Color },
    /// A solid one-pixel outline around `rect`.
    Outline { rect: Rect, color: Color },
}

/// What widgets draw into during one frame; the render adapter turns it into a display list.
pub struct RenderBuilder {
    pub items: Vec<DisplayItem>,
}

impl RenderBuilder {
    pub fn new() -> (r: RenderBuilder)
        ensures
            r.items@ == Seq::<DisplayItem>::empty(),
    {
        RenderBuilder { items: Vec::new() }
    }

    pub fn push(&mut self, item: DisplayItem)
        ensures
            final(self).items@ == old(self).items@.push(item),
    {
        self.items.push(item);
    }
}

/// Draws a one-pixel solid outline around `rect`.
pub fn draw_rect_outline(rect: Rect, color: Color, renderer: &mut RenderBuilder)
    ensures
        final(renderer).items@ == old(renderer).items@.push(DisplayItem::Outline { rect, color }),
{
    renderer.push(DisplayItem::Outline { rect, color });
}

/// Draws a horizontal line at `baseline` from `start` to `end`, as a flat outline.
pub fn draw_horizontal_line(
    baseline: i32,
    start: i32,
    end: i32,
    color: Color,
    renderer: &mut RenderBuilder,
)
    requires
        i32::MIN <= end - start <= i32::MAX,
    ensures
        final(renderer).items@ == old(renderer).items@.push(
            DisplayItem::Outline {
                rect: Rect { left: start, top: baseline, width: (end - start) as i32, height: 0 },
                color,
            },
        ),
{
    draw_rect_outline(Rect::new(start, baseline, end - start, 0), color, renderer);
}

} // verus!
