//! The scroll container: a widget with exactly one child, which mouse-wheel events move
//! within the parent's bounds.
use vstd::prelude::*;
use crate::geometry::{Point, Rect};
use crate::event::EventType;
use crate::tree::{Container, WidgetBuilder, WidgetTree};

verus! {

/// A mouse-wheel movement, in lines or in pixels.
#[derive(Clone, Copy, Debug, PartialEq, Eq, Structural)]
pub enum ScrollDelta {
    LineDelta(i32, i32),
    PixelDelta(i32, i32),
}

/// Pixels that the content moves for one unit of wheel movement.
pub const SCROLL_STEP: i64 = 13;

/// The movement of a wheel event, as the same amount on each axis whatever its unit.
pub open spec fn scroll_of(d: ScrollDelta) -> Point {
    match d {
        ScrollDelta::LineDelta(x, y) => Point { x, y },
        ScrollDelta::PixelDelta(x, y) => Point { x, y },
    }
}

pub fn get_scroll(d: ScrollDelta) -> (r: Point)
    ensures
        r == scroll_of(d),
{
    match d {
        ScrollDelta::LineDelta(x, y) => Point::new(x, y),
        ScrollDelta::PixelDelta(x, y) => Point::new(x, y),
    }
}

/// `v` clamped to `[lo, 0]`; with `lo > 0` the result is 0.
pub open spec fn clamp_offset(v: int, lo: int) -> int {
    let m = if v < lo {
        lo
    } else {
        v
    };
    if m > 0 {
        0
    } else {
        m
    }
}

/// A scrolled child never moves past its edges: where the child is larger than the parent
/// (`lo = parent size - child size <= 0`), the clamped offset lies in `[lo, 0]`, equals the
/// requested offset when that lies there, and is `lo` when more was asked.
pub proof fn lemma_scroll_clamp(v: int, lo: int)
    requires
        lo <= 0,
    ensures
        lo <= clamp_offset(v, lo) <= 0,
        lo <= v <= 0 ==> clamp_offset(v, lo) == v,
        v < lo ==> clamp_offset(v, lo) == lo,
        v > 0 ==> clamp_offset(v, lo) == 0,
{
}

/// A scroll event for the scrolled child: the wheel movement and the parent's bounds.
#[derive(Clone, Copy, Debug, PartialEq, Eq, Structural)]
pub struct WidgetScroll {
    pub event: ScrollDelta,
    pub parent_bounds: Rect,
}

/// The scrolled child's handler: keeps the offset of the child from the parent's corner.
#[derive(Clone, Copy, Debug, PartialEq, Eq, Structural)]
pub struct WidgetScrollHandler {
    pub offset_x: i64,
    pub offset_y: i64,
}

/// The positions that a scroll step asks the solver to suggest for the child's left and
/// top edges.
#[derive(Clone, Copy, Debug, PartialEq, Eq, Structural)]
pub struct ScrollEdit {
    pub left: i64,
    pub top: i64,
}

impl WidgetScrollHandler {
    pub fn new() -> (r: WidgetScrollHandler)
        ensures
            r.offset_x == 0,
            r.offset_y == 0,
    {
        WidgetScrollHandler { offset_x: 0, offset_y: 0 }
    }

    /// Whether the offset lies where scrolling can leave it: each axis at most 0 and no
    /// lower than a 32-bit difference of sizes can reach.
    pub open spec fn in_range(&self) -> bool {
        -0x1_0000_0000 <= self.offset_x <= 0 && -0x1_0000_0000 <= self.offset_y <= 0
    }

    /// Moves the child by `(dx, dy)` pixels, clamping each axis of the offset to
    /// `[parent size - child size, 0]`, and returns the child's new left and top edges.
    pub fn scroll_by(&mut self, dx: i64, dy: i64, parent_bounds: Rect, widget_bounds: Rect) -> (r:
        ScrollEdit)
        requires
            old(self).in_range(),
        ensures
            final(self).in_range(),
            final(self).offset_x == clamp_offset(
                old(self).offset_x + dx,
                parent_bounds.width - widget_bounds.width,
            ),
            final(self).offset_y == clamp_offset(
                old(self).offset_y + dy,
                parent_bounds.height - widget_bounds.height,
            ),
            r.left == parent_bounds.left + final(self).offset_x,
            r.top == parent_bounds.top + final(self).offset_y,
    {
        let max_x: i64 = parent_bounds.width as i64 - widget_bounds.width as i64;
        let max_y: i64 = parent_bounds.height as i64 - widget_bounds.height as i64;
        let x: i128 = self.offset_x as i128 + dx as i128;
        let y: i128 = self.offset_y as i128 + dy as i128;
        let x: i128 = if x < max_x as i128 { max_x as i128 } else { x };
        let x: i128 = if x > 0 { 0 } else { x };
        let y: i128 = if y < max_y as i128 { max_y as i128 } else { y };
        let y: i128 = if y > 0 { 0 } else { y };
        self.offset_x = x as i64;
        self.offset_y = y as i64;
        ScrollEdit {
            left: parent_bounds.left as i64 + self.offset_x,
            top: parent_bounds.top as i64 + self.offset_y,
        }
    }

    /// Handles a scroll event: the wheel movement, `SCROLL_STEP` pixels per unit, moves the
    /// child within `event.parent_bounds`.
    pub fn handle(&mut self, event: &WidgetScroll, widget_bounds: Rect) -> (r: ScrollEdit)
        requires
            old(self).in_range(),
        ensures
            final(self).in_range(),
            final(self).offset_x == clamp_offset(
                old(self).offset_x + SCROLL_STEP * scroll_of(event.event).x,
                event.parent_bounds.width - widget_bounds.width,
            ),
            final(self).offset_y == clamp_offset(
                old(self).offset_y + SCROLL_STEP * scroll_of(event.event).y,
                event.parent_bounds.height - widget_bounds.height,
            ),
            r.left == event.parent_bounds.left + final(self).offset_x,
            r.top == event.parent_bounds.top + final(self).offset_y,
    {
        let s = get_scroll(event.event);
        self.scroll_by(
            SCROLL_STEP * s.x as i64,
            SCROLL_STEP * s.y as i64,
            event.parent_bounds,
            widget_bounds,
        )
    }
}

/// A scroll container refused a second child.
#[derive(Clone, Copy, Debug, PartialEq, Eq, Structural)]
pub enum ScrollError {
    MoreThanOneChild,
}

/// The scroll container's own handler: remembers its child and forwards wheel events to
/// it.
#[derive(Clone, Copy, Debug, PartialEq, Eq, Structural)]
pub struct ScrollParent {
    pub scrollable: Option<u64>,
}

impl ScrollParent {
    pub fn new() -> (r: ScrollParent)
        ensures
            r.scrollable.is_none(),
    {
        ScrollParent { scrollable: None }
    }

    /// A child attached (`Some`) or left (`None`). A second child is refused and the
    /// state kept.
    pub fn child_attached(&mut self, child: Option<u64>) -> (r: Result<(), ScrollError>)
        ensures
            old(self).scrollable.is_some() && child.is_some() ==> r == Err::<(), ScrollError>(
                ScrollError::MoreThanOneChild,
            ) && *final(self) == *old(self),
            !(old(self).scrollable.is_some() && child.is_some()) ==> r is Ok
                && final(self).scrollable == child,
    {
        if self.scrollable.is_some() && child.is_some() {
            return Err(ScrollError::MoreThanOneChild);
        }
        self.scrollable = child;
        Ok(())
    }

    /// A wheel event over the container: with a child, the scroll event to send it.
    pub fn mouse_wheel(&self, delta: ScrollDelta, bounds: Rect) -> (r: Option<(u64, WidgetScroll)>)
        ensures
            r == match self.scrollable {
                Some(c) => Some((c, WidgetScroll { event: delta, parent_bounds: bounds })),
                None => None,
            },
    {
        match self.scrollable {
            Some(c) => Some((c, WidgetScroll { event: delta, parent_bounds: bounds })),
            None => None,
        }
    }
}

/// A builder for a scroll container.
pub struct ScrollBuilder {
    pub widget: WidgetBuilder,
}

impl ScrollBuilder {
    /// A widget with the scroll container policy, its own handler, and a handler that turns
    /// wheel events over it into scroll events for its child.
    pub fn new(tree: &mut WidgetTree) -> (r: ScrollBuilder)
        requires
            old(tree).wf(),
            old(tree).next_id < u64::MAX,
        ensures
            final(tree).wf(),
            final(tree).nodes == old(tree).nodes,
            final(tree).constraints == old(tree).constraints,
            final(tree).next_id == old(tree).next_id + 1,
            r.widget.id == old(tree).next_id,
            r.widget.container == Container::Scroll,
            r.widget.handlers@ == seq![EventType::ScrollParent, EventType::MouseWheel],
            r.widget.constraints@.len() == 0,
    {
        let mut widget = tree.new_builder();
        widget.set_container(Container::Scroll);
        widget.add_handler(EventType::ScrollParent);
        widget.add_handler(EventType::MouseWheel);
        assert(widget.handlers@ =~= seq![EventType::ScrollParent, EventType::MouseWheel]);
        ScrollBuilder { widget }
    }
}

} // verus!
