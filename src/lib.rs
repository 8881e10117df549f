//! A retained-mode widget toolkit core: a widget tree with constraint bookkeeping for the
//! layout solver, typed event delivery to widgets and subtrees, the scroll container, and
//! the draw protocol for ellipses and outlines. Coordinates are integer device pixels.

pub mod geometry;
pub mod draw;
pub mod ellipse;
pub mod layout;
pub mod event;
pub mod tree;
pub mod scroll;
pub mod dispatch;
