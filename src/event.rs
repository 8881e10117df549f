//! Events, their targets, and the queue that delivers them tick by tick.
use vstd::prelude::*;
use crate::scroll::{ScrollDelta, WidgetScroll};

verus! {

/// The type of an event; a handler is registered for exactly one.
#[derive(Clone, Copy, Debug, PartialEq, Eq, Structural)]
pub enum EventType {
    MouseWheel,
    ScrollParent,
    WidgetScroll,
    Custom(u64),
}

/// Which widgets an event is addressed to.
#[derive(Clone, Copy, Debug, PartialEq, Eq, Structural)]
pub enum Target {
    /// That widget only.
    Widget(u64),
    /// The widget and all its descendants, depth first.
    SubTree(u64),
    /// Every widget of the tree.
    Broadcast,
}

/// What an event carries.
#[derive(Clone, Copy, Debug, PartialEq, Eq, Structural)]
pub enum EventData {
    /// A wheel movement over a widget.
    MouseWheel(ScrollDelta),
    /// For a scroll container: a child attached (`Some`) or left (`None`).
    ChildAttached(Option<u64>),
    /// For a scroll container: a wheel movement over it.
    ScrollWheel(ScrollDelta),
    /// For a scrolled child: move within the parent.
    Scroll(WidgetScroll),
    /// An event of the application's own, by its type tag.
    Custom(u64),
}

pub open spec fn type_of(d: EventData) -> EventType {
    match d {
        EventData::MouseWheel(_) => EventType::MouseWheel,
        EventData::ChildAttached(_) => EventType::ScrollParent,
        EventData::ScrollWheel(_) => EventType::ScrollParent,
        EventData::Scroll(_) => EventType::WidgetScroll,
        EventData::Custom(t) => EventType::Custom(t),
    }
}

impl EventData {
    /// The type that handlers register for to receive this event.
    pub fn event_type(&self) -> (r: EventType)
        ensures
            r == type_of(*self),
    {
        match self {
            EventData::MouseWheel(_) => EventType::MouseWheel,
            EventData::ChildAttached(_) => EventType::ScrollParent,
            EventData::ScrollWheel(_) => EventType::ScrollParent,
            EventData::Scroll(_) => EventType::WidgetScroll,
            EventData::Custom(t) => EventType::Custom(*t),
        }
    }
}

/// An event and where it goes.
#[derive(Clone, Copy, Debug, PartialEq, Eq, Structural)]
pub struct Event {
    pub target: Target,
    pub data: EventData,
}

/// Events waiting for delivery, oldest first. One tick delivers the events that were
/// queued when it began; events pushed while they are handled wait for the next tick.
pub struct EventQueue {
    pub pending: Vec<Event>,
}

impl EventQueue {
    pub fn new() -> (q: EventQueue)
        ensures
            q.pending@.len() == 0,
    {
        EventQueue { pending: Vec::new() }
    }

    /// Queues `e` after every event already waiting.
    pub fn push(&mut self, target: Target, data: EventData)
        ensures
            final(self).pending@ == old(self).pending@.push(Event { target, data }),
    {
        self.pending.push(Event { target, data });
    }

    /// Takes the batch for one tick: every waiting event, in the order pushed.
    pub fn take_tick(&mut self) -> (batch: Vec<Event>)
        ensures
            batch@ == old(self).pending@,
            final(self).pending@.len() == 0,
    {
        let mut batch: Vec<Event> = Vec::new();
        std::mem::swap(&mut batch, &mut self.pending);
        batch
    }

    pub fn is_empty(&self) -> (r: bool)
        ensures
            r == (self.pending@.len() == 0),
    {
        self.pending.len() == 0
    }
}

} // verus!
