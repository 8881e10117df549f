use limn_core::dispatch::{container_event, run_tick, Effect, HandlerStates};
use limn_core::event::{Event, EventData, EventQueue, EventType, Target};
use limn_core::geometry::Rect;
use limn_core::scroll::{ScrollDelta, ScrollError, WidgetScroll};
use limn_core::tree::{Container, Delivery, WidgetTree};

#[test]
fn deliveries_follow_tree_then_registration_order() {
    let mut t = WidgetTree::new(Container::Free);
    let mut a = t.new_builder();
    a.add_handler(EventType::Custom(7));
    a.add_handler(EventType::Custom(8));
    a.add_handler(EventType::Custom(7));
    let a_id = a.id();
    t.add_child(0, a).unwrap();
    let mut b = t.new_builder();
    b.add_handler(EventType::Custom(7));
    let b_id = b.id();
    t.add_child(a_id, b).unwrap();
    let mut c = t.new_builder();
    c.add_handler(EventType::Custom(7));
    t.add_child(0, c).unwrap();
    assert_eq!(
        t.deliveries(Target::SubTree(a_id), EventType::Custom(7)),
        vec![
            Delivery { widget: a_id, handler: 0 },
            Delivery { widget: a_id, handler: 2 },
            Delivery { widget: b_id, handler: 0 },
        ]
    );
    assert_eq!(
        t.deliveries(Target::Widget(a_id), EventType::Custom(8)),
        vec![Delivery { widget: a_id, handler: 1 }]
    );
    assert!(t.deliveries(Target::Widget(99), EventType::Custom(7)).is_empty());
    assert_eq!(t.deliveries(Target::Broadcast, EventType::Custom(7)).len(), 4);
}

#[test]
fn scroll_flow_through_handlers() {
    let mut s = HandlerStates::new();
    let parent = Rect::new(0, 0, 100, 100);
    let child = Rect::new(0, 0, 300, 100);
    assert_eq!(s.handle(1, EventData::ChildAttached(Some(2)), parent), Effect::Nothing);
    assert_eq!(
        s.handle(1, EventData::ChildAttached(Some(3)), parent),
        Effect::Fatal(ScrollError::MoreThanOneChild)
    );
    let wheel = ScrollDelta::PixelDelta(-4, 0);
    assert_eq!(
        s.handle(1, EventData::MouseWheel(wheel), parent),
        Effect::Push(Target::Widget(1), EventData::ScrollWheel(wheel))
    );
    let fwd = s.handle(1, EventData::ScrollWheel(wheel), parent);
    let ws = WidgetScroll { event: wheel, parent_bounds: parent };
    assert_eq!(fwd, Effect::Push(Target::Widget(2), EventData::Scroll(ws)));
    assert_eq!(s.handle(2, EventData::Scroll(ws), child), Effect::Edit { widget: 2, left: -52, top: 0 });
    let big = WidgetScroll { event: ScrollDelta::PixelDelta(-100, 0), parent_bounds: parent };
    assert_eq!(s.handle(2, EventData::Scroll(big), child), Effect::Edit { widget: 2, left: -200, top: 0 });
    assert_eq!(s.handle(1, EventData::ChildAttached(None), parent), Effect::Nothing);
    assert_eq!(s.handle(1, EventData::ScrollWheel(wheel), parent), Effect::Nothing);
    assert_eq!(s.handle(1, EventData::Custom(3), parent), Effect::Nothing);
}

#[test]
fn container_events() {
    assert_eq!(
        container_event(Container::Scroll, 4, Some(5)),
        Some((Target::Widget(4), EventData::ChildAttached(Some(5))))
    );
    assert_eq!(container_event(Container::Free, 4, Some(5)), None);
    let mut t = WidgetTree::new(Container::Scroll);
    assert_eq!(t.container_of(0), Some(Container::Scroll));
    assert_eq!(t.container_of(1), None);
    let b = t.new_builder();
    t.add_child(0, b).unwrap();
    assert_eq!(t.container_of(1), Some(Container::Free));
}

#[test]
fn tick_runs_batch_in_order() {
    let mut t = WidgetTree::new(Container::Free);
    let s = limn_core::scroll::ScrollBuilder::new(&mut t).widget;
    let s_id = s.id();
    t.add_child(0, s).unwrap();
    let c = t.new_builder();
    let c_id = c.id();
    t.add_child(s_id, c).unwrap();
    let mut states = HandlerStates::new();
    let mut q = EventQueue::new();
    let (target, data) = container_event(Container::Scroll, s_id, Some(c_id)).unwrap();
    q.push(target, data);
    let wheel = ScrollDelta::LineDelta(0, -10);
    q.push(Target::Widget(s_id), EventData::MouseWheel(wheel));
    let parent = Rect::new(0, 0, 100, 100);
    let bounds = vec![(s_id, parent), (c_id, Rect::new(0, 0, 100, 400))];
    let batch: Vec<Event> = q.take_tick();
    let effects = run_tick(&t, &mut states, &batch, &bounds);
    assert_eq!(
        effects,
        vec![Effect::Nothing, Effect::Push(Target::Widget(s_id), EventData::ScrollWheel(wheel))]
    );
    let batch = vec![Event { target: Target::Widget(s_id), data: EventData::ScrollWheel(wheel) }];
    let effects = run_tick(&t, &mut states, &batch, &bounds);
    let ws = WidgetScroll { event: wheel, parent_bounds: parent };
    assert_eq!(effects, vec![Effect::Push(Target::Widget(c_id), EventData::Scroll(ws))]);
    let batch = vec![Event { target: Target::Widget(c_id), data: EventData::Scroll(ws) }];
    let effects = run_tick(&t, &mut states, &batch, &bounds);
    assert_eq!(effects, vec![Effect::Edit { widget: c_id, left: 0, top: -130 }]);
    let batch = vec![Event { target: Target::Widget(99), data: EventData::Scroll(ws) }];
    assert!(run_tick(&t, &mut states, &batch, &bounds).is_empty());
}
