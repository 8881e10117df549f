use limn_core::event::{EventData, EventQueue, EventType, Target};
use limn_core::layout::{ConstraintKind, Strength};
use limn_core::scroll::{ScrollBuilder, ScrollDelta};
use limn_core::tree::{Container, TreeError, WidgetTree};

fn build() -> (WidgetTree, u64, u64, u64) {
    let mut t = WidgetTree::new(Container::Free);
    let a = t.new_builder();
    let a_id = a.id();
    t.add_child(0, a).unwrap();
    let b = t.new_builder();
    let b_id = b.id();
    t.add_child(a_id, b).unwrap();
    let c = t.new_builder();
    let c_id = c.id();
    t.add_child(0, c).unwrap();
    (t, a_id, b_id, c_id)
}

#[test]
fn subtree_dispatch_is_depth_first() {
    let (t, a, b, c) = build();
    assert_eq!(t.targets(Target::SubTree(0)), vec![0, a, b, c]);
    assert_eq!(t.targets(Target::SubTree(a)), vec![a, b]);
    assert_eq!(t.targets(Target::Widget(c)), vec![c]);
    assert_eq!(t.targets(Target::Broadcast), vec![0, a, b, c]);
}

#[test]
fn dispatch_to_removed_widget_is_noop() {
    let (mut t, a, b, _c) = build();
    let removed = t.remove_child(0, a).unwrap();
    assert_eq!(removed.widgets, vec![a, b]);
    assert!(t.targets(Target::Widget(b)).is_empty());
    assert!(t.targets(Target::SubTree(a)).is_empty());
}

#[test]
fn removal_drops_constraints() {
    let mut t = WidgetTree::new(Container::Free);
    let mut a = t.new_builder();
    let a_id = a.id();
    a.add_constraint(ConstraintKind::Width(10), Strength::Required);
    a.add_constraint(ConstraintKind::AlignLeft(0), Strength::Weak);
    t.add_child(0, a).unwrap();
    let mut b = t.new_builder();
    let b_id = b.id();
    b.add_constraint(ConstraintKind::AlignTop(a_id), Strength::Strong);
    t.add_child(0, b).unwrap();
    assert_eq!(t.constraints.len(), 3);
    let removed = t.remove_child(0, a_id).unwrap();
    assert_eq!(removed.constraints.len(), 3);
    assert!(t.constraints.is_empty());
    assert_eq!(t.targets(Target::Broadcast), vec![0, b_id]);
}

#[test]
fn add_child_errors() {
    let mut t = WidgetTree::new(Container::Free);
    let a = t.new_builder();
    assert_eq!(t.add_child(99, a), Err(TreeError::NoSuchWidget));
    let mut a = t.new_builder();
    a.add_constraint(ConstraintKind::Width(10), Strength::Required);
    a.add_constraint(ConstraintKind::Width(20), Strength::Required);
    assert_eq!(t.add_child(0, a), Err(TreeError::ConflictingRequired));
    let mut a = t.new_builder();
    a.add_constraint(ConstraintKind::AlignLeft(77), Strength::Weak);
    assert_eq!(t.add_child(0, a), Err(TreeError::BadConstraint));
    let mut a = t.new_builder();
    a.add_constraint(ConstraintKind::Width(10), Strength::Strong);
    a.add_constraint(ConstraintKind::Width(20), Strength::Required);
    let a_id = a.id();
    assert_eq!(t.add_child(0, a), Ok(()));
    let mut dup = t.new_builder();
    dup.id = a_id;
    assert_eq!(t.add_child(0, dup), Err(TreeError::DuplicateId));
    let mut foreign = t.new_builder();
    foreign.id = 1000;
    assert_eq!(t.add_child(0, foreign), Err(TreeError::ForeignId));
    assert_eq!(t.remove_child(a_id, 0).map(|r| r.widgets), Err(TreeError::NotAChild));
    assert_eq!(t.remove_child(0, 500).map(|r| r.widgets), Err(TreeError::NoSuchWidget));
}

#[test]
fn scroll_container_takes_one_child() {
    let mut t = WidgetTree::new(Container::Free);
    let s = ScrollBuilder::new(&mut t).widget;
    let s_id = s.id();
    t.add_child(0, s).unwrap();
    let c = t.new_builder();
    let c_id = c.id();
    t.add_child(s_id, c).unwrap();
    assert_eq!(t.constraints.len(), 2);
    assert_eq!(t.constraints[0].kind, ConstraintKind::AlignLeft(s_id));
    assert_eq!(t.constraints[0].strength, Strength::Weak);
    assert_eq!(t.constraints[1].kind, ConstraintKind::AlignTop(s_id));
    let i = t.find(c_id).unwrap();
    assert_eq!(t.matching_handlers(i, EventType::WidgetScroll), vec![0]);
    let second = t.new_builder();
    assert_eq!(t.add_child(s_id, second), Err(TreeError::ScrollHasChild));
    t.remove_child(s_id, c_id).unwrap();
    assert!(t.constraints.is_empty());
    let again = t.new_builder();
    assert_eq!(t.add_child(s_id, again), Ok(()));
}

#[test]
fn handlers_match_exact_type_in_order() {
    let mut t = WidgetTree::new(Container::Free);
    let mut a = t.new_builder();
    a.add_handler(EventType::Custom(1));
    a.add_handler(EventType::MouseWheel);
    a.add_handler(EventType::Custom(1));
    a.add_handler(EventType::Custom(2));
    let a_id = a.id();
    t.add_child(0, a).unwrap();
    let i = t.find(a_id).unwrap();
    assert_eq!(t.matching_handlers(i, EventType::Custom(1)), vec![0, 2]);
    assert_eq!(t.matching_handlers(i, EventType::Custom(3)), Vec::<usize>::new());
}

#[test]
fn queue_defers_events_pushed_during_a_tick() {
    let mut q = EventQueue::new();
    q.push(Target::Widget(1), EventData::Custom(1));
    q.push(Target::Broadcast, EventData::MouseWheel(ScrollDelta::LineDelta(0, -1)));
    let batch = q.take_tick();
    assert_eq!(batch.len(), 2);
    assert_eq!(batch[0].data, EventData::Custom(1));
    assert_eq!(batch[1].data.event_type(), EventType::MouseWheel);
    q.push(Target::Widget(2), EventData::Custom(2));
    assert!(!q.is_empty());
    let next = q.take_tick();
    assert_eq!(next.len(), 1);
    assert!(q.is_empty());
}

#[test]
fn parent_lookup() {
    let (t, a, b, c) = build();
    assert_eq!(t.parent(0), None);
    assert_eq!(t.parent(a), Some(0));
    assert_eq!(t.parent(b), Some(a));
    assert_eq!(t.parent(c), Some(0));
    assert_eq!(t.parent(42), None);
}
