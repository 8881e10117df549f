use limn_core::layout::{dirty_widgets, Strength, ValueCache, Var, VarKind};

fn v(w: u64, kind: VarKind) -> Var {
    Var { widget: w, kind }
}

#[test]
fn solve_reports_changes_then_nothing() {
    let mut c = ValueCache::new();
    let batch = vec![(v(1, VarKind::Left), 0), (v(1, VarKind::Width), 300)];
    let first = c.solve(&batch);
    assert_eq!(first, vec![v(1, VarKind::Left), v(1, VarKind::Width)]);
    let second = c.solve(&batch);
    assert!(second.is_empty());
}

#[test]
fn solve_reports_only_changed() {
    let mut c = ValueCache::new();
    c.solve(&vec![(v(1, VarKind::Left), 0), (v(1, VarKind::Top), 5)]);
    let changed = c.solve(&vec![(v(1, VarKind::Left), -50), (v(1, VarKind::Top), 5)]);
    assert_eq!(changed, vec![v(1, VarKind::Left)]);
    assert_eq!(c.get(v(1, VarKind::Left)), Some(-50));
    assert_eq!(c.get(v(1, VarKind::Top)), Some(5));
    assert_eq!(c.get(v(2, VarKind::Top)), None);
}

#[test]
fn strength_order() {
    assert!(Strength::Required.overrides(&Strength::Strong));
    assert!(Strength::Strong.overrides(&Strength::Medium));
    assert!(Strength::Medium.overrides(&Strength::Weak));
    assert!(!Strength::Weak.overrides(&Strength::Weak));
    assert_eq!(Strength::Weak.rank(), 0);
    assert_eq!(Strength::Required.rank(), 3);
}

#[test]
fn dirty_widgets_once_each() {
    let changed = vec![v(3, VarKind::Left), v(1, VarKind::Top), v(3, VarKind::Width)];
    assert_eq!(dirty_widgets(&changed), vec![3, 1]);
    assert!(dirty_widgets(&Vec::new()).is_empty());
}
