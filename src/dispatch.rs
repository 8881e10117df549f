//! What the built-in handlers do with an event: each delivery turns handler state and the
//! event into one effect, which the caller performs (queueing an event, suggesting new
//! edge positions to the solver, or stopping on a structural error).
use vstd::prelude::*;
use crate::event::{type_of, Event, EventData, Target};
use crate::geometry::Rect;
use crate::tree::{calls_spec, Container, Delivery, WidgetTree};
use crate::scroll::{
    clamp_offset, scroll_of, ScrollError, ScrollParent, WidgetScroll, WidgetScrollHandler, SCROLL_STEP,
};

verus! {

/// The result of one handler invocation.
#[derive(Clone, Copy, Debug, PartialEq, Eq, Structural)]
pub enum Effect {
    Nothing,
    /// Queue this event for the next tick.
    Push(Target, EventData),
    /// Suggest these positions for the widget's left and top edges.
    Edit { widget: u64, left: i64, top: i64 },
    /// A structural rule was broken; the caller must stop.
    Fatal(ScrollError),
}

/// The latest state recorded for `w`, if any.
pub open spec fn lookup<T>(s: Seq<(u64, T)>, w: u64) -> Option<T>
    decreases s.len(),
{
    if s.len() == 0 {
        None
    } else if s.last().0 == w {
        Some(s.last().1)
    } else {
        lookup(s.drop_last(), w)
    }
}

/// The state of every built-in scroll handler, by widget.
pub struct HandlerStates {
    pub parents: Vec<(u64, ScrollParent)>,
    pub children: Vec<(u64, WidgetScrollHandler)>,
}

/// The scroll container state of `w`, a fresh one where none was recorded.
pub open spec fn parent_of(s: Seq<(u64, ScrollParent)>, w: u64) -> ScrollParent {
    match lookup(s, w) {
        Some(p) => p,
        None => ScrollParent { scrollable: None },
    }
}

/// The scrolled-child state of `w`, a fresh one where none was recorded.
pub open spec fn child_of(s: Seq<(u64, WidgetScrollHandler)>, w: u64) -> WidgetScrollHandler {
    match lookup(s, w) {
        Some(h) => h,
        None => WidgetScrollHandler { offset_x: 0, offset_y: 0 },
    }
}

/// The index of the last entry for `w`, if any.
pub open spec fn last_index<T>(s: Seq<(u64, T)>, w: u64) -> Option<int>
    decreases s.len(),
{
    if s.len() == 0 {
        None
    } else if s.last().0 == w {
        Some(s.len() - 1)
    } else {
        last_index(s.drop_last(), w)
    }
}

/// `s` with the state of `w` replaced by `x` (appended where `w` has none).
pub open spec fn store_spec<T>(s: Seq<(u64, T)>, w: u64, x: T) -> Seq<(u64, T)> {
    match last_index(s, w) {
        Some(i) => s.update(i, (w, x)),
        None => s.push((w, x)),
    }
}

proof fn lemma_last_index<T>(s: Seq<(u64, T)>, w: u64)
    ensures
        match last_index(s, w) {
            Some(i) => 0 <= i < s.len() && s[i].0 == w && lookup(s, w) == Some(s[i].1) && forall|j: int|
                i < j < s.len() ==> s[j].0 != w,
            None => lookup(s, w).is_none(),
        },
    decreases s.len(),
{
    if s.len() > 0 && s.last().0 != w {
        let t = s.drop_last();
        lemma_last_index(t, w);
        if let Some(i) = last_index(t, w) {
            assert(t[i] == s[i]);
            assert forall|j: int| i < j < s.len() implies s[j].0 != w by {
                if j < t.len() {
                    assert(t[j] == s[j]);
                }
            }
        }
    }
}

fn find_last<T>(v: &Vec<(u64, T)>, w: u64) -> (r: Option<usize>)
    ensures
        r matches Some(i) ==> last_index(v@, w) == Some(i as int),
        r is None ==> last_index(v@, w) is None,
{
    let mut k: usize = v.len();
    assert(v@.take(k as int) =~= v@);
    while k > 0
        invariant
            k <= v@.len(),
            last_index(v@, w) == last_index(v@.take(k as int), w),
        decreases k,
    {
        assert(v@.take(k as int).drop_last() =~= v@.take(k - 1));
        if v[k - 1].0 == w {
            return Some(k - 1);
        }
        k -= 1;
    }
    None
}

/// The state recorded for `w` in `v`, or `fresh` where none is.
pub fn state_of<T: Copy>(v: &Vec<(u64, T)>, w: u64, fresh: T) -> (r: T)
    ensures
        r == (match lookup(v@, w) {
            Some(x) => x,
            None => fresh,
        }),
{
    proof { lemma_last_index(v@, w); }
    match find_last(v, w) {
        Some(i) => v[i].1,
        None => fresh,
    }
}

proof fn lemma_lookup_set<T>(s: Seq<(u64, T)>, i: int, w: u64, x: T)
    requires
        0 <= i < s.len(),
        s[i].0 == w,
        forall|j: int| i < j < s.len() ==> s[j].0 != w,
    ensures
        lookup(s.update(i, (w, x)), w) == Some(x),
        forall|u: u64| u != w ==> lookup(s.update(i, (w, x)), u) == lookup(s, u),
    decreases s.len(),
{
    let t = s.update(i, (w, x));
    if i < s.len() - 1 {
        assert(t.drop_last() =~= s.drop_last().update(i, (w, x)));
        assert(t.last() == s.last());
        lemma_lookup_set(s.drop_last(), i, w, x);
        assert forall|u: u64| u != w implies lookup(t, u) == lookup(s, u) by {
            assert(lookup(t.drop_last(), u) == lookup(s.drop_last(), u));
        }
    } else {
        assert(t.drop_last() =~= s.drop_last());
        assert forall|u: u64| u != w implies lookup(t, u) == lookup(s, u) by {
            assert(t.last().0 == w && s.last().0 == w);
        }
    }
}

/// Storing a state for `w` changes what `w` looks up to and nothing else.
pub proof fn lemma_lookup_store<T>(s: Seq<(u64, T)>, w: u64, x: T)
    ensures
        lookup(store_spec(s, w, x), w) == Some(x),
        forall|u: u64| u != w ==> lookup(store_spec(s, w, x), u) == lookup(s, u),
{
    lemma_last_index(s, w);
    match last_index(s, w) {
        Some(i) => lemma_lookup_set(s, i, w, x),
        None => {
            assert(s.push((w, x)).drop_last() =~= s);
        },
    }
}

fn store<T>(v: &mut Vec<(u64, T)>, w: u64, x: T)
    ensures
        final(v)@ == store_spec(old(v)@, w, x),
{
    match find_last(v, w) {
        Some(i) => {
            proof { lemma_last_index(v@, w); }
            v.set(i, (w, x));
        },
        None => {
            v.push((w, x));
        },
    }
}

/// Handler states: the scroll containers' and the scrolled children's, by widget.
pub type States = (Seq<(u64, ScrollParent)>, Seq<(u64, WidgetScrollHandler)>);

/// One handler step: the states after delivering `data` to widget `w`, whose bounds are
/// `bounds`, and the effect. A wheel event over a scroll container goes back to it as a
/// container event; a container event records the child (a second one is fatal and
/// changes nothing) or forwards the wheel movement to the child with the container's
/// bounds; a scroll event moves the child, `SCROLL_STEP` pixels per unit and clamped to
/// the parent, and asks for its new edges.
pub open spec fn step(st: States, w: u64, data: EventData, bounds: Rect) -> (States, Effect) {
    let (parents, children) = st;
    match data {
        EventData::MouseWheel(d) => (st, Effect::Push(Target::Widget(w), EventData::ScrollWheel(d))),
        EventData::ChildAttached(c) => {
            let p = parent_of(parents, w);
            if p.scrollable.is_some() && c.is_some() {
                (st, Effect::Fatal(ScrollError::MoreThanOneChild))
            } else {
                ((store_spec(parents, w, ScrollParent { scrollable: c }), children), Effect::Nothing)
            }
        },
        EventData::ScrollWheel(d) => (
            st,
            match parent_of(parents, w).scrollable {
                Some(c) => Effect::Push(
                    Target::Widget(c),
                    EventData::Scroll(WidgetScroll { event: d, parent_bounds: bounds }),
                ),
                None => Effect::Nothing,
            },
        ),
        EventData::Scroll(ws) => {
            let h0 = child_of(children, w);
            let h = WidgetScrollHandler {
                offset_x: clamp_offset(
                    h0.offset_x + SCROLL_STEP * scroll_of(ws.event).x,
                    ws.parent_bounds.width - bounds.width,
                ) as i64,
                offset_y: clamp_offset(
                    h0.offset_y + SCROLL_STEP * scroll_of(ws.event).y,
                    ws.parent_bounds.height - bounds.height,
                ) as i64,
            };
            (
                (parents, store_spec(children, w, h)),
                Effect::Edit {
                    widget: w,
                    left: (ws.parent_bounds.left + h.offset_x) as i64,
                    top: (ws.parent_bounds.top + h.offset_y) as i64,
                },
            )
        },
        EventData::Custom(_) => (st, Effect::Nothing),
    }
}

/// Whether every scrolled child's offset is where scrolling can leave it.
pub open spec fn states_wf(st: States) -> bool {
    forall|u: u64| (#[trigger] child_of(st.1, u)).in_range()
}

proof fn lemma_step_wf(st: States, w: u64, data: EventData, bounds: Rect)
    requires
        states_wf(st),
    ensures
        states_wf(step(st, w, data, bounds).0),
{
    if let EventData::Scroll(ws) = data {
        let h0 = child_of(st.1, w);
        let h = WidgetScrollHandler {
            offset_x: clamp_offset(
                h0.offset_x + SCROLL_STEP * scroll_of(ws.event).x,
                ws.parent_bounds.width - bounds.width,
            ) as i64,
            offset_y: clamp_offset(
                h0.offset_y + SCROLL_STEP * scroll_of(ws.event).y,
                ws.parent_bounds.height - bounds.height,
            ) as i64,
        };
        assert(step(st, w, data, bounds).0.1 == store_spec(st.1, w, h));
        lemma_lookup_store(st.1, w, h);
        assert(h.in_range());
        assert forall|u: u64| (#[trigger] child_of(step(st, w, data, bounds).0.1, u)).in_range() by {
            if u != w {
                assert(child_of(st.1, u).in_range());
            }
        }
    }
}

impl HandlerStates {
    pub open spec fn view_states(&self) -> States {
        (self.parents@, self.children@)
    }

    pub open spec fn wf(&self) -> bool {
        states_wf(self.view_states())
    }

    pub fn new() -> (r: HandlerStates)
        ensures
            r.wf(),
            r.parents@.len() == 0,
            r.children@.len() == 0,
    {
        HandlerStates { parents: Vec::new(), children: Vec::new() }
    }

    /// Runs the built-in handler of `w` for `data`, the event having been delivered to it.
    pub fn handle(&mut self, w: u64, data: EventData, bounds: Rect) -> (r: Effect)
        requires
            old(self).wf(),
        ensures
            final(self).wf(),
            (final(self).view_states(), r) == step(old(self).view_states(), w, data, bounds),
    {
        proof { lemma_step_wf(self.view_states(), w, data, bounds); }
        match data {
            EventData::MouseWheel(d) => Effect::Push(Target::Widget(w), EventData::ScrollWheel(d)),
            EventData::ChildAttached(c) => {
                let mut p = state_of(&self.parents, w, ScrollParent::new());
                match p.child_attached(c) {
                    Ok(()) => {
                        store(&mut self.parents, w, p);
                        Effect::Nothing
                    },
                    Err(e) => Effect::Fatal(e),
                }
            },
            EventData::ScrollWheel(d) => {
                let p = state_of(&self.parents, w, ScrollParent::new());
                match p.mouse_wheel(d, bounds) {
                    Some((c, ws)) => Effect::Push(Target::Widget(c), EventData::Scroll(ws)),
                    None => Effect::Nothing,
                }
            },
            EventData::Scroll(ws) => {
                let mut h = state_of(&self.children, w, WidgetScrollHandler::new());
                assert(h.in_range());
                let edit = h.handle(&ws, bounds);
                store(&mut self.children, w, h);
                Effect::Edit { widget: w, left: edit.left, top: edit.top }
            },
            EventData::Custom(_) => Effect::Nothing,
        }
    }
}

/// The event that a container policy sends its own widget when a child attaches
/// (`Some`) or leaves (`None`): a scroll container is told, so that it tracks its child.
pub fn container_event(container: Container, parent: u64, child: Option<u64>) -> (r: Option<
    (Target, EventData),
>)
    ensures
        r == (match container {
            Container::Scroll => Some((Target::Widget(parent), EventData::ChildAttached(child))),
            Container::Free => None::<(Target, EventData)>,
        }),
{
    match container {
        Container::Scroll => Some((Target::Widget(parent), EventData::ChildAttached(child))),
        Container::Free => None,
    }
}

/// The bounds recorded for `w`, or an empty rectangle at the origin.
pub open spec fn bounds_in(b: Seq<(u64, Rect)>, w: u64) -> Rect {
    match lookup(b, w) {
        Some(r) => r,
        None => Rect { left: 0, top: 0, width: 0, height: 0 },
    }
}

/// The handler steps for `data` at each delivery of `ds` in turn: the final states and
/// the effects in order.
pub open spec fn run_deliveries(st: States, ds: Seq<Delivery>, data: EventData, b: Seq<(u64, Rect)>) -> (
    States,
    Seq<Effect>,
)
    decreases ds.len(),
{
    if ds.len() == 0 {
        (st, Seq::empty())
    } else {
        let (st1, e1) = run_deliveries(st, ds.drop_last(), data, b);
        let d = ds.last();
        let (st2, e) = step(st1, d.widget, data, bounds_in(b, d.widget));
        (st2, e1.push(e))
    }
}

/// One tick over the batch `evs`: each event in turn is delivered to its handlers in
/// dispatch order, and the effects of all steps are collected in order.
pub open spec fn run_events(t: WidgetTree, st: States, evs: Seq<Event>, b: Seq<(u64, Rect)>) -> (
    States,
    Seq<Effect>,
)
    decreases evs.len(),
{
    if evs.len() == 0 {
        (st, Seq::empty())
    } else {
        let (st1, e1) = run_events(t, st, evs.drop_last(), b);
        let ev = evs.last();
        let ds = calls_spec(t, t.dispatch_order(ev.target), type_of(ev.data));
        let (st2, e2) = run_deliveries(st1, ds, ev.data, b);
        (st2, e1 + e2)
    }
}

/// Delivers a tick's batch of events (see `EventQueue::take_tick`) and returns the
/// effects of the handler steps, in order, for the caller to perform: pushed events go to
/// the queue for the next tick, edits to the solver, and a fatal effect stops the program.
/// `bounds` gives the resolved bounds of widgets.
pub fn run_tick(
    tree: &WidgetTree,
    states: &mut HandlerStates,
    batch: &Vec<Event>,
    bounds: &Vec<(u64, Rect)>,
) -> (effects: Vec<Effect>)
    requires
        tree.wf(),
        old(states).wf(),
    ensures
        final(states).wf(),
        (final(states).view_states(), effects@) == run_events(
            *tree,
            old(states).view_states(),
            batch@,
            bounds@,
        ),
{
    let ghost st0 = states.view_states();
    let mut effects: Vec<Effect> = Vec::new();
    let mut i: usize = 0;
    while i < batch.len()
        invariant
            tree.wf(),
            states.wf(),
            i <= batch@.len(),
            (states.view_states(), effects@) == run_events(*tree, st0, batch@.take(i as int), bounds@),
        decreases batch@.len() - i,
    {
        let ev = batch[i];
        let ds = tree.deliveries(ev.target, ev.data.event_type());
        let ghost st_i = states.view_states();
        let ghost eff_i = effects@;
        assert(ds@.take(0) =~= Seq::<Delivery>::empty());
        assert(eff_i + Seq::<Effect>::empty() =~= eff_i);
        let mut m: usize = 0;
        while m < ds.len()
            invariant
                states.wf(),
                m <= ds@.len(),
                states.view_states() == run_deliveries(st_i, ds@.take(m as int), ev.data, bounds@).0,
                effects@ == eff_i + run_deliveries(st_i, ds@.take(m as int), ev.data, bounds@).1,
            decreases ds@.len() - m,
        {
            let d = ds[m];
            let b = state_of(bounds, d.widget, Rect::new(0, 0, 0, 0));
            let e = states.handle(d.widget, ev.data, b);
            proof {
                assert(ds@.take(m + 1).drop_last() =~= ds@.take(m as int));
                assert(ds@.take(m + 1).last() == d);
            }
            effects.push(e);
            proof {
                let r1 = run_deliveries(st_i, ds@.take(m as int), ev.data, bounds@).1;
                assert(eff_i + r1.push(e) =~= (eff_i + r1).push(e));
            }
            m += 1;
        }
        proof {
            assert(ds@.take(m as int) =~= ds@);
            assert(batch@.take(i + 1).drop_last() =~= batch@.take(i as int));
            assert(batch@.take(i + 1).last() == ev);
        }
        i += 1;
    }
    assert(batch@.take(i as int) =~= batch@);
    effects
}

/// An event addressed to a widget that has left the tree, alone or as a subtree root, is
/// dropped: the tick runs no handler, changes no state and has no effect.
pub proof fn lemma_stale_target_dropped(t: WidgetTree, st: States, w: u64, data: EventData, b: Seq<(u64, Rect)>)
    requires
        !t.has(w),
    ensures
        run_events(t, st, seq![Event { target: Target::Widget(w), data }], b) == (st, Seq::<Effect>::empty()),
        run_events(t, st, seq![Event { target: Target::SubTree(w), data }], b) == (st, Seq::<Effect>::empty()),
{
    let ty = type_of(data);
    assert(t.dispatch_order(Target::Widget(w)).len() == 0);
    assert(t.dispatch_order(Target::SubTree(w)).len() == 0);
    assert(calls_spec(t, t.dispatch_order(Target::Widget(w)), ty).len() == 0);
    assert(calls_spec(t, t.dispatch_order(Target::SubTree(w)), ty).len() == 0);
    let e1 = seq![Event { target: Target::Widget(w), data }];
    let e2 = seq![Event { target: Target::SubTree(w), data }];
    assert(Seq::<Effect>::empty() + Seq::<Effect>::empty() =~= Seq::<Effect>::empty());
    assert(e1.drop_last() =~= Seq::<Event>::empty());
    assert(run_events(t, st, e1.drop_last(), b) == (st, Seq::<Effect>::empty()));
    let d1 = calls_spec(t, t.dispatch_order(Target::Widget(w)), ty);
    assert(run_deliveries(st, d1, data, b) == (st, Seq::<Effect>::empty()));
    assert(e2.drop_last() =~= Seq::<Event>::empty());
    assert(run_events(t, st, e2.drop_last(), b) == (st, Seq::<Effect>::empty()));
    let d2 = calls_spec(t, t.dispatch_order(Target::SubTree(w)), ty);
    assert(run_deliveries(st, d2, data, b) == (st, Seq::<Effect>::empty()));
}

} // verus!
