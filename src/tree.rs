//! The widget tree, kept as an arena in depth-first preorder: every subtree is a
//! contiguous run of nodes, which begins at its root and ends before the next node that
//! is no deeper than that root.
use vstd::prelude::*;
use crate::layout::{Constraint, ConstraintKind, Strength};
use crate::event::{EventType, Target};
use crate::ellipse::{ellipse_fits, ellipse_items, EllipseState};
use crate::draw::{DisplayItem, RenderBuilder};
use crate::geometry::Rect;
use crate::dispatch::{bounds_in, state_of};

verus! {

/// How a widget positions the children attached to it.
#[derive(Clone, Copy, Debug, PartialEq, Eq, Structural)]
pub enum Container {
    /// Children position themselves.
    Free,
    /// Exactly one child, initially at the parent's top-left corner, moved by scrolling.
    Scroll,
}

/// One widget of the tree.
pub struct Node {
    pub id: u64,
    pub depth: u64,
    pub container: Container,
    /// The event type of each registered handler, in registration order.
    pub handlers: Vec<EventType>,
    /// What the widget draws, if anything.
    pub drawable: Option<EllipseState>,
}

/// Why a structural edit of the tree was refused.
#[derive(Clone, Copy, Debug, PartialEq, Eq, Structural)]
pub enum TreeError {
    /// No widget of the tree has this id.
    NoSuchWidget,
    /// The widget is already in the tree.
    DuplicateId,
    /// A scroll container already holds its one child.
    ScrollHasChild,
    /// A constraint is not owned by the widget that carries it, or refers to a widget that
    /// is not in the tree.
    BadConstraint,
    /// Two REQUIRED constraints fix the same size of the widget to different values.
    ConflictingRequired,
    /// The widget is not a child of the given parent.
    NotAChild,
    /// The id was not handed out by this tree.
    ForeignId,
}

/// A widget that is not attached yet: its id, container policy, handlers and the
/// constraints contributed for it.
pub struct WidgetBuilder {
    pub id: u64,
    pub container: Container,
    pub handlers: Vec<EventType>,
    pub constraints: Vec<Constraint>,
    pub drawable: Option<EllipseState>,
}

impl WidgetBuilder {
    pub fn id(&self) -> (r: u64)
        ensures
            r == self.id,
    {
        self.id
    }

    pub fn set_container(&mut self, container: Container)
        ensures
            final(self).id == old(self).id,
            final(self).container == container,
            final(self).handlers == old(self).handlers,
            final(self).constraints == old(self).constraints,
            final(self).drawable == old(self).drawable,
    {
        self.container = container;
    }

    /// Registers a handler for events of exactly type `ty`, after those already there.
    pub fn add_handler(&mut self, ty: EventType)
        ensures
            final(self).id == old(self).id,
            final(self).container == old(self).container,
            final(self).handlers@ == old(self).handlers@.push(ty),
            final(self).constraints == old(self).constraints,
            final(self).drawable == old(self).drawable,
    {
        self.handlers.push(ty);
    }

    /// Sets what the widget draws.
    pub fn set_drawable(&mut self, drawable: EllipseState)
        ensures
            final(self).id == old(self).id,
            final(self).container == old(self).container,
            final(self).handlers == old(self).handlers,
            final(self).constraints == old(self).constraints,
            final(self).drawable == Some(drawable),
    {
        self.drawable = Some(drawable);
    }

    /// Adds a constraint on this widget.
    pub fn add_constraint(&mut self, kind: ConstraintKind, strength: Strength)
        ensures
            final(self).id == old(self).id,
            final(self).container == old(self).container,
            final(self).handlers == old(self).handlers,
            final(self).constraints@ == old(self).constraints@.push(
                Constraint { owner: old(self).id, kind, strength },
            ),
            final(self).drawable == old(self).drawable,
    {
        self.constraints.push(Constraint { owner: self.id, kind, strength });
    }
}

/// The size that a constraint fixes, as an axis (0 for width, 1 for height) and a value.
pub open spec fn fixed_size(k: ConstraintKind) -> Option<(int, i64)> {
    match k {
        ConstraintKind::Width(v) => Some((0, v)),
        ConstraintKind::Height(v) => Some((1, v)),
        _ => None,
    }
}

/// Whether two REQUIRED constraints fix the same size of the same widget to different
/// values.
pub open spec fn conflict(a: Constraint, b: Constraint) -> bool {
    &&& a.strength == Strength::Required
    &&& b.strength == Strength::Required
    &&& a.owner == b.owner
    &&& fixed_size(a.kind) matches Some((ax, va))
    &&& fixed_size(b.kind) matches Some((bx, vb))
    &&& ax == bx
    &&& va != vb
}

pub open spec fn has_conflict(cs: Seq<Constraint>) -> bool {
    exists|a: int, b: int| 0 <= a < b < cs.len() && conflict(cs[a], cs[b])
}

fn conflict_exec(a: &Constraint, b: &Constraint) -> (r: bool)
    ensures
        r == conflict(*a, *b),
{
    if a.strength != Strength::Required || b.strength != Strength::Required || a.owner != b.owner {
        return false;
    }
    match (a.kind, b.kind) {
        (ConstraintKind::Width(x), ConstraintKind::Width(y)) => x != y,
        (ConstraintKind::Height(x), ConstraintKind::Height(y)) => x != y,
        _ => false,
    }
}

/// Whether some two of `cs` conflict.
pub fn find_conflict(cs: &Vec<Constraint>) -> (r: bool)
    ensures
        r == has_conflict(cs@),
{
    let mut i: usize = 0;
    while i < cs.len()
        invariant
            i <= cs@.len(),
            forall|a: int, b: int| 0 <= a < b < cs@.len() && a < i ==> !conflict(cs@[a], cs@[b]),
        decreases cs@.len() - i,
    {
        let mut j: usize = i + 1;
        while j < cs.len()
            invariant
                i < cs@.len(),
                i + 1 <= j <= cs@.len(),
                forall|a: int, b: int| 0 <= a < b < cs@.len() && a < i ==> !conflict(cs@[a], cs@[b]),
                forall|b: int| i < b < j ==> !conflict(cs@[i as int], cs@[b]),
            decreases cs@.len() - j,
        {
            if conflict_exec(&cs[i], &cs[j]) {
                return true;
            }
            j += 1;
        }
        i += 1;
    }
    false
}

/// The tree: nodes in preorder, and every constraint contributed for a widget of it.
pub struct WidgetTree {
    pub nodes: Vec<Node>,
    pub constraints: Vec<Constraint>,
    pub next_id: u64,
}

pub open spec fn ids_of(nodes: Seq<Node>) -> Seq<u64> {
    nodes.map_values(|n: Node| n.id)
}

pub open spec fn depths_of(nodes: Seq<Node>) -> Seq<u64> {
    nodes.map_values(|n: Node| n.depth)
}

/// The first index at or after `j` whose depth is at most that of `i` (or the length).
pub open spec fn end_from(d: Seq<u64>, i: int, j: int) -> int
    decreases d.len() - j,
{
    if j < 0 || j >= d.len() {
        d.len() as int
    } else if d[j] <= d[i] {
        j
    } else {
        end_from(d, i, j + 1)
    }
}

/// One past the last node of the subtree rooted at index `i`.
pub open spec fn subtree_end(d: Seq<u64>, i: int) -> int {
    end_from(d, i, i + 1)
}

/// Whether depths describe a preorder forest with a single root at index 0.
pub open spec fn preorder_depths(d: Seq<u64>) -> bool {
    &&& d.len() >= 1
    &&& d[0] == 0
    &&& forall|k: int| 1 <= k < d.len() ==> 1 <= #[trigger] d[k] <= d[k - 1] + 1
}

pub open spec fn unique_ids(s: Seq<u64>) -> bool {
    forall|a: int, b: int| 0 <= a < b < s.len() ==> s[a] != s[b]
}

proof fn lemma_end_from(d: Seq<u64>, i: int, j: int)
    requires
        0 <= i < d.len(),
        i < j <= d.len(),
        forall|k: int| i < k < j ==> d[k] > d[i],
    ensures
        j <= end_from(d, i, j) <= d.len(),
        forall|k: int| i < k < end_from(d, i, j) ==> d[k] > d[i],
        end_from(d, i, j) < d.len() ==> d[end_from(d, i, j)] <= d[i],
    decreases d.len() - j,
{
    if j < d.len() && d[j] > d[i] {
        lemma_end_from(d, i, j + 1);
    }
}

/// The subtree end is the first later node no deeper than the root.
pub proof fn lemma_subtree_end(d: Seq<u64>, i: int)
    requires
        0 <= i < d.len(),
    ensures
        i < subtree_end(d, i) <= d.len(),
        forall|k: int| i < k < subtree_end(d, i) ==> d[k] > d[i],
        subtree_end(d, i) < d.len() ==> d[subtree_end(d, i)] <= d[i],
{
    lemma_end_from(d, i, i + 1);
}

proof fn lemma_insert_depth(d: Seq<u64>, e: int, p: int, x: u64)
    requires
        preorder_depths(d),
        0 <= p < d.len(),
        e == subtree_end(d, p),
        x == d[p] + 1,
    ensures
        preorder_depths(d.insert(e, x)),
{
    lemma_subtree_end(d, p);
    let nd = d.insert(e, x);
    assert forall|k: int| 1 <= k < nd.len() implies 1 <= #[trigger] nd[k] <= nd[k - 1] + 1 by {
        if k < e {
            assert(nd[k] == d[k] && nd[k - 1] == d[k - 1]);
        } else if k == e {
            assert(nd[k - 1] == d[k - 1]);
            if k - 1 > p {
                assert(d[k - 1] > d[p]);
            }
        } else if k == e + 1 {
            assert(nd[k] == d[k - 1]);
            assert(d[e] <= d[p]);
        } else {
            assert(nd[k] == d[k - 1] && nd[k - 1] == d[k - 2]);
        }
    }
}

proof fn lemma_insert_id(oi: Seq<u64>, e: int, id: u64)
    requires
        unique_ids(oi),
        0 <= e <= oi.len(),
        !oi.contains(id),
    ensures
        unique_ids(oi.insert(e, id)),
        forall|w: u64| oi.contains(w) ==> oi.insert(e, id).contains(w),
        oi.insert(e, id).contains(id),
{
    let ni = oi.insert(e, id);
    assert forall|a: int, c: int| 0 <= a < c < ni.len() implies ni[a] != ni[c] by {
        if a == e {
            assert(ni[c] == oi[c - 1]);
        } else if c == e {
            assert(ni[a] == oi[a]);
        } else {
            let a0 = if a < e { a } else { a - 1 };
            let c0 = if c < e { c } else { c - 1 };
            assert(ni[a] == oi[a0] && ni[c] == oi[c0]);
        }
    }
    assert forall|w: u64| oi.contains(w) implies ni.contains(w) by {
        let k = choose|k: int| 0 <= k < oi.len() && oi[k] == w;
        if k < e {
            assert(ni[k] == w);
        } else {
            assert(ni[k + 1] == w);
        }
    }
    assert(ni[e] == id);
}

proof fn lemma_insert_node(old: Seq<Node>, nn: Seq<Node>, e: int, p: int, next: u64)
    requires
        preorder_depths(depths_of(old)),
        unique_ids(ids_of(old)),
        forall|k: int| 0 <= k < old.len() ==> #[trigger] old[k].id < next,
        0 <= p < old.len(),
        e == subtree_end(depths_of(old), p),
        nn == old.insert(e, nn[e]),
        nn[e].depth == old[p].depth + 1,
        !ids_of(old).contains(nn[e].id),
        nn[e].id < next,
    ensures
        preorder_depths(depths_of(nn)),
        unique_ids(ids_of(nn)),
        forall|k: int| 0 <= k < nn.len() ==> #[trigger] nn[k].id < next,
        forall|w: u64| ids_of(old).contains(w) ==> ids_of(nn).contains(w),
        ids_of(nn).contains(nn[e].id),
{
    lemma_subtree_end(depths_of(old), p);
    assert(ids_of(nn) =~= ids_of(old).insert(e, nn[e].id));
    assert(depths_of(nn) =~= depths_of(old).insert(e, nn[e].depth));
    lemma_insert_depth(depths_of(old), e, p, nn[e].depth);
    lemma_insert_id(ids_of(old), e, nn[e].id);
    assert forall|k: int| 0 <= k < nn.len() implies #[trigger] nn[k].id < next by {
        if k < e {
            assert(nn[k] == old[k]);
        } else if k > e {
            assert(nn[k] == old[k - 1]);
        }
    }
}

proof fn lemma_remove_depth(d: Seq<u64>, c: int, e: int)
    requires
        preorder_depths(d),
        1 <= c < d.len(),
        e == subtree_end(d, c),
    ensures
        preorder_depths(d.subrange(0, c) + d.subrange(e, d.len() as int)),
{
    lemma_subtree_end(d, c);
    let nd = d.subrange(0, c) + d.subrange(e, d.len() as int);
    assert forall|k: int| 1 <= k < nd.len() implies 1 <= #[trigger] nd[k] <= nd[k - 1] + 1 by {
        if k < c {
            assert(nd[k] == d[k] && nd[k - 1] == d[k - 1]);
        } else if k == c {
            assert(nd[k] == d[e] && nd[k - 1] == d[c - 1]);
            assert(d[c] <= d[c - 1] + 1);
        } else {
            assert(nd[k] == d[k - c + e] && nd[k - 1] == d[k - 1 - c + e]);
        }
    }
}

proof fn lemma_remove_ids(oi: Seq<u64>, c: int, e: int)
    requires
        unique_ids(oi),
        0 <= c <= e <= oi.len(),
    ensures
        unique_ids(oi.subrange(0, c) + oi.subrange(e, oi.len() as int)),
        forall|w: u64|
            oi.contains(w) && !oi.subrange(c, e).contains(w) ==> (oi.subrange(0, c) + oi.subrange(
                e,
                oi.len() as int,
            )).contains(w),
        forall|w: u64|
            oi.subrange(c, e).contains(w) ==> !(oi.subrange(0, c) + oi.subrange(
                e,
                oi.len() as int,
            )).contains(w),
{
    let ni = oi.subrange(0, c) + oi.subrange(e, oi.len() as int);
    let rm = oi.subrange(c, e);
    assert forall|a: int, b: int| 0 <= a < b < ni.len() implies ni[a] != ni[b] by {
        let a0 = if a < c { a } else { a - c + e };
        let b0 = if b < c { b } else { b - c + e };
        assert(ni[a] == oi[a0] && ni[b] == oi[b0]);
    }
    assert forall|w: u64| oi.contains(w) && !rm.contains(w) implies ni.contains(w) by {
        let k = choose|k: int| 0 <= k < oi.len() && oi[k] == w;
        if k < c {
            assert(ni[k] == w);
        } else if k >= e {
            assert(ni[k - e + c] == w);
        } else {
            assert(rm[k - c] == w);
        }
    }
    assert forall|w: u64| rm.contains(w) implies !ni.contains(w) by {
        let j = choose|j: int| 0 <= j < rm.len() && rm[j] == w;
        if ni.contains(w) {
            let a = choose|a: int| 0 <= a < ni.len() && ni[a] == w;
            let a0 = if a < c { a } else { a - c + e };
            assert(ni[a] == oi[a0]);
            assert(oi[j + c] == w);
        }
    }
}

/// Whether constraint `k` mentions a widget of `ws`.
pub open spec fn mentions_any(k: Constraint, ws: Seq<u64>) -> bool {
    ws.contains(k.owner) || (k.kind.other_spec() matches Some(o) && ws.contains(o))
}

/// What a removal took out of the tree.
pub struct Removed {
    /// The removed widgets, in preorder.
    pub widgets: Vec<u64>,
    /// The constraints that mentioned them, in the order they were added.
    pub constraints: Vec<Constraint>,
}

fn contains_id(v: &Vec<u64>, w: u64) -> (r: bool)
    ensures
        r == v@.contains(w),
{
    let mut i: usize = 0;
    while i < v.len()
        invariant
            i <= v@.len(),
            forall|j: int| 0 <= j < i ==> v@[j] != w,
        decreases v@.len() - i,
    {
        if v[i] == w {
            return true;
        }
        i += 1;
    }
    false
}

fn mentions_any_exec(k: &Constraint, ws: &Vec<u64>) -> (r: bool)
    ensures
        r == mentions_any(*k, ws@),
{
    if contains_id(ws, k.owner) {
        return true;
    }
    match k.kind.other() {
        Some(o) => contains_id(ws, o),
        None => false,
    }
}

/// In a preorder arena no node is deeper than its index.
pub proof fn lemma_depth_bound(d: Seq<u64>, k: int)
    requires
        preorder_depths(d),
        0 <= k < d.len(),
    ensures
        d[k] <= k,
    decreases k,
{
    if k > 0 {
        lemma_depth_bound(d, k - 1);
    }
}

/// The position of `w` among `ids`.
pub open spec fn index_in(ids: Seq<u64>, w: u64) -> int {
    choose|i: int| 0 <= i < ids.len() && ids[i] == w
}

/// Whether every constraint of `cs` is owned by `w` and refers only to widgets for
/// which `live` holds or to `w`.
pub open spec fn constraints_fit(cs: Seq<Constraint>, w: u64, live: Seq<u64>) -> bool {
    forall|c: int|
        0 <= c < cs.len() ==> (#[trigger] cs[c]).owner == w && (cs[c].kind.other_spec() matches Some(
            o,
        ) ==> live.contains(o) || o == w)
}

/// The two WEAK constraints that place a scroll container's child at its top-left corner.
pub open spec fn scroll_constraints(child: u64, parent: u64) -> Seq<Constraint> {
    seq![
        Constraint { owner: child, kind: ConstraintKind::AlignLeft(parent), strength: Strength::Weak },
        Constraint { owner: child, kind: ConstraintKind::AlignTop(parent), strength: Strength::Weak },
    ]
}

impl WidgetTree {
    /// The error that attaching `b` under `parent` meets, if any, in the order checked.
    pub open spec fn add_error(&self, parent: u64, b: WidgetBuilder) -> Option<TreeError> {
        if !self.has(parent) {
            Some(TreeError::NoSuchWidget)
        } else if b.id >= self.next_id {
            Some(TreeError::ForeignId)
        } else if self.has(b.id) {
            Some(TreeError::DuplicateId)
        } else {
            let p = index_in(self.ids(), parent);
            if self.nodes@[p].container == Container::Scroll && subtree_end(self.depths(), p) > p
                + 1 {
                Some(TreeError::ScrollHasChild)
            } else if !constraints_fit(b.constraints@, b.id, self.ids()) {
                Some(TreeError::BadConstraint)
            } else if has_conflict(b.constraints@) {
                Some(TreeError::ConflictingRequired)
            } else {
                None
            }
        }
    }

    /// A builder for a new widget with a fresh id.
    pub fn new_builder(&mut self) -> (b: WidgetBuilder)
        requires
            old(self).wf(),
            old(self).next_id < u64::MAX,
        ensures
            final(self).wf(),
            final(self).nodes == old(self).nodes,
            final(self).constraints == old(self).constraints,
            final(self).next_id == old(self).next_id + 1,
            b.id == old(self).next_id,
            !final(self).has(b.id),
            b.container == Container::Free,
            b.handlers@.len() == 0,
            b.constraints@.len() == 0,
            b.drawable.is_none(),
    {
        let id = self.next_id;
        self.next_id = self.next_id + 1;
        proof {
            if self.has(id) {
                let k = choose|k: int| 0 <= k < self.ids().len() && self.ids()[k] == id;
                assert(self.nodes@[k].id < id);
            }
        }
        WidgetBuilder {
            id,
            container: Container::Free,
            handlers: Vec::new(),
            constraints: Vec::new(),
            drawable: None,
        }
    }

    fn constraints_fit_exec(&self, cs: &Vec<Constraint>, w: u64) -> (r: bool)
        ensures
            r == constraints_fit(cs@, w, self.ids()),
    {
        let mut i: usize = 0;
        while i < cs.len()
            invariant
                i <= cs@.len(),
                forall|c: int| 0 <= c < i ==> (#[trigger] cs@[c]).owner == w && (cs@[c].kind.other_spec() matches Some(
                    o,
                ) ==> self.ids().contains(o) || o == w),
            decreases cs@.len() - i,
        {
            if cs[i].owner != w {
                return false;
            }
            match cs[i].kind.other() {
                Some(o) => {
                    if o != w && self.find(o).is_none() {
                        return false;
                    }
                    proof {
                        if o != w {
                            let k = choose|k: int| 0 <= k < self.nodes@.len() && self.nodes@[k].id == o;
                            assert(self.ids()[k] == o);
                        }
                    }
                },
                None => {},
            }
            i += 1;
        }
        true
    }

    /// The widgets that an event addressed to `target` visits, in visiting order.
    pub open spec fn dispatch_order(&self, target: Target) -> Seq<u64> {
        match target {
            Target::Widget(w) => if self.has(w) {
                seq![w]
            } else {
                Seq::empty()
            },
            Target::SubTree(w) => if self.has(w) {
                let i = index_in(self.ids(), w);
                self.ids().subrange(i, subtree_end(self.depths(), i))
            } else {
                Seq::empty()
            },
            Target::Broadcast => self.ids(),
        }
    }

    pub open spec fn ids(&self) -> Seq<u64> {
        ids_of(self.nodes@)
    }

    pub open spec fn depths(&self) -> Seq<u64> {
        depths_of(self.nodes@)
    }

    /// Whether widget `w` is in the tree.
    pub open spec fn has(&self, w: u64) -> bool {
        self.ids().contains(w)
    }

    pub open spec fn wf(&self) -> bool {
        &&& preorder_depths(self.depths())
        &&& unique_ids(self.ids())
        &&& forall|k: int| 0 <= k < self.nodes@.len() ==> #[trigger] self.nodes@[k].id < self.next_id
        &&& forall|c: int|
            0 <= c < self.constraints@.len() ==> self.has(#[trigger] self.constraints@[c].owner)
                && (self.constraints@[c].kind.other_spec() matches Some(o) ==> self.has(o))
    }

    /// A tree holding only a root widget, with id 0.
    pub fn new(container: Container) -> (t: WidgetTree)
        ensures
            t.wf(),
            t.ids() == seq![0u64],
            t.constraints@.len() == 0,
            t.nodes@[0].container == container,
            t.nodes@[0].handlers@.len() == 0,
    {
        let mut nodes: Vec<Node> = Vec::new();
        nodes.push(Node { id: 0, depth: 0, container, handlers: Vec::new(), drawable: None });
        let t = WidgetTree { nodes, constraints: Vec::new(), next_id: 1 };
        assert(t.ids() =~= seq![0u64]);
        t
    }

    /// The index of widget `w` in the arena.
    pub fn find(&self, w: u64) -> (r: Option<usize>)
        ensures
            match r {
                Some(i) => i < self.nodes@.len() && self.nodes@[i as int].id == w,
                None => !self.has(w),
            },
    {
        let mut i: usize = 0;
        while i < self.nodes.len()
            invariant
                i <= self.nodes@.len(),
                forall|j: int| 0 <= j < i ==> self.nodes@[j].id != w,
            decreases self.nodes@.len() - i,
        {
            if self.nodes[i].id == w {
                return Some(i);
            }
            i += 1;
        }
        proof {
            if self.has(w) {
                let j = choose|j: int| 0 <= j < self.ids().len() && self.ids()[j] == w;
                assert(self.nodes@[j].id == w);
            }
        }
        None
    }

    /// One past the last node of the subtree rooted at index `i`.
    pub fn subtree_end(&self, i: usize) -> (r: usize)
        requires
            i < self.nodes@.len(),
        ensures
            r == subtree_end(self.depths(), i as int),
    {
        let ghost d = self.depths();
        let len = self.nodes.len();
        assert(i < len);
        let mut j: usize = i + 1;
        while j < self.nodes.len() && self.nodes[j].depth > self.nodes[i].depth
            invariant
                d == self.depths(),
                i < j <= self.nodes@.len(),
                end_from(d, i as int, i + 1) == end_from(d, i as int, j as int),
            decreases self.nodes@.len() - j,
        {
            j += 1;
        }
        j
    }

    /// The ids of the nodes at indices `lo..hi`, in arena order.
    fn ids_in(&self, lo: usize, hi: usize) -> (r: Vec<u64>)
        requires
            lo <= hi <= self.nodes@.len(),
        ensures
            r@ == self.ids().subrange(lo as int, hi as int),
    {
        let mut r: Vec<u64> = Vec::new();
        let mut k: usize = lo;
        while k < hi
            invariant
                lo <= k <= hi <= self.nodes@.len(),
                r@ == self.ids().subrange(lo as int, k as int),
            decreases hi - k,
        {
            r.push(self.nodes[k].id);
            assert(r@ =~= self.ids().subrange(lo as int, k + 1));
            k += 1;
        }
        r
    }

    /// Attaches `b` as the last child of `parent`. A scroll container places the child at
    /// its top-left corner with two WEAK constraints and registers the child's scroll
    /// handler. On an error the tree is left as it was.
    pub fn add_child(&mut self, parent: u64, b: WidgetBuilder) -> (r: Result<(), TreeError>)
        requires
            old(self).wf(),
        ensures
            final(self).wf(),
            final(self).next_id == old(self).next_id,
            match old(self).add_error(parent, b) {
                Some(err) => r == Err::<(), TreeError>(err) && final(self).nodes@ == old(self).nodes@
                    && final(self).constraints@ == old(self).constraints@,
                None => {
                    let p = index_in(old(self).ids(), parent);
                    let e = subtree_end(old(self).depths(), p);
                    let scroll = old(self).nodes@[p].container == Container::Scroll;
                    &&& r is Ok
                    &&& final(self).nodes@.remove(e) == old(self).nodes@
                    &&& final(self).nodes@[e].id == b.id
                    &&& final(self).nodes@[e].depth == old(self).nodes@[p].depth + 1
                    &&& final(self).nodes@[e].container == b.container
                    &&& final(self).nodes@[e].drawable == b.drawable
                    &&& final(self).nodes@[e].handlers@ == (if scroll {
                        b.handlers@.push(EventType::WidgetScroll)
                    } else {
                        b.handlers@
                    })
                    &&& final(self).constraints@ == old(self).constraints@ + b.constraints@ + (
                    if scroll {
                        scroll_constraints(b.id, parent)
                    } else {
                        Seq::empty()
                    })
                },
            },
    {
        let p = match self.find(parent) {
            Some(p) => p,
            None => {
                return Err(TreeError::NoSuchWidget);
            },
        };
        proof {
            assert(self.ids()[p as int] == parent);
            let j = index_in(self.ids(), parent);
            assert(0 <= j < self.ids().len() && self.ids()[j] == parent);
            assert(j == p);
        }
        if b.id >= self.next_id {
            return Err(TreeError::ForeignId);
        }
        match self.find(b.id) {
            Some(k) => {
                proof { assert(self.ids()[k as int] == b.id); }
                return Err(TreeError::DuplicateId);
            },
            None => {},
        }
        let e = self.subtree_end(p);
        proof { lemma_subtree_end(self.depths(), p as int); }
        let scroll = self.nodes[p].container == Container::Scroll;
        if scroll && e > p + 1 {
            return Err(TreeError::ScrollHasChild);
        }
        if !self.constraints_fit_exec(&b.constraints, b.id) {
            return Err(TreeError::BadConstraint);
        }
        if find_conflict(&b.constraints) {
            return Err(TreeError::ConflictingRequired);
        }
        let ghost old_nodes = self.nodes@;
        let ghost old_cs = self.constraints@;
        let ghost nid = self.next_id;
        assert(forall|k: int| 0 <= k < old_nodes.len() ==> #[trigger] old_nodes[k].id < nid);
        let ghost d = self.depths();
        let WidgetBuilder { id, container, handlers, constraints, drawable } = b;
        let mut handlers = handlers;
        if scroll {
            handlers.push(EventType::WidgetScroll);
        }
        proof { lemma_depth_bound(d, p as int); }
        let depth = self.nodes[p].depth + 1;
        let ghost hs = handlers@;
        self.nodes.insert(e, Node { id, depth, container, handlers, drawable });
        let ghost nn0 = self.nodes@;
        assert(nn0[e as int].id == id && nn0[e as int].depth == depth && nn0[e as int].handlers@ == hs);
        let mut i: usize = 0;
        while i < constraints.len()
            invariant
                self.nodes@ == nn0,
                self.next_id == nid,
                i <= constraints@.len(),
                self.constraints@ == old_cs + constraints@.take(i as int),
            decreases constraints@.len() - i,
        {
            self.constraints.push(constraints[i]);
            assert(constraints@.take(i + 1) =~= constraints@.take(i as int).push(constraints@[i as int]));
            i += 1;
        }
        assert(constraints@.take(i as int) =~= constraints@);
        if scroll {
            self.constraints.push(Constraint { owner: id, kind: ConstraintKind::AlignLeft(parent), strength: Strength::Weak });
            self.constraints.push(Constraint { owner: id, kind: ConstraintKind::AlignTop(parent), strength: Strength::Weak });
            assert(self.constraints@ =~= old_cs + constraints@ + scroll_constraints(id, parent));
        } else {
            assert(self.constraints@ =~= old_cs + constraints@ + Seq::<Constraint>::empty());
        }
        proof {
            let nn = self.nodes@;
            assert(nn.remove(e as int) =~= old_nodes);
            assert(nn =~= old_nodes.insert(e as int, nn[e as int]));
            lemma_insert_node(old_nodes, nn, e as int, p as int, self.next_id);
            let ni = self.ids();
            let oi = ids_of(old_nodes);
            assert(ni[e as int] == id);
            assert(self.has(id));
            assert forall|c: int| 0 <= c < self.constraints@.len() implies self.has(
                #[trigger] self.constraints@[c].owner) && (self.constraints@[c].kind.other_spec() matches Some(o)
                ==> self.has(o)) by {
                if c < old_cs.len() {
                    assert(self.constraints@[c] == old_cs[c]);
                } else if c < old_cs.len() + constraints@.len() {
                    assert(self.constraints@[c] == constraints@[c - old_cs.len()]);
                } else {
                    assert(oi.contains(parent));
                }
            }
        }
        Ok(())
    }

    /// The error that detaching `child` from `parent` meets, if any.
    pub open spec fn remove_error(&self, parent: u64, child: u64) -> Option<TreeError> {
        if !self.has(parent) || !self.has(child) {
            Some(TreeError::NoSuchWidget)
        } else {
            let p = index_in(self.ids(), parent);
            let c = index_in(self.ids(), child);
            if p < c < subtree_end(self.depths(), p) && self.depths()[c] == self.depths()[p] + 1 {
                None
            } else {
                Some(TreeError::NotAChild)
            }
        }
    }

    /// Detaches `child` and its whole subtree from `parent`. Their handlers go with them,
    /// and every constraint that mentions one of them leaves the tree and is handed back, so
    /// that the solver can drop it too. On an error the tree is left as it was.
    pub fn remove_child(&mut self, parent: u64, child: u64) -> (r: Result<Removed, TreeError>)
        requires
            old(self).wf(),
        ensures
            final(self).wf(),
            final(self).next_id == old(self).next_id,
            match old(self).remove_error(parent, child) {
                Some(err) => r is Err && r->Err_0 == err && final(self).nodes@ == old(self).nodes@
                    && final(self).constraints@ == old(self).constraints@,
                None => {
                    let c = index_in(old(self).ids(), child);
                    let e = subtree_end(old(self).depths(), c);
                    let gone = old(self).ids().subrange(c, e);
                    &&& r is Ok
                    &&& final(self).nodes@ == old(self).nodes@.subrange(0, c) + old(
                        self,
                    ).nodes@.subrange(e, old(self).nodes@.len() as int)
                    &&& r->Ok_0.widgets@ == gone
                    &&& forall|w: u64| gone.contains(w) ==> !final(self).has(w)
                    &&& final(self).constraints@ == old(self).constraints@.filter(
                        |k: Constraint| !mentions_any(k, gone),
                    )
                    &&& r->Ok_0.constraints@ == old(self).constraints@.filter(
                        |k: Constraint| mentions_any(k, gone),
                    )
                },
            },
    {
        let p = match self.find(parent) {
            Some(p) => p,
            None => {
                return Err(TreeError::NoSuchWidget);
            },
        };
        let c = match self.find(child) {
            Some(c) => c,
            None => {
                return Err(TreeError::NoSuchWidget);
            },
        };
        proof {
            let ids = self.ids();
            assert(ids[p as int] == parent && ids[c as int] == child);
            let j = index_in(ids, parent);
            assert(0 <= j < ids.len() && ids[j] == parent);
            assert(j == p);
            let j2 = index_in(ids, child);
            assert(0 <= j2 < ids.len() && ids[j2] == child);
            assert(j2 == c);
        }
        let pe = self.subtree_end(p);
        if !(p < c && c < pe && self.nodes[c].depth == self.nodes[p].depth + 1) {
            return Err(TreeError::NotAChild);
        }
        let e = self.subtree_end(c);
        proof { lemma_subtree_end(self.depths(), c as int); }
        let ghost old_nodes = self.nodes@;
        let ghost old_cs = self.constraints@;
        let ghost nid = self.next_id;
        let mut widgets: Vec<u64> = Vec::new();
        let mut k: usize = c;
        while k < e
            invariant
                c <= k <= e <= old_nodes.len(),
                self.nodes@ == old_nodes.subrange(0, c as int) + old_nodes.subrange(k as int, old_nodes.len() as int),
                widgets@ == ids_of(old_nodes).subrange(c as int, k as int),
                self.constraints@ == old_cs,
                self.next_id == nid,
            decreases e - k,
        {
            let n = self.nodes.remove(c);
            assert(n == old_nodes[k as int]);
            widgets.push(n.id);
            assert(widgets@ =~= ids_of(old_nodes).subrange(c as int, k + 1));
            assert(self.nodes@ =~= old_nodes.subrange(0, c as int) + old_nodes.subrange(k + 1, old_nodes.len() as int));
            k += 1;
        }
        let ghost gone = widgets@;
        let ghost keep = |x: Constraint| !mentions_any(x, gone);
        let ghost drop = |x: Constraint| mentions_any(x, gone);
        let mut kept: Vec<Constraint> = Vec::new();
        let mut dropped: Vec<Constraint> = Vec::new();
        let mut i: usize = 0;
        while i < self.constraints.len()
            invariant
                self.constraints@ == old_cs,
                i <= old_cs.len(),
                widgets@ == gone,
                keep == (|x: Constraint| !mentions_any(x, gone)),
                drop == (|x: Constraint| mentions_any(x, gone)),
                kept@ == old_cs.take(i as int).filter(keep),
                dropped@ == old_cs.take(i as int).filter(drop),
            decreases old_cs.len() - i,
        {
            let x = self.constraints[i];
            proof {
                let t = old_cs.take(i + 1);
                assert(t.drop_last() =~= old_cs.take(i as int));
                assert(t.last() == x);
                reveal(Seq::filter);
                assert(t.filter(keep) == if keep(x) {
                    old_cs.take(i as int).filter(keep).push(x)
                } else {
                    old_cs.take(i as int).filter(keep)
                });
                assert(t.filter(drop) == if drop(x) {
                    old_cs.take(i as int).filter(drop).push(x)
                } else {
                    old_cs.take(i as int).filter(drop)
                });
            }
            if mentions_any_exec(&x, &widgets) {
                dropped.push(x);
            } else {
                kept.push(x);
            }
            i += 1;
        }
        assert(old_cs.take(i as int) =~= old_cs);
        self.constraints = kept;
        proof {
            let nn = self.nodes@;
            let oi = ids_of(old_nodes);
            assert(self.ids() =~= oi.subrange(0, c as int) + oi.subrange(e as int, oi.len() as int));
            assert(self.depths() =~= depths_of(old_nodes).subrange(0, c as int) + depths_of(old_nodes).subrange(e as int, oi.len() as int));
            lemma_remove_depth(depths_of(old_nodes), c as int, e as int);
            lemma_remove_ids(oi, c as int, e as int);
            assert forall|j: int| 0 <= j < nn.len() implies #[trigger] nn[j].id < self.next_id by {
                if j < c {
                    assert(nn[j] == old_nodes[j]);
                } else {
                    assert(nn[j] == old_nodes[j - c + e]);
                }
            }
            assert forall|j: int| 0 <= j < self.constraints@.len() implies self.has(
                #[trigger] self.constraints@[j].owner) && (self.constraints@[j].kind.other_spec() matches Some(o)
                ==> self.has(o)) by {
                let x = self.constraints@[j];
                old_cs.lemma_filter_pred(keep, j);
                assert(old_cs.filter(keep).contains(x));
                old_cs.lemma_filter_contains_rev(keep, x);
                let j0 = choose|j0: int| 0 <= j0 < old_cs.len() && old_cs[j0] == x;
                assert(keep(x));
                assert(old_cs[j0] == x);
            }
        }
        Ok(Removed { widgets, constraints: dropped })
    }

    /// Whether the node at index `j` is the parent of the node at index `i`: the nearest
    /// earlier node one level up.
    pub open spec fn parent_index(&self, j: int, i: int) -> bool {
        &&& 0 <= j < i < self.nodes@.len()
        &&& self.depths()[j] + 1 == self.depths()[i]
        &&& forall|k: int| j < k < i ==> self.depths()[k] >= self.depths()[i]
    }

    /// The parent of widget `w`; `None` for the root and for a widget not in the tree.
    pub fn parent(&self, w: u64) -> (r: Option<u64>)
        requires
            self.wf(),
        ensures
            match r {
                Some(p) => self.has(w) && exists|j: int|
                    self.parent_index(j, index_in(self.ids(), w)) && self.ids()[j] == p,
                None => !self.has(w) || index_in(self.ids(), w) == 0,
            },
    {
        let i = match self.find(w) {
            Some(i) => i,
            None => {
                return None;
            },
        };
        proof {
            let k = index_in(self.ids(), w);
            assert(self.ids()[i as int] == w);
            assert(0 <= k < self.ids().len() && self.ids()[k] == w);
            assert(k == i);
        }
        if i == 0 {
            return None;
        }
        let ghost d = self.depths();
        let di = self.nodes[i].depth;
        let mut j: usize = i - 1;
        assert(d[i as int] <= d[i - 1] + 1);
        while self.nodes[j].depth >= di
            invariant
                d == self.depths(),
                preorder_depths(d),
                0 <= j < i < d.len(),
                di == d[i as int],
                d[j as int] + 1 >= di,
                forall|k: int| j < k < i ==> d[k] >= di,
            decreases j,
        {
            assert(j > 0);
            assert(d[j as int] <= d[j - 1] + 1);
            j -= 1;
        }
        assert(self.parent_index(j as int, i as int));
        assert(self.ids()[j as int] == self.nodes@[j as int].id);
        Some(self.nodes[j].id)
    }

    /// The container policy of widget `w`, if it is in the tree.
    pub fn container_of(&self, w: u64) -> (r: Option<Container>)
        requires
            self.wf(),
        ensures
            r == (if self.has(w) {
                Some(node_of(*self, w).container)
            } else {
                None::<Container>
            }),
    {
        match self.find(w) {
            Some(i) => {
                proof {
                    let k = index_in(self.ids(), w);
                    assert(self.ids()[i as int] == w);
                    assert(0 <= k < self.ids().len() && self.ids()[k] == w);
                }
                Some(self.nodes[i].container)
            },
            None => None,
        }
    }

    /// The widgets that an event addressed to `target` visits, in visiting order: the
    /// widget itself, its subtree in depth-first preorder, or every widget. A target
    /// that is not in the tree visits nothing.
    pub fn targets(&self, target: Target) -> (r: Vec<u64>)
        requires
            self.wf(),
        ensures
            r@ == self.dispatch_order(target),
    {
        match target {
            Target::Widget(w) => {
                match self.find(w) {
                    Some(i) => {
                        proof { assert(self.ids()[i as int] == w); }
                        let mut r: Vec<u64> = Vec::new();
                        r.push(w);
                        r
                    },
                    None => Vec::new(),
                }
            },
            Target::SubTree(w) => {
                match self.find(w) {
                    Some(i) => {
                        proof {
                            assert(self.ids()[i as int] == w);
                            let j = index_in(self.ids(), w);
                            assert(0 <= j < self.ids().len() && self.ids()[j] == w);
                            assert(j == i);
                            lemma_subtree_end(self.depths(), i as int);
                        }
                        let e = self.subtree_end(i);
                        self.ids_in(i, e)
                    },
                    None => Vec::new(),
                }
            },
            Target::Broadcast => {
                let r = self.ids_in(0, self.nodes.len());
                assert(r@ =~= self.ids());
                r
            },
        }
    }

    /// The indices of the handlers of node `i` registered for exactly `ty`, in
    /// registration order.
    pub fn matching_handlers(&self, i: usize, ty: EventType) -> (r: Vec<usize>)
        requires
            i < self.nodes@.len(),
        ensures
            r@ == matching_spec(self.nodes@[i as int].handlers@, ty),
    {
        let hs = &self.nodes[i].handlers;
        let mut r: Vec<usize> = Vec::new();
        let mut k: usize = 0;
        while k < hs.len()
            invariant
                hs == &self.nodes@[i as int].handlers,
                k <= hs@.len(),
                r@ == matching_spec(hs@.take(k as int), ty),
            decreases hs@.len() - k,
        {
            assert(hs@.take(k + 1).drop_last() =~= hs@.take(k as int));
            if hs[k] == ty {
                r.push(k);
            }
            k += 1;
        }
        assert(hs@.take(k as int) =~= hs@);
        r
    }

    /// Every handler invocation that delivering an event of type `ty` to `target` makes, in
    /// order: the widgets in dispatch order, and at each the handlers registered for
    /// exactly `ty`, in registration order.
    pub fn deliveries(&self, target: Target, ty: EventType) -> (r: Vec<Delivery>)
        requires
            self.wf(),
        ensures
            r@ == calls_spec(*self, self.dispatch_order(target), ty),
    {
        let order = self.targets(target);
        proof { lemma_dispatch_order_in_tree(*self, target); }
        let mut r: Vec<Delivery> = Vec::new();
        let mut j: usize = 0;
        while j < order.len()
            invariant
                self.wf(),
                order@ == self.dispatch_order(target),
                forall|a: int| 0 <= a < order@.len() ==> self.has(#[trigger] order@[a]),
                j <= order@.len(),
                r@ == calls_spec(*self, order@.take(j as int), ty),
            decreases order@.len() - j,
        {
            let w = order[j];
            assert(self.has(order@[j as int]));
            let i = match self.find(w) {
                Some(i) => i,
                None => {
                    return r;
                },
            };
            proof {
                let k = index_in(self.ids(), w);
                assert(self.ids()[i as int] == w);
                assert(0 <= k < self.ids().len() && self.ids()[k] == w);
                assert(k == i);
                let t = order@.take(j + 1);
                assert(t.drop_last() =~= order@.take(j as int));
                assert(t.last() == w);
            }
            let hs = self.matching_handlers(i, ty);
            let ghost before = r@;
            let ghost added = hs@.map_values(|h: usize| Delivery { widget: w, handler: h });
            let mut m: usize = 0;
            while m < hs.len()
                invariant
                    m <= hs@.len(),
                    added == hs@.map_values(|h: usize| Delivery { widget: w, handler: h }),
                    r@ == before + added.take(m as int),
                decreases hs@.len() - m,
            {
                r.push(Delivery { widget: w, handler: hs[m] });
                assert(added.take(m + 1) =~= added.take(m as int).push(added[m as int]));
                assert(before + added.take(m + 1) =~= (before + added.take(m as int)).push(added[m as int]));
                m += 1;
            }
            assert(added.take(m as int) =~= added);
            j += 1;
        }
        assert(order@.take(j as int) =~= order@);
        r
    }
}

/// The display items of the drawable widgets among `nodes`, in order, each drawn with
/// the bounds that `b` records for it.
pub open spec fn draw_items(nodes: Seq<Node>, b: Seq<(u64, Rect)>) -> Seq<DisplayItem>
    decreases nodes.len(),
{
    if nodes.len() == 0 {
        Seq::empty()
    } else {
        let n = nodes.last();
        draw_items(nodes.drop_last(), b) + match n.drawable {
            Some(s) => ellipse_items(s, bounds_in(b, n.id)),
            None => Seq::empty(),
        }
    }
}

impl WidgetTree {
    /// Whether every drawable widget can be drawn in the bounds that `b` records for it.
    pub open spec fn drawable_fits(&self, b: Seq<(u64, Rect)>) -> bool {
        forall|k: int|
            0 <= k < self.nodes@.len() ==> ((#[trigger] self.nodes@[k]).drawable matches Some(s)
                ==> ellipse_fits(s, bounds_in(b, self.nodes@[k].id)))
    }

    /// The draw pass: every widget with a drawable draws itself into `renderer`, in tree
    /// order, so that children come after (above) their parent and later siblings after
    /// earlier ones.
    pub fn draw(&self, bounds: &Vec<(u64, Rect)>, renderer: &mut RenderBuilder)
        requires
            self.drawable_fits(bounds@),
        ensures
            final(renderer).items@ == old(renderer).items@ + draw_items(self.nodes@, bounds@),
    {
        let ghost start = renderer.items@;
        let mut k: usize = 0;
        assert(self.nodes@.take(0) =~= Seq::<Node>::empty());
        assert(start + Seq::<DisplayItem>::empty() =~= start);
        while k < self.nodes.len()
            invariant
                self.drawable_fits(bounds@),
                k <= self.nodes@.len(),
                renderer.items@ == start + draw_items(self.nodes@.take(k as int), bounds@),
            decreases self.nodes@.len() - k,
        {
            let ghost before = renderer.items@;
            assert(self.nodes@.take(k + 1).drop_last() =~= self.nodes@.take(k as int));
            assert(self.nodes@.take(k + 1).last() == self.nodes@[k as int]);
            match self.nodes[k].drawable {
                Some(s) => {
                    let r = state_of(bounds, self.nodes[k].id, Rect::new(0, 0, 0, 0));
                    s.draw(r, r, renderer);
                },
                None => {},
            }
            assert(renderer.items@ =~= start + draw_items(self.nodes@.take(k + 1), bounds@));
            k += 1;
        }
        assert(self.nodes@.take(k as int) =~= self.nodes@);
    }
}

/// One handler invocation: the widget, and the index of the handler among its handlers.
#[derive(Clone, Copy, Debug, PartialEq, Eq, Structural)]
pub struct Delivery {
    pub widget: u64,
    pub handler: usize,
}

/// The indices of `hs` that hold exactly `ty`, ascending.
pub open spec fn matching_spec(hs: Seq<EventType>, ty: EventType) -> Seq<usize>
    decreases hs.len(),
{
    if hs.len() == 0 {
        Seq::empty()
    } else {
        let r = matching_spec(hs.drop_last(), ty);
        if hs.last() == ty {
            r.push((hs.len() - 1) as usize)
        } else {
            r
        }
    }
}

/// The node of widget `w`.
pub open spec fn node_of(t: WidgetTree, w: u64) -> Node {
    t.nodes@[index_in(t.ids(), w)]
}

/// The handler invocations for widgets `order`, in order.
pub open spec fn calls_spec(t: WidgetTree, order: Seq<u64>, ty: EventType) -> Seq<Delivery>
    decreases order.len(),
{
    if order.len() == 0 {
        Seq::empty()
    } else {
        let w = order.last();
        calls_spec(t, order.drop_last(), ty) + matching_spec(node_of(t, w).handlers@, ty).map_values(
            |h: usize| Delivery { widget: w, handler: h },
        )
    }
}

/// A handler is invoked only for events of exactly its registered type, and every
/// handler registered for that type is invoked, in registration order.
pub proof fn lemma_matching_exact(hs: Seq<EventType>, ty: EventType)
    requires
        hs.len() <= usize::MAX,
    ensures
        forall|a: int, b: int| 0 <= a < b < matching_spec(hs, ty).len() ==> matching_spec(hs, ty)[a] < matching_spec(hs, ty)[b],
        forall|a: int|
            0 <= a < matching_spec(hs, ty).len() ==> matching_spec(hs, ty)[a] < hs.len() && hs[matching_spec(hs, ty)[a] as int] == ty,
        forall|h: int| 0 <= h < hs.len() && hs[h] == ty ==> matching_spec(hs, ty).contains(h as usize),
    decreases hs.len(),
{
    if hs.len() > 0 {
        let p = hs.drop_last();
        lemma_matching_exact(p, ty);
        let r = matching_spec(p, ty);
        let m = matching_spec(hs, ty);
        if hs.last() == ty {
            assert(m == r.push((hs.len() - 1) as usize));
            assert forall|a: int| 0 <= a < m.len() implies m[a] < hs.len() && hs[m[a] as int] == ty by {
                if a < r.len() {
                    assert(m[a] == r[a]);
                    assert(hs[m[a] as int] == p[m[a] as int]);
                }
            }
        } else {
            assert forall|a: int| 0 <= a < m.len() implies m[a] < hs.len() && hs[m[a] as int] == ty by {
                assert(hs[m[a] as int] == p[m[a] as int]);
            }
        }
        assert forall|h: int| 0 <= h < hs.len() && hs[h] == ty implies matching_spec(hs, ty).contains(h as usize) by {
            if h < hs.len() - 1 {
                assert(p[h] == ty);
                let a = choose|a: int| 0 <= a < r.len() && r[a] == h as usize;
                assert(matching_spec(hs, ty)[a] == h as usize);
            } else {
                assert(matching_spec(hs, ty).last() == h as usize);
            }
        }
    }
}

proof fn lemma_dispatch_order_in_tree(t: WidgetTree, target: Target)
    requires
        t.wf(),
    ensures
        forall|a: int| 0 <= a < t.dispatch_order(target).len() ==> t.has(#[trigger] t.dispatch_order(target)[a]),
{
    let order = t.dispatch_order(target);
    assert forall|a: int| 0 <= a < order.len() implies t.has(#[trigger] order[a]) by {
        match target {
            Target::SubTree(w) => {
                let i = index_in(t.ids(), w);
                lemma_subtree_end(t.depths(), i);
                assert(t.ids()[a + i] == order[a]);
            },
            Target::Broadcast => {
                assert(t.ids()[a] == order[a]);
            },
            Target::Widget(w) => {},
        }
    }
}

/// Once a widget has left the tree, no constraint of the tree mentions it: teardown
/// leaks nothing into the solver, whatever edits came before.
pub proof fn lemma_no_leaked_constraints(t: WidgetTree, w: u64)
    requires
        t.wf(),
        !t.has(w),
    ensures
        forall|j: int| 0 <= j < t.constraints@.len() ==> !(#[trigger] t.constraints@[j]).mentions(w),
{
}

/// Subtree dispatch visits every node of the subtree exactly once, in depth-first
/// preorder, and no node outside it.
pub proof fn lemma_subtree_dispatch_visits_once(t: WidgetTree, w: u64)
    requires
        t.wf(),
        t.has(w),
    ensures
        ({
            let i = index_in(t.ids(), w);
            let e = subtree_end(t.depths(), i);
            let order = t.dispatch_order(Target::SubTree(w));
            &&& order.no_duplicates()
            &&& order.len() == e - i
            &&& forall|k: int| 0 <= k < t.ids().len() ==> (order.contains(t.ids()[k]) <==> i <= k < e)
            &&& forall|k: int| i <= k < e ==> order[k - i] == t.ids()[k]
            &&& order[0] == w
        }),
{
    let ids = t.ids();
    let i = index_in(ids, w);
    lemma_subtree_end(t.depths(), i);
    let e = subtree_end(t.depths(), i);
    let order = t.dispatch_order(Target::SubTree(w));
    assert(order == ids.subrange(i, e));
    assert forall|k: int| 0 <= k < ids.len() implies (order.contains(ids[k]) <==> i <= k < e) by {
        if i <= k < e {
            assert(order[k - i] == ids[k]);
        }
        if order.contains(ids[k]) {
            let a = choose|a: int| 0 <= a < order.len() && order[a] == ids[k];
            assert(ids[a + i] == ids[k]);
        }
    }
}

/// An event addressed to a widget that is not in the tree, alone or as a subtree root,
/// visits nothing.
pub proof fn lemma_missing_target_is_noop(t: WidgetTree, w: u64)
    requires
        !t.has(w),
    ensures
        t.dispatch_order(Target::Widget(w)).len() == 0,
        t.dispatch_order(Target::SubTree(w)).len() == 0,
{
}

} // verus!
