//! Layout variables, constraints and the cache of resolved values that tells which
//! variables a solve changed.
use vstd::prelude::*;

verus! {

/// Priority tier of a constraint, weakest first.
#[derive(Clone, Copy, Debug, PartialEq, Eq, Structural)]
pub enum Strength {
    Weak,
    Medium,
    Strong,
    Required,
}

impl Strength {
    pub open spec fn rank_spec(self) -> nat {
        match self {
            Strength::Weak => 0,
            Strength::Medium => 1,
            Strength::Strong => 2,
            Strength::Required => 3,
        }
    }

    /// The tier's position in the order WEAK < MEDIUM < STRONG < REQUIRED.
    pub fn rank(&self) -> (r: u8)
        ensures
            r == self.rank_spec(),
    {
        match self {
            Strength::Weak => 0,
            Strength::Medium => 1,
            Strength::Strong => 2,
            Strength::Required => 3,
        }
    }

    /// Whether `self` wins a tie-break against `other`.
    pub fn overrides(&self, other: &Strength) -> (r: bool)
        ensures
            r == (self.rank_spec() > other.rank_spec()),
    {
        self.rank() > other.rank()
    }
}

/// Which of a widget's layout variables.
#[derive(Clone, Copy, Debug, PartialEq, Eq, Structural)]
pub enum VarKind {
    Left,
    Top,
    Width,
    Height,
}

/// One solver variable: a coordinate of a widget's bounds.
#[derive(Clone, Copy, Debug, PartialEq, Eq, Structural)]
pub struct Var {
    pub widget: u64,
    pub kind: VarKind,
}

/// The relation a constraint states about its owner's bounds.
#[derive(Clone, Copy, Debug, PartialEq, Eq, Structural)]
pub enum ConstraintKind {
    /// owner.left == other.left
    AlignLeft(u64),
    /// owner.top == other.top
    AlignTop(u64),
    /// owner.right == other.right
    AlignRight(u64),
    /// owner.bottom == other.bottom
    AlignBottom(u64),
    /// owner.width == value
    Width(i64),
    /// owner.height == value
    Height(i64),
}

/// A constraint contributed for a widget, with its strength.
#[derive(Clone, Copy, Debug, PartialEq, Eq, Structural)]
pub struct Constraint {
    pub owner: u64,
    pub kind: ConstraintKind,
    pub strength: Strength,
}

impl ConstraintKind {
    /// The other widget that the constraint refers to, if any.
    pub open spec fn other_spec(self) -> Option<u64> {
        match self {
            ConstraintKind::AlignLeft(o) => Some(o),
            ConstraintKind::AlignTop(o) => Some(o),
            ConstraintKind::AlignRight(o) => Some(o),
            ConstraintKind::AlignBottom(o) => Some(o),
            _ => None,
        }
    }

    pub fn other(&self) -> (r: Option<u64>)
        ensures
            r == self.other_spec(),
    {
        match self {
            ConstraintKind::AlignLeft(o) => Some(*o),
            ConstraintKind::AlignTop(o) => Some(*o),
            ConstraintKind::AlignRight(o) => Some(*o),
            ConstraintKind::AlignBottom(o) => Some(*o),
            _ => None,
        }
    }
}

impl Constraint {
    /// Whether the constraint mentions widget `w`, as owner or as the widget it refers to.
    pub open spec fn mentions(self, w: u64) -> bool {
        self.owner == w || self.kind.other_spec() == Some(w)
    }
}

/// Whether no two entries of `r` are for the same variable.
pub open spec fn unique_vars(r: Seq<(Var, i64)>) -> bool {
    forall|a: int, b: int| 0 <= a < b < r.len() ==> r[a].0 != r[b].0
}

/// Whether `c` holds every value that `r` gives.
pub open spec fn holds_all(c: Map<Var, i64>, r: Seq<(Var, i64)>) -> bool {
    forall|j: int| 0 <= j < r.len() ==> c.contains_key(r[j].0) && c[r[j].0] == r[j].1
}

/// Whether `r` gives `v` a value that `c` does not already hold for it.
pub open spec fn is_changed(c: Map<Var, i64>, r: Seq<(Var, i64)>, v: Var) -> bool {
    exists|j: int| 0 <= j < r.len() && r[j].0 == v && !(c.contains_key(v) && c[v] == r[j].1)
}

/// Whether `r` gives a value to `v`.
pub open spec fn mentions_var(r: Seq<(Var, i64)>, v: Var) -> bool {
    exists|j: int| 0 <= j < r.len() && r[j].0 == v
}

spec fn in_prefix(r: Seq<(Var, i64)>, n: int, v: Var) -> bool {
    exists|j: int| 0 <= j < n && r[j].0 == v
}

/// The last resolved value of each variable.
pub struct ValueCache {
    entries: Vec<(Var, i64)>,
    values: Ghost<Map<Var, i64>>,
}

impl View for ValueCache {
    type V = Map<Var, i64>;

    closed spec fn view(&self) -> Map<Var, i64> {
        self.values@
    }
}

impl ValueCache {
    pub closed spec fn wf(&self) -> bool {
        &&& unique_vars(self.entries@)
        &&& forall|i: int|
            0 <= i < self.entries@.len() ==> #[trigger] self.values@.contains_key(
                self.entries@[i].0,
            ) && self.values@[self.entries@[i].0] == self.entries@[i].1
        &&& forall|v: Var|
            #[trigger] self.values@.contains_key(v) ==> exists|i: int|
                0 <= i < self.entries@.len() && self.entries@[i].0 == v
    }

    pub fn new() -> (r: ValueCache)
        ensures
            r.wf(),
            r@ == Map::<Var, i64>::empty(),
    {
        ValueCache { entries: Vec::new(), values: Ghost(Map::empty()) }
    }

    /// The cached value of `v`.
    pub fn get(&self, v: Var) -> (r: Option<i64>)
        requires
            self.wf(),
        ensures
            r == (if self@.contains_key(v) {
                Some(self@[v])
            } else {
                None
            }),
    {
        let mut i: usize = 0;
        while i < self.entries.len()
            invariant
                self.wf(),
                i <= self.entries@.len(),
                forall|j: int| 0 <= j < i ==> self.entries@[j].0 != v,
            decreases self.entries@.len() - i,
        {
            if self.entries[i].0 == v {
                assert(self.values@.contains_key(self.entries@[i as int].0));
                return Some(self.entries[i].1);
            }
            i += 1;
        }
        None
    }

    /// Takes the values that the solver resolved and returns exactly the variables whose
    /// value differs from the one cached (or that had none); the cache then holds the new
    /// values, and keeps the others.
    pub fn solve(&mut self, resolved: &Vec<(Var, i64)>) -> (changed: Vec<Var>)
        requires
            old(self).wf(),
            unique_vars(resolved@),
        ensures
            final(self).wf(),
            holds_all(final(self)@, resolved@),
            forall|v: Var|
                !mentions_var(resolved@, v) ==> (#[trigger] final(self)@.contains_key(v)
                    == old(self)@.contains_key(v) && (old(self)@.contains_key(v) ==> final(
                    self)@[v] == old(self)@[v])),
            changed@.no_duplicates(),
            forall|v: Var| #[trigger] changed@.contains(v) <==> is_changed(old(self)@, resolved@, v),
    {
        let ghost c0 = self@;
        let mut changed: Vec<Var> = Vec::new();
        let mut i: usize = 0;
        while i < resolved.len()
            invariant
                self.wf(),
                i <= resolved@.len(),
                unique_vars(resolved@),
                forall|j: int|
                    0 <= j < i ==> self@.contains_key(#[trigger] resolved@[j].0) && self@[resolved@[j].0]
                        == resolved@[j].1,
                forall|v: Var|
                    !in_prefix(resolved@, i as int, v) ==> (
                    #[trigger] self@.contains_key(v) == c0.contains_key(v) && (c0.contains_key(v)
                        ==> self@[v] == c0[v])),
                changed@.no_duplicates(),
                forall|a: int|
                    0 <= a < changed@.len() ==> exists|j: int|
                        0 <= j < i && resolved@[j].0 == #[trigger] changed@[a] && !(c0.contains_key(
                            resolved@[j].0) && c0[resolved@[j].0] == resolved@[j].1),
                forall|j: int|
                    0 <= j < i && !(c0.contains_key(resolved@[j].0) && c0[resolved@[j].0]
                        == resolved@[j].1) ==> changed@.contains(#[trigger] resolved@[j].0),
            decreases resolved@.len() - i,
        {
            let (v, val) = resolved[i];
            assert(!in_prefix(resolved@, i as int, v));
            let cur = self.get(v);
            let differs = match cur {
                Some(x) => x != val,
                None => true,
            };
            proof {
                assert(self@.contains_key(v) == c0.contains_key(v));
                assert(differs == !(c0.contains_key(v) && c0[v] == val));
            }
            let ghost before = changed@;
            let ghost s0 = self@;
            if differs {
                self.set(v, val);
                proof {
                    assert forall|a: int| 0 <= a < changed@.len() implies changed@[a] != v by {
                        let j = choose|j: int|
                            0 <= j < i && resolved@[j].0 == changed@[a] && !(c0.contains_key(
                                resolved@[j].0) && c0[resolved@[j].0] == resolved@[j].1);
                        assert(resolved@[j].0 != resolved@[i as int].0);
                    }
                }
                changed.push(v);
            }
            proof {
                assert forall|w: Var|
                    !in_prefix(resolved@, i + 1, w) implies (
                    #[trigger] self@.contains_key(w) == c0.contains_key(w) && (c0.contains_key(w)
                        ==> self@[w] == c0[w])) by {
                    assert(resolved@[i as int].0 != w);
                    assert(!in_prefix(resolved@, i as int, w));
                    assert(s0.contains_key(w) == c0.contains_key(w));
                }
                assert forall|a: int| 0 <= a < changed@.len() implies exists|j: int|
                    0 <= j < i + 1 && resolved@[j].0 == #[trigger] changed@[a] && !(c0.contains_key(
                        resolved@[j].0) && c0[resolved@[j].0] == resolved@[j].1) by {
                    if a < before.len() {
                        assert(changed@[a] == before[a]);
                    } else {
                        assert(resolved@[i as int].0 == changed@[a]);
                    }
                }
                assert forall|j: int|
                    0 <= j < i + 1 && !(c0.contains_key(resolved@[j].0) && c0[resolved@[j].0]
                        == resolved@[j].1) implies changed@.contains(#[trigger] resolved@[j].0) by {
                    if j < i {
                        assert(before.contains(resolved@[j].0));
                        let a = choose|a: int| 0 <= a < before.len() && before[a] == resolved@[j].0;
                        assert(changed@[a] == before[a]);
                    } else {
                        assert(changed@[changed@.len() - 1] == v);
                    }
                }
            }
            i += 1;
        }
        proof {
            assert forall|v: Var| #[trigger] changed@.contains(v) implies is_changed(c0, resolved@, v) by {
                let a = choose|a: int| 0 <= a < changed@.len() && changed@[a] == v;
                assert(changed@[a] == v);
            }
            assert forall|v: Var| is_changed(c0, resolved@, v) implies #[trigger] changed@.contains(v) by {
                let j = choose|j: int|
                    0 <= j < resolved@.len() && resolved@[j].0 == v && !(c0.contains_key(v)
                        && c0[v] == resolved@[j].1);
                assert(changed@.contains(resolved@[j].0));
            }
            assert forall|v: Var| !mentions_var(resolved@, v) implies !in_prefix(
                resolved@, resolved@.len() as int, v) by {}
        }
        changed
    }

    fn set(&mut self, v: Var, val: i64)
        requires
            old(self).wf(),
        ensures
            final(self).wf(),
            final(self)@ == old(self)@.insert(v, val),
    {
        let ghost m = self@;
        let ghost e = self.entries@;
        let mut i: usize = 0;
        while i < self.entries.len() && self.entries[i].0 != v
            invariant
                self.entries@ == e,
                i <= e.len(),
                forall|j: int| 0 <= j < i ==> e[j].0 != v,
            decreases e.len() - i,
        {
            i += 1;
        }
        if i < self.entries.len() {
            self.entries.set(i, (v, val));
        } else {
            self.entries.push((v, val));
        }
        self.values = Ghost(m.insert(v, val));
        proof {
            assert(self.entries@[i as int] == (v, val));
            assert forall|k: int| 0 <= k < self.entries@.len() implies #[trigger] self.values@.contains_key(
                self.entries@[k].0) && self.values@[self.entries@[k].0] == self.entries@[k].1 by {
                if k != i {
                    assert(e[k].0 != v);
                    assert(self.entries@[k] == e[k]);
                    assert(m.contains_key(e[k].0));
                }
            }
            assert forall|w: Var| #[trigger] self.values@.contains_key(w) implies exists|k: int|
                0 <= k < self.entries@.len() && self.entries@[k].0 == w by {
                if w != v {
                    let k = choose|k: int| 0 <= k < e.len() && e[k].0 == w;
                    assert(self.entries@[k].0 == w);
                } else {
                    assert(self.entries@[i as int].0 == w);
                }
            }
            assert forall|a: int, b: int| 0 <= a < b < self.entries@.len() implies self.entries@[a].0
                != self.entries@[b].0 by {
                if a != i && b != i {
                    assert(self.entries@[a] == e[a] && self.entries@[b] == e[b]);
                } else if a == i {
                    assert(self.entries@[b] == e[b]);
                    assert(e[b].0 != v || i < e.len());
                } else {
                    assert(self.entries@[a] == e[a]);
                }
            }
        }
    }
}

fn contains_widget(v: &Vec<u64>, w: u64) -> (r: bool)
    ensures
        r == v@.contains(w),
{
    let mut i: usize = 0;
    while i < v.len()
        invariant
            i <= v@.len(),
            forall|j: int| 0 <= j < i ==> v@[j] != w,
        decreases v@.len() - i,
    {
        if v[i] == w {
            return true;
        }
        i += 1;
    }
    false
}

/// The widgets to redraw after a solve: each widget that owns a changed variable, once,
/// in the order of its first changed variable.
pub fn dirty_widgets(changed: &Vec<Var>) -> (r: Vec<u64>)
    ensures
        r@.no_duplicates(),
        forall|w: u64| r@.contains(w) <==> exists|i: int| 0 <= i < changed@.len() && #[trigger] changed@[i].widget == w,
{
    let mut r: Vec<u64> = Vec::new();
    let mut i: usize = 0;
    while i < changed.len()
        invariant
            i <= changed@.len(),
            r@.no_duplicates(),
            forall|w: u64| r@.contains(w) <==> exists|j: int| 0 <= j < i && #[trigger] changed@[j].widget == w,
        decreases changed@.len() - i,
    {
        let w = changed[i].widget;
        let ghost before = r@;
        if !contains_widget(&r, w) {
            r.push(w);
            proof {
                assert forall|u: u64| r@.contains(u) <==> exists|j: int| 0 <= j < i + 1 && #[trigger] changed@[j].widget == u by {
                    if r@.contains(u) && u != w {
                        let a = choose|a: int| 0 <= a < r@.len() && r@[a] == u;
                        assert(before[a] == u);
                        assert(before.contains(u));
                    }
                    if u == w {
                        assert(r@[before.len() as int] == w);
                        assert(changed@[i as int].widget == u);
                    }
                    if (exists|j: int| 0 <= j < i + 1 && #[trigger] changed@[j].widget == u) && u != w {
                        let j = choose|j: int| 0 <= j < i + 1 && #[trigger] changed@[j].widget == u;
                        assert(j < i);
                        assert(before.contains(u));
                        let a = choose|a: int| 0 <= a < before.len() && before[a] == u;
                        assert(r@[a] == u);
                    }
                }
            }
        } else {
            proof {
                assert forall|u: u64| r@.contains(u) <==> exists|j: int| 0 <= j < i + 1 && #[trigger] changed@[j].widget == u by {
                    if (exists|j: int| 0 <= j < i + 1 && #[trigger] changed@[j].widget == u) && u != w {
                        let j = choose|j: int| 0 <= j < i + 1 && #[trigger] changed@[j].widget == u;
                        assert(j < i);
                    }
                }
            }
        }
        i += 1;
    }
    r
}

/// Solving again with no change in between reports nothing: once a cache holds every
/// value that a batch gives, that batch changes no variable of it.
pub proof fn lemma_solve_twice_reports_nothing(c: Map<Var, i64>, r: Seq<(Var, i64)>)
    requires
        holds_all(c, r),
    ensures
        forall|v: Var| !is_changed(c, r, v),
{
}

} // verus!
