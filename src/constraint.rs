//! Clue-derived constraints and how each one propagates through the grid.
use crate::grid::{Cell, Grid, same_pair};
use crate::puzzle::{Category, Label};
use vstd::prelude::*;

verus! {

/// The closed set of relations a clue can state.
pub enum ConstraintKind {
    /// `Yes(x, y)`: x and y belong to the same entity.
    Yes(Label, Label),
    /// `No(x, y)`: x and y belong to different entities.
    No(Label, Label),
    /// `Or(x, y, z)`: x goes with y or with z (y and z share a category).
    Or(Label, Label, Label),
    /// `Xor(x, y, z)`: x goes with exactly one of y and z.
    Xor(Label, Label, Label),
    /// `After(x, c, y)`: x comes after y in the order of category c.
    After(Label, Category, Label),
    /// `AfterAtLeast(x, c, y, n)`: x is at least n places after y in category c.
    AfterAtLeast(Label, Category, Label, usize),
    /// `AfterExactly(x, c, y, n)`: x is exactly n places after y in category c.
    AfterExactly(Label, Category, Label, usize),
    /// `Distance(x, c, y, n)`: x is n places before or after y in category c.
    Distance(Label, Category, Label, usize),
    /// `TwoByTwo(x1, x2, y1, y2)`: either (x1,y1) and (x2,y2) hold, or
    /// (x1,y2) and (x2,y1) hold.
    TwoByTwo(Label, Label, Label, Label),
    /// `ExactlyOne([(xi, yi)])`: exactly one listed pair holds.
    ExactlyOne(Vec<(Label, Label)>),
}

/// One clue of a puzzle, with the name it is reported under.
pub struct Constraint {
    pub kind: ConstraintKind,
    pub name: String,
}

/// `l` names a label of a puzzle with `ncat` categories of `lpc` labels.
pub open spec fn label_in_range(l: Label, ncat: nat, lpc: nat) -> bool {
    l.category.0 < ncat && l.label < lpc
}

/// Both labels of every pair exist in the puzzle.
pub open spec fn pairs_in_range(pairs: Seq<(Label, Label)>, ncat: nat, lpc: nat) -> bool {
    forall|i: int|
        0 <= i < pairs.len() ==> label_in_range((#[trigger] pairs[i]).0, ncat, lpc) && label_in_range(
            pairs[i].1,
            ncat,
            lpc,
        )
}

impl ConstraintKind {
    /// Every label and category the constraint names exists in a puzzle with
    /// `ncat` categories of `lpc` labels.
    pub open spec fn in_range(&self, ncat: nat, lpc: nat) -> bool {
        match self {
            ConstraintKind::Yes(x, y) => label_in_range(*x, ncat, lpc) && label_in_range(*y, ncat, lpc),
            ConstraintKind::No(x, y) => label_in_range(*x, ncat, lpc) && label_in_range(*y, ncat, lpc),
            ConstraintKind::Or(x, y, z) => label_in_range(*x, ncat, lpc) && label_in_range(*y, ncat, lpc)
                && label_in_range(*z, ncat, lpc),
            ConstraintKind::Xor(x, y, z) => label_in_range(*x, ncat, lpc) && label_in_range(*y, ncat, lpc)
                && label_in_range(*z, ncat, lpc),
            ConstraintKind::After(x, c, y) => label_in_range(*x, ncat, lpc) && c.0 < ncat
                && label_in_range(*y, ncat, lpc),
            ConstraintKind::AfterAtLeast(x, c, y, _) => label_in_range(*x, ncat, lpc) && c.0 < ncat
                && label_in_range(*y, ncat, lpc),
            ConstraintKind::AfterExactly(x, c, y, _) => label_in_range(*x, ncat, lpc) && c.0 < ncat
                && label_in_range(*y, ncat, lpc),
            ConstraintKind::Distance(x, c, y, _) => label_in_range(*x, ncat, lpc) && c.0 < ncat
                && label_in_range(*y, ncat, lpc),
            ConstraintKind::TwoByTwo(x1, x2, y1, y2) => label_in_range(*x1, ncat, lpc)
                && label_in_range(*x2, ncat, lpc) && label_in_range(*y1, ncat, lpc)
                && label_in_range(*y2, ncat, lpc),
            ConstraintKind::ExactlyOne(pairs) => pairs_in_range(pairs@, ncat, lpc),
        }
    }
}

impl Constraint {
    pub open spec fn in_range(&self, ncat: nat, lpc: nat) -> bool {
        self.kind.in_range(ncat, lpc)
    }
}

fn label_within(l: Label, ncat: usize, lpc: usize) -> (r: bool)
    ensures
        r == label_in_range(l, ncat as nat, lpc as nat),
{
    l.category.0 < ncat && l.label < lpc
}

impl ConstraintKind {
    /// Executable form of `in_range`.
    pub(crate) fn within(&self, ncat: usize, lpc: usize) -> (r: bool)
        ensures
            r == self.in_range(ncat as nat, lpc as nat),
    {
        match self {
            ConstraintKind::Yes(x, y) => label_within(*x, ncat, lpc) && label_within(*y, ncat, lpc),
            ConstraintKind::No(x, y) => label_within(*x, ncat, lpc) && label_within(*y, ncat, lpc),
            ConstraintKind::Or(x, y, z) => label_within(*x, ncat, lpc) && label_within(*y, ncat, lpc)
                && label_within(*z, ncat, lpc),
            ConstraintKind::Xor(x, y, z) => label_within(*x, ncat, lpc) && label_within(*y, ncat, lpc)
                && label_within(*z, ncat, lpc),
            ConstraintKind::After(x, c, y) => label_within(*x, ncat, lpc) && c.0 < ncat
                && label_within(*y, ncat, lpc),
            ConstraintKind::AfterAtLeast(x, c, y, _) => label_within(*x, ncat, lpc) && c.0 < ncat
                && label_within(*y, ncat, lpc),
            ConstraintKind::AfterExactly(x, c, y, _) => label_within(*x, ncat, lpc) && c.0 < ncat
                && label_within(*y, ncat, lpc),
            ConstraintKind::Distance(x, c, y, _) => label_within(*x, ncat, lpc) && c.0 < ncat
                && label_within(*y, ncat, lpc),
            ConstraintKind::TwoByTwo(x1, x2, y1, y2) => label_within(*x1, ncat, lpc)
                && label_within(*x2, ncat, lpc) && label_within(*y1, ncat, lpc)
                && label_within(*y2, ncat, lpc),
            ConstraintKind::ExactlyOne(pairs) => {
                let mut i: usize = 0;
                while i < pairs.len()
                    invariant
                        0 <= i <= pairs@.len(),
                        self.in_range(ncat as nat, lpc as nat) == pairs_in_range(pairs@, ncat as nat, lpc as nat),
                        forall|j: int| 0 <= j < i ==> label_in_range((#[trigger] pairs@[j]).0, ncat as nat, lpc as nat)
                            && label_in_range(pairs@[j].1, ncat as nat, lpc as nat),
                    decreases pairs@.len() - i,
                {
                    if !label_within(pairs[i].0, ncat, lpc) || !label_within(pairs[i].1, ncat, lpc) {
                        assert(!(label_in_range(pairs@[i as int].0, ncat as nat, lpc as nat) && label_in_range(
                            pairs@[i as int].1,
                            ncat as nat,
                            lpc as nat,
                        )));
                        assert(!pairs_in_range(pairs@, ncat as nat, lpc as nat));
                        return false;
                    }
                    i = i + 1;
                }
                true
            },
        }
    }
}

/// `set(a, b, v)` as one write of a propagation that started from `start`
/// and has changed the grid iff `changed`.
fn put(
    grid: &mut Grid,
    a: Label,
    b: Label,
    v: Cell,
    changed: bool,
    Ghost(start): Ghost<Grid>,
    why: &str,
) -> (r: Option<bool>)
    requires
        old(grid).wf(),
        old(grid).valid(a),
        old(grid).valid(b),
        v != Cell::Empty,
        start.wf(),
        start.stepped(*old(grid), Some(changed)),
    ensures
        final(grid).wf(),
        start.stepped(
            *final(grid),
            match r {
                Some(c) => Some(changed || c),
                None => None,
            },
        ),
        r is Some ==> final(grid).cell(a, b) == v,
        r != Some(true) ==> *final(grid) == *old(grid),
        r is None ==> final(grid).cell(a, b) != Cell::Empty && final(grid).cell(a, b) != v,
        old(grid).extends(*final(grid)),
        !changed ==> (r == Some(false) <==> start.cell(a, b) == v),
        !changed ==> (r is Some <==> start.cell(a, b) != Cell::Empty ==> start.cell(a, b) == v),
{
    let ghost before = *grid;
    let r = grid.set_with_callback(a, b, v, || why.to_owned());
    proof {
        start.lemma_stepped_chain(before, *grid, changed, r);
        if !changed {
            assert(start.cell(a, b) == before.cell(a, b));
        }
        if r is Some {
            assert(grid.cell(a, b) == v);
        }
    }
    r
}

/// `(x, y)` holds the value `v` already.
pub open spec fn holds(g: Grid, x: Label, y: Label, v: Cell) -> bool {
    g.cell(x, y) == v
}

/// Everything `Or(x, y, z)` would write already holds in `g`.
pub open spec fn or_stable(g: Grid, x: Label, y: Label, z: Label) -> bool {
    &&& (g.cell(x, y) == Cell::No ==> g.cell(x, z) == Cell::Yes)
    &&& (g.cell(x, y) != Cell::No && g.cell(x, z) == Cell::No ==> g.cell(x, y) == Cell::Yes)
    &&& forall|w: Label|
        #![trigger g.cell(w, x)]
        g.valid(w) && g.cell(w, y) == Cell::No && g.cell(w, z) == Cell::No ==> g.cell(w, x) == Cell::No
}

/// The part of `Xor(x, y, z)` that does not scan the other labels.
pub open spec fn xor_head_stable(g: Grid, x: Label, y: Label, z: Label) -> bool {
    &&& g.cell(y, z) == Cell::No
    &&& (g.cell(x, y) == Cell::No ==> g.cell(x, z) == Cell::Yes)
    &&& (g.cell(x, y) != Cell::No && g.cell(x, z) == Cell::No ==> g.cell(x, y) == Cell::Yes)
    &&& (g.cell(x, y) == Cell::Yes ==> g.cell(x, z) == Cell::No)
    &&& (g.cell(x, y) != Cell::Yes && g.cell(x, z) == Cell::Yes ==> g.cell(x, y) == Cell::No)
}

/// `w` agrees with both of `y` and `z`, or with neither.
pub open spec fn xor_excludes(g: Grid, y: Label, z: Label, w: Label) -> bool {
    (g.cell(y, w) == Cell::No && g.cell(z, w) == Cell::No) || (g.cell(y, w) == Cell::Yes && g.cell(z, w) == Cell::Yes)
}

/// Everything `Xor(x, y, z)` would write already holds in `g`.
pub open spec fn xor_stable(g: Grid, x: Label, y: Label, z: Label) -> bool {
    &&& xor_head_stable(g, x, y, z)
    &&& forall|w: Label|
        #![trigger g.cell(x, w)]
        g.valid(w) && w.category != x.category && xor_excludes(g, y, z, w) ==> g.cell(x, w) == Cell::No
}

/// `(x, y)` is decided and is not `v`.
pub open spec fn opposed(g: Grid, x: Label, y: Label, v: Cell) -> bool {
    g.cell(x, y) != Cell::Empty && g.cell(x, y) != v
}

/// A write `Or(x, y, z)` forces meets the opposite value in `g`.
pub open spec fn or_conflict(g: Grid, x: Label, y: Label, z: Label) -> bool {
    ||| g.cell(x, y) == Cell::No && g.cell(x, z) == Cell::No
    ||| exists|w: Label|
        #![trigger g.cell(w, x)]
        g.valid(w) && g.cell(w, y) == Cell::No && g.cell(w, z) == Cell::No && g.cell(w, x) == Cell::Yes
}

/// A write `Xor(x, y, z)` forces meets the opposite value in `g`.
pub open spec fn xor_conflict(g: Grid, x: Label, y: Label, z: Label) -> bool {
    ||| g.cell(y, z) == Cell::Yes
    ||| g.cell(x, y) == Cell::No && g.cell(x, z) == Cell::No
    ||| g.cell(x, y) == Cell::Yes && g.cell(x, z) == Cell::Yes
    ||| exists|w: Label|
        #![trigger g.cell(x, w)]
        g.valid(w) && w.category != x.category && xor_excludes(g, y, z, w) && g.cell(x, w) == Cell::Yes
}

/// Sets `(x, y)` to `v`, the propagation of `Yes` and of `No`.
fn apply_direct(grid: &mut Grid, x: Label, y: Label, v: Cell) -> (r: Option<bool>)
    requires
        old(grid).wf(),
        old(grid).valid(x),
        old(grid).valid(y),
        v != Cell::Empty,
    ensures
        final(grid).wf(),
        old(grid).stepped(*final(grid), r),
        r == Some(false) ==> *final(grid) == *old(grid),
        r == Some(false) <==> holds(*old(grid), x, y, v),
        r is None ==> opposed(*final(grid), x, y, v),
        r == old(grid).outcome(x, y, v),
        old(grid).written(*final(grid), x, y, v, r == Some(true)),
{
    if v == Cell::Yes {
        grid.set_with_callback(x, y, v, || "named together by a clue".to_owned())
    } else {
        grid.set_with_callback(x, y, v, || "kept apart by a clue".to_owned())
    }
}

/// The cells a successful `Or(x, y, z)` on `g0` has decided in `g`: x goes
/// with one of y and z when ruled out of the other, and every label ruled
/// out against both y and z is ruled out against x.
pub open spec fn or_written(g0: Grid, g: Grid, x: Label, y: Label, z: Label) -> bool {
    &&& g0.cell(x, y) == Cell::No ==> g.cell(x, z) == Cell::Yes
    &&& g0.cell(x, z) == Cell::No ==> g.cell(x, y) == Cell::Yes
    &&& forall|w: Label|
        #![trigger g.cell(w, x)]
        g.valid(w) && g0.cell(w, y) == Cell::No && g0.cell(w, z) == Cell::No ==> g.cell(w, x) == Cell::No
}

fn apply_or(grid: &mut Grid, x: Label, y: Label, z: Label) -> (r: Option<bool>)
    requires
        old(grid).wf(),
        old(grid).valid(x),
        old(grid).valid(y),
        old(grid).valid(z),
    ensures
        final(grid).wf(),
        old(grid).stepped(*final(grid), r),
        r == Some(false) ==> *final(grid) == *old(grid),
        r == Some(false) <==> or_stable(*old(grid), x, y, z),
        r is None ==> or_conflict(*final(grid), x, y, z),
        r is Some ==> or_written(*old(grid), *final(grid), x, y, z),
{
    let ghost start = *grid;
    let labels = grid.labels();
    let mut changed = false;
    proof {
        assert(start.stepped(*grid, Some(false)));
    }
    // If one of them is No, the other must be Yes.
    if *grid.at(x, y) == Cell::No {
        match put(grid, x, z, Cell::Yes, changed, Ghost(start), "one of the two choices of an either-or clue") {
            None => {
            proof {
                assert(or_conflict(*grid, x, y, z));
            }
            return None;
        },
            Some(c) => changed = changed || c,
        }
    } else if *grid.at(x, z) == Cell::No {
        match put(grid, x, y, Cell::Yes, changed, Ghost(start), "one of the two choices of an either-or clue") {
            None => {
            proof {
                assert(or_conflict(*grid, x, y, z));
            }
            return None;
        },
            Some(c) => changed = changed || c,
        }
    }
    let ghost head_ok = (start.cell(x, y) == Cell::No ==> start.cell(x, z) == Cell::Yes) && (start.cell(x, y)
        != Cell::No && start.cell(x, z) == Cell::No ==> start.cell(x, y) == Cell::Yes);
    // Now search for any existing labels which are neither,
    // and eliminate them as possibilities.
    let mut i: usize = 0;
    while i < labels.len()
        invariant
            start.wf(),
            grid.wf(),
            start.stepped(*grid, Some(changed)),
            !changed ==> *grid == start,
            start == *old(grid),
            start.valid(x),
            start.valid(y),
            start.valid(z),
            head_ok == ((start.cell(x, y) == Cell::No ==> start.cell(x, z) == Cell::Yes) && (start.cell(x, y)
                != Cell::No && start.cell(x, z) == Cell::No ==> start.cell(x, y) == Cell::Yes)),
            !changed ==> head_ok,
            changed ==> !or_stable(start, x, y, z),
            start.cell(x, y) == Cell::No ==> grid.cell(x, z) == Cell::Yes,
            start.cell(x, z) == Cell::No ==> grid.cell(x, y) == Cell::Yes,
            forall|m: int|
                0 <= m < i && start.cell(#[trigger] labels@[m], y) == Cell::No && start.cell(labels@[m], z) == Cell::No
                    ==> grid.cell(labels@[m], x) == Cell::No,
            labels@.len() == start.ncat() * start.lpc(),
            forall|m: int| 0 <= m < labels@.len() ==> start.valid(#[trigger] labels@[m]) && start.idx(labels@[m]) == m,
            forall|a: Label| start.valid(a) ==> labels@[#[trigger] start.idx(a)] == a,
            0 <= i <= labels@.len(),
            !changed ==> forall|m: int|
                0 <= m < i ==> (start.cell(#[trigger] labels@[m], y) == Cell::No && start.cell(labels@[m], z)
                    == Cell::No ==> start.cell(labels@[m], x) == Cell::No),
        decreases labels@.len() - i,
    {
        let attempt = labels[i];
        let first = *grid.at(attempt, y) == Cell::No;
        let second = *grid.at(attempt, z) == Cell::No;
        if first && second {
            let ghost was = changed;
            match put(grid, attempt, x, Cell::No, changed, Ghost(start), "one of the two choices of an either-or clue") {
                None => {
                    return None;
                },
                Some(c) => {
                    changed = changed || c;
                },
            }
        }
        i = i + 1;
    }
    proof {
        assert forall|w: Label|
            grid.valid(w) && start.cell(w, y) == Cell::No && start.cell(w, z) == Cell::No implies #[trigger] grid.cell(
            w,
            x,
        ) == Cell::No by {
            assert(labels@[start.idx(w)] == w);
            start.lemma_idx_bound(w);
        }
        if !changed {
            assert forall|w: Label|
                start.valid(w) && start.cell(w, y) == Cell::No && start.cell(w, z) == Cell::No implies #[trigger] start.cell(
                w,
                x,
            ) == Cell::No by {
                assert(labels@[start.idx(w)] == w);
                start.lemma_idx_bound(w);
            }
        }
    }
    Some(changed)
}

/// The cells `Xor(x, y, z)` decides without scanning, as `g` holds them
/// after a successful application to `g0`.
pub open spec fn xor_head_written(g0: Grid, g: Grid, x: Label, y: Label, z: Label) -> bool {
    &&& g.cell(y, z) == Cell::No
    &&& g0.cell(x, y) == Cell::No ==> g.cell(x, z) == Cell::Yes
    &&& g0.cell(x, z) == Cell::No ==> g.cell(x, y) == Cell::Yes
    &&& g0.cell(x, y) == Cell::Yes ==> g.cell(x, z) == Cell::No
    &&& g0.cell(x, z) == Cell::Yes ==> g.cell(x, y) == Cell::No
}

/// The cells a successful `Xor(x, y, z)` on `g0` has decided in `g`: y-z is
/// No, x goes with one of y and z when it is ruled out of the other (and not
/// with it when it goes with the other), and x is ruled out of every label of
/// another category that agrees with both of y and z, or with neither.
pub open spec fn xor_written(g0: Grid, g: Grid, x: Label, y: Label, z: Label) -> bool {
    &&& xor_head_written(g0, g, x, y, z)
    &&& forall|w: Label|
        #![trigger g.cell(x, w)]
        g.valid(w) && w.category != x.category && xor_excludes(g0, y, z, w) ==> g.cell(x, w) == Cell::No
}

fn apply_xor(grid: &mut Grid, x: Label, y: Label, z: Label) -> (r: Option<bool>)
    requires
        old(grid).wf(),
        old(grid).valid(x),
        old(grid).valid(y),
        old(grid).valid(z),
    ensures
        final(grid).wf(),
        old(grid).stepped(*final(grid), r),
        r == Some(false) ==> *final(grid) == *old(grid),
        r == Some(false) <==> xor_stable(*old(grid), x, y, z),
        r is None ==> xor_conflict(*final(grid), x, y, z),
        r is Some ==> xor_written(*old(grid), *final(grid), x, y, z),
{
    let ghost start = *grid;
    let labels = grid.labels();
    let mut changed = false;
    proof {
        assert(start.stepped(*grid, Some(false)));
    }
    match put(grid, y, z, Cell::No, changed, Ghost(start), "exactly one of the two choices of a clue") {
        None => {
            proof {
                assert(xor_conflict(*grid, x, y, z));
            }
            return None;
        },
        Some(c) => changed = changed || c,
    }
    let ghost c1 = changed;
    // If one of them is No, the other must be Yes.
    if *grid.at(x, y) == Cell::No {
        match put(grid, x, z, Cell::Yes, changed, Ghost(start), "exactly one of the two choices of a clue") {
            None => {
            proof {
                assert(xor_conflict(*grid, x, y, z));
            }
            return None;
        },
            Some(c) => changed = changed || c,
        }
    } else if *grid.at(x, z) == Cell::No {
        match put(grid, x, y, Cell::Yes, changed, Ghost(start), "exactly one of the two choices of a clue") {
            None => {
            proof {
                assert(xor_conflict(*grid, x, y, z));
            }
            return None;
        },
            Some(c) => changed = changed || c,
        }
    }
    let ghost c2 = changed;
    // If one of them is Yes, the other must be No.
    if *grid.at(x, y) == Cell::Yes {
        match put(grid, x, z, Cell::No, changed, Ghost(start), "exactly one of the two choices of a clue") {
            None => {
            proof {
                assert(xor_conflict(*grid, x, y, z));
            }
            return None;
        },
            Some(c) => changed = changed || c,
        }
    } else if *grid.at(x, z) == Cell::Yes {
        match put(grid, x, y, Cell::No, changed, Ghost(start), "exactly one of the two choices of a clue") {
            None => {
            proof {
                assert(xor_conflict(*grid, x, y, z));
            }
            return None;
        },
            Some(c) => changed = changed || c,
        }
    }
    proof {
        assert(!changed ==> xor_head_stable(start, x, y, z));
        assert(changed ==> !xor_head_stable(start, x, y, z));
        assert(xor_head_written(start, *grid, x, y, z));
    }
    // Now search for any existing labels which are neither,
    // and eliminate them as possibilities.
    let mut i: usize = 0;
    while i < labels.len()
        invariant
            start.wf(),
            grid.wf(),
            start.stepped(*grid, Some(changed)),
            !changed ==> *grid == start,
            start == *old(grid),
            start.valid(x),
            start.valid(y),
            start.valid(z),
            !changed ==> xor_head_stable(start, x, y, z),
            changed ==> !xor_stable(start, x, y, z),
            xor_head_written(start, *grid, x, y, z),
            forall|m: int|
                0 <= m < i && (#[trigger] labels@[m]).category != x.category && xor_excludes(start, y, z, labels@[m])
                    ==> grid.cell(x, labels@[m]) == Cell::No,
            labels@.len() == start.ncat() * start.lpc(),
            forall|m: int| 0 <= m < labels@.len() ==> start.valid(#[trigger] labels@[m]) && start.idx(labels@[m]) == m,
            forall|a: Label| start.valid(a) ==> labels@[#[trigger] start.idx(a)] == a,
            0 <= i <= labels@.len(),
            !changed ==> forall|m: int|
                0 <= m < i && (#[trigger] labels@[m]).category != x.category && xor_excludes(start, y, z, labels@[m])
                    ==> start.cell(x, labels@[m]) == Cell::No,
        decreases labels@.len() - i,
    {
        let w = labels[i];
        if w.category != x.category {
            if *grid.at(y, w) == Cell::No && *grid.at(z, w) == Cell::No {
                match put(grid, x, w, Cell::No, changed, Ghost(start), "exactly one of the two choices of a clue") {
                    None => {
            proof {
                assert(xor_conflict(*grid, x, y, z));
            }
            return None;
        },
                    Some(c) => changed = changed || c,
                }
            }
            if *grid.at(y, w) == Cell::Yes && *grid.at(z, w) == Cell::Yes {
                match put(grid, x, w, Cell::No, changed, Ghost(start), "exactly one of the two choices of a clue") {
                    None => {
            proof {
                assert(xor_conflict(*grid, x, y, z));
            }
            return None;
        },
                    Some(c) => changed = changed || c,
                }
            }
        }
        i = i + 1;
    }
    proof {
        assert forall|w: Label|
            grid.valid(w) && w.category != x.category && xor_excludes(start, y, z, w) implies #[trigger] grid.cell(
            x,
            w,
        ) == Cell::No by {
            assert(labels@[start.idx(w)] == w);
            start.lemma_idx_bound(w);
        }
        if !changed {
            assert forall|w: Label|
                start.valid(w) && w.category != x.category && xor_excludes(start, y, z, w) implies #[trigger] start.cell(
                x,
                w,
            ) == Cell::No by {
                assert(labels@[start.idx(w)] == w);
                start.lemma_idx_bound(w);
            }
        }
    }
    Some(changed)
}

/// Everything `TwoByTwo(x1, x2, y1, y2)` would write already holds in `g`.
pub open spec fn two_by_two_stable(g: Grid, x1: Label, x2: Label, y1: Label, y2: Label) -> bool {
    &&& g.cell(x1, x2) == Cell::No
    &&& g.cell(y1, y2) == Cell::No
    &&& xor_stable(g, x1, y1, y2)
    &&& xor_stable(g, x2, y1, y2)
}

/// Decided guards stay decided and decided cells keep their values, so what
/// an application wrote stays written as the grid grows.
proof fn lemma_xor_written_grows(g0: Grid, g1: Grid, g2: Grid, g3: Grid, x: Label, y: Label, z: Label)
    requires
        g0.wf(),
        g2.wf(),
        g0.valid(x),
        g0.valid(y),
        g0.valid(z),
        g0.extends(g1),
        g1.extends(g2),
        xor_written(g1, g2, x, y, z),
        g2.extends(g3),
    ensures
        xor_written(g0, g3, x, y, z),
{
    assert(g1.cell(x, y) == g0.cell(x, y) || g0.cell(x, y) == Cell::Empty);
    assert(g1.cell(x, z) == g0.cell(x, z) || g0.cell(x, z) == Cell::Empty);
    assert(g3.cell(y, z) == g2.cell(y, z));
    assert(g3.cell(x, z) == g2.cell(x, z) || g2.cell(x, z) == Cell::Empty);
    assert(g3.cell(x, y) == g2.cell(x, y) || g2.cell(x, y) == Cell::Empty);
    assert forall|w: Label|
        g3.valid(w) && w.category != x.category && xor_excludes(g0, y, z, w) implies #[trigger] g3.cell(x, w)
        == Cell::No by {
        assert(g0.valid(w));
        assert(g1.cell(y, w) == g0.cell(y, w) && g1.cell(z, w) == g0.cell(z, w));
        assert(g2.cell(x, w) == Cell::No);
    }
}

/// A write `TwoByTwo(x1, x2, y1, y2)` forces meets the opposite value in `g`.
pub open spec fn two_by_two_conflict(g: Grid, x1: Label, x2: Label, y1: Label, y2: Label) -> bool {
    ||| opposed(g, x1, x2, Cell::No)
    ||| opposed(g, y1, y2, Cell::No)
    ||| xor_conflict(g, x1, y1, y2)
    ||| xor_conflict(g, x2, y1, y2)
}

fn apply_two_by_two(grid: &mut Grid, x1: Label, x2: Label, y1: Label, y2: Label) -> (r: Option<bool>)
    requires
        old(grid).wf(),
        old(grid).valid(x1),
        old(grid).valid(x2),
        old(grid).valid(y1),
        old(grid).valid(y2),
    ensures
        final(grid).wf(),
        old(grid).stepped(*final(grid), r),
        r == Some(false) ==> *final(grid) == *old(grid),
        r == Some(false) <==> two_by_two_stable(*old(grid), x1, x2, y1, y2),
        r is None ==> two_by_two_conflict(*final(grid), x1, x2, y1, y2),
        r is Some ==> final(grid).cell(x1, x2) == Cell::No && final(grid).cell(y1, y2) == Cell::No && xor_written(
            *old(grid),
            *final(grid),
            x1,
            y1,
            y2,
        ) && xor_written(*old(grid), *final(grid), x2, y1, y2),
{
    let ghost start = *grid;
    let mut changed = false;
    proof {
        assert(start.stepped(*grid, Some(false)));
    }
    // TwoByTwo is equivalent to having two Xors and a No.
    match put(grid, x1, x2, Cell::No, changed, Ghost(start), "two pairs that go together crosswise") {
        None => return None,
        Some(c) => changed = changed || c,
    }
    match put(grid, y1, y2, Cell::No, changed, Ghost(start), "two pairs that go together crosswise") {
        None => return None,
        Some(c) => changed = changed || c,
    }
    let ghost g1 = *grid;
    let ghost c1 = changed;
    let r1 = apply_xor(grid, x1, y1, y2);
    proof {
        start.lemma_stepped_chain(g1, *grid, changed, r1);
        if !c1 {
            assert(g1.same_cells(start));
            lemma_xor_stable_same(g1, start, x1, y1, y2);
        }
    }
    match r1 {
        None => return None,
        Some(c) => changed = changed || c,
    }
    let ghost g2 = *grid;
    let r2 = apply_xor(grid, x2, y1, y2);
    proof {
        start.lemma_stepped_chain(g2, *grid, changed, r2);
        if !changed {
            assert(g2.same_cells(start));
            lemma_xor_stable_same(g2, start, x2, y1, y2);
        }
        if !c1 {
            lemma_xor_stable_same(g1, start, x2, y1, y2);
        }
    }
    match r2 {
        None => return None,
        Some(c) => changed = changed || c,
    }
    proof {
        start.lemma_extends_trans(g1, g2);
        lemma_xor_written_grows(start, g1, g2, *grid, x1, y1, y2);
        lemma_xor_written_grows(start, g2, *grid, *grid, x2, y1, y2);
        assert(g1.cell(x1, x2) == Cell::No);
        assert(g1.cell(y1, y2) == Cell::No);
    }
    Some(changed)
}

/// Grids with the same cells agree on `xor_stable`.
proof fn lemma_xor_stable_same(g1: Grid, g2: Grid, x: Label, y: Label, z: Label)
    requires
        g1.wf(),
        g2.wf(),
        g1.same_cells(g2),
        g1.valid(x),
        g1.valid(y),
        g1.valid(z),
    ensures
        xor_stable(g1, x, y, z) == xor_stable(g2, x, y, z),
{
    assert forall|w: Label| g1.valid(w) implies #[trigger] g1.cell(x, w) == g2.cell(x, w) && g1.cell(y, w) == g2.cell(
        y,
        w,
    ) && g1.cell(z, w) == g2.cell(z, w) by {}
    assert(g1.cell(x, y) == g2.cell(x, y) && g1.cell(x, z) == g2.cell(x, z) && g1.cell(y, z) == g2.cell(y, z));
}

/// Label `i` of category `c`.
pub open spec fn lab(c: Category, i: int) -> Label {
    Label { category: c, label: i as usize }
}

/// Going up from position `n` of `c`, every position up to `i` is `n` places
/// after a position that is No for `y`.
pub open spec fn low_run(g: Grid, y: Label, c: Category, n: int, i: int) -> bool {
    forall|k: int| #![trigger g.cell(y, lab(c, k - n))] n <= k <= i ==> g.cell(y, lab(c, k - n)) == Cell::No
}

/// Going down from the top of `c`, every position from `i` on whose
/// position `n` places later exists is No for `x` there.
pub open spec fn high_run(g: Grid, x: Label, c: Category, n: int, i: int) -> bool {
    forall|k: int|
        #![trigger g.cell(x, lab(c, k + n))]
        i <= k && k + n < g.lpc() ==> g.cell(x, lab(c, k + n)) == Cell::No
}

/// Everything `AfterAtLeast(x, c, y, n)` would write already holds in `g`.
pub open spec fn after_at_least_stable(g: Grid, x: Label, c: Category, y: Label, n: int) -> bool {
    &&& g.cell(x, y) == Cell::No
    &&& forall|i: int|
        #![trigger g.cell(x, lab(c, i))]
        0 <= i < g.lpc() ==> (i < n || low_run(g, y, c, n, i)) ==> g.cell(x, lab(c, i)) == Cell::No
    &&& forall|i: int|
        #![trigger g.cell(y, lab(c, i))]
        0 <= i < g.lpc() ==> (i + n >= g.lpc() || high_run(g, x, c, n, i)) ==> g.cell(y, lab(c, i)) == Cell::No
}

/// A write `AfterAtLeast(x, c, y, n)` forces meets the opposite value in `g`.
pub open spec fn after_at_least_conflict(g: Grid, x: Label, c: Category, y: Label, n: int) -> bool {
    ||| opposed(g, x, y, Cell::No)
    ||| exists|i: int|
        #![trigger g.cell(x, lab(c, i))]
        0 <= i < g.lpc() && (i < n || low_run(g, y, c, n, i)) && g.cell(x, lab(c, i)) == Cell::Yes
    ||| exists|i: int|
        #![trigger g.cell(y, lab(c, i))]
        0 <= i < g.lpc() && (i + n >= g.lpc() || high_run(g, x, c, n, i)) && g.cell(y, lab(c, i)) == Cell::Yes
}

/// The cells a successful `AfterAtLeast(x, c, y, n)` on `g0` has decided in
/// `g`: x-y is No, x is No at every position of `c` below `n` and along the
/// forward run, y is No at every position within `n` of the top and along the
/// backward run.
pub open spec fn after_at_least_written(g0: Grid, g: Grid, x: Label, c: Category, y: Label, n: int) -> bool {
    &&& g.cell(x, y) == Cell::No
    &&& forall|i: int|
        #![trigger g.cell(x, lab(c, i))]
        0 <= i < g0.lpc() && (i < n || low_run(g0, y, c, n, i)) ==> g.cell(x, lab(c, i)) == Cell::No
    &&& forall|i: int|
        #![trigger g.cell(y, lab(c, i))]
        0 <= i < g0.lpc() && (i + n >= g0.lpc() || high_run(g0, x, c, n, i)) ==> g.cell(y, lab(c, i)) == Cell::No
}

/// The runs of No cells stay as the grid grows.
proof fn lemma_runs_grow(g1: Grid, g2: Grid, x: Label, y: Label, c: Category, n: int, i: int)
    requires
        g1.wf(),
        g1.extends(g2),
        g1.valid(x),
        g1.valid(y),
        (c.0 as nat) < g1.ncat(),
        0 <= n,
        0 <= i < g1.lpc(),
    ensures
        low_run(g1, y, c, n, i) ==> low_run(g2, y, c, n, i),
        high_run(g1, x, c, n, i) ==> high_run(g2, x, c, n, i),
{
    if low_run(g1, y, c, n, i) {
        assert forall|k: int| n <= k <= i implies #[trigger] g2.cell(y, lab(c, k - n)) == Cell::No by {
            assert(g1.valid(lab(c, k - n)));
            assert(g1.cell(y, lab(c, k - n)) == Cell::No);
        }
    }
    if high_run(g1, x, c, n, i) {
        assert forall|k: int| i <= k && k + n < g2.lpc() implies #[trigger] g2.cell(x, lab(c, k + n)) == Cell::No by {
            assert(g1.valid(lab(c, k + n)));
            assert(g1.cell(x, lab(c, k + n)) == Cell::No);
        }
    }
}

#[verifier::spinoff_prover]
#[verifier::rlimit(60)]
fn apply_after_at_least(grid: &mut Grid, x: Label, c: Category, y: Label, n: usize) -> (r: Option<bool>)
    requires
        old(grid).wf(),
        old(grid).valid(x),
        old(grid).valid(y),
        (c.0 as nat) < old(grid).ncat(),
    ensures
        final(grid).wf(),
        old(grid).stepped(*final(grid), r),
        r == Some(false) ==> *final(grid) == *old(grid),
        r == Some(false) <==> after_at_least_stable(*old(grid), x, c, y, n as int),
        r is None ==> after_at_least_conflict(*final(grid), x, c, y, n as int),
        r is Some ==> after_at_least_written(*old(grid), *final(grid), x, c, y, n as int),
{
    let ghost start = *grid;
    let lpc = grid.labels_per_category();
    let mut changed = false;
    proof {
        assert(start.stepped(*grid, Some(false)));
    }
    // No overlap if x is after y.
    match put(grid, x, y, Cell::No, changed, Ghost(start), "the order a clue gives") {
        None => {
            return None;
        },
        Some(ch) => changed = changed || ch,
    }
    // x must appear `n` after the appearance of y.
    let mut open = true;
    let mut i: usize = 0;
    while i < lpc
        invariant
            start.wf(),
            grid.wf(),
            start.stepped(*grid, Some(changed)),
            !changed ==> *grid == start,
            start == *old(grid),
            start.valid(x),
            start.valid(y),
            (c.0 as nat) < start.ncat(),
            lpc == start.lpc(),
            i <= lpc,
            !changed ==> start.cell(x, y) == Cell::No,
            changed ==> !after_at_least_stable(start, x, c, y, n as int),
            !changed ==> (open <==> (i <= n || low_run(start, y, c, n as int, i - 1))),
            open ==> (i <= n || low_run(*grid, y, c, n as int, i - 1)),
            (i <= n || low_run(start, y, c, n as int, i - 1)) ==> open,
            grid.cell(x, y) == Cell::No,
            forall|k: int|
                #![trigger grid.cell(x, lab(c, k))]
                0 <= k < i && (k < n || low_run(start, y, c, n as int, k)) ==> grid.cell(x, lab(c, k)) == Cell::No,
            !changed ==> forall|k: int|
                #![trigger start.cell(x, lab(c, k))]
                0 <= k < i ==> (k < n || low_run(start, y, c, n as int, k)) ==> start.cell(x, lab(c, k)) == Cell::No,
        decreases lpc - i,
    {
        proof {
            assert(start.valid(lab(c, i as int)));
        }
        if i < n {
            match put(grid, x, Label::new(c, i), Cell::No, changed, Ghost(start), "the order a clue gives") {
                None => {
                    proof {
                        assert(grid.cell(x, lab(c, i as int)) == Cell::Yes);
                    }
                    return None;
                },
                Some(ch) => changed = changed || ch,
            }
        } else if open {
            proof {
                assert(start.valid(lab(c, (i - n) as int)));
            }
            if *grid.at(y, Label::new(c, i - n)) == Cell::No {
                let ghost before = *grid;
                proof {
                    assert(low_run(*grid, y, c, n as int, i as int));
                }
                match put(grid, x, Label::new(c, i), Cell::No, changed, Ghost(start), "the order a clue gives") {
                    None => {
                        proof {
                            assert(grid.cell(x, lab(c, i as int)) == Cell::Yes);
                        }
                        return None;
                    },
                    Some(ch) => changed = changed || ch,
                }
                proof {
                    lemma_runs_grow(before, *grid, x, y, c, n as int, i as int);
                }
            } else {
                open = false;
            }
        }
        i = i + 1;
    }
    let ghost first_done = changed;
    // y must appear before the appearance of x.
    let mut open = true;
    let mut i: usize = lpc;
    while i > 0
        invariant
            start.wf(),
            grid.wf(),
            start.stepped(*grid, Some(changed)),
            !changed ==> *grid == start,
            start == *old(grid),
            start.valid(x),
            start.valid(y),
            (c.0 as nat) < start.ncat(),
            lpc == start.lpc(),
            i <= lpc,
            !changed ==> start.cell(x, y) == Cell::No,
            !changed ==> forall|k: int|
                #![trigger start.cell(x, lab(c, k))]
                0 <= k < lpc ==> (k < n || low_run(start, y, c, n as int, k)) ==> start.cell(x, lab(c, k)) == Cell::No,
            changed ==> !after_at_least_stable(start, x, c, y, n as int),
            !changed ==> (open <==> (i + n >= lpc || high_run(start, x, c, n as int, i as int))),
            open ==> (i + n >= lpc || high_run(*grid, x, c, n as int, i as int)),
            (i + n >= lpc || high_run(start, x, c, n as int, i as int)) ==> open,
            grid.cell(x, y) == Cell::No,
            forall|k: int|
                #![trigger grid.cell(x, lab(c, k))]
                0 <= k < lpc && (k < n || low_run(start, y, c, n as int, k)) ==> grid.cell(x, lab(c, k)) == Cell::No,
            forall|k: int|
                #![trigger grid.cell(y, lab(c, k))]
                i <= k < lpc && (k + n >= lpc || high_run(start, x, c, n as int, k)) ==> grid.cell(y, lab(c, k))
                    == Cell::No,
            !changed ==> forall|k: int|
                #![trigger start.cell(y, lab(c, k))]
                i <= k < lpc ==> (k + n >= lpc || high_run(start, x, c, n as int, k)) ==> start.cell(y, lab(c, k))
                    == Cell::No,
        decreases i,
    {
        i = i - 1;
        proof {
            assert(start.valid(lab(c, i as int)));
        }
        if n >= lpc - i {
            match put(grid, y, Label::new(c, i), Cell::No, changed, Ghost(start), "the order a clue gives") {
                None => {
                    proof {
                        assert(grid.cell(y, lab(c, i as int)) == Cell::Yes);
                    }
                    return None;
                },
                Some(ch) => changed = changed || ch,
            }
        } else if open {
            proof {
                assert(start.valid(lab(c, (i + n) as int)));
            }
            if *grid.at(x, Label::new(c, i + n)) == Cell::No {
                let ghost before = *grid;
                proof {
                    assert(high_run(*grid, x, c, n as int, i as int));
                }
                match put(grid, y, Label::new(c, i), Cell::No, changed, Ghost(start), "the order a clue gives") {
                    None => {
                        proof {
                            assert(grid.cell(y, lab(c, i as int)) == Cell::Yes);
                        }
                        return None;
                    },
                    Some(ch) => changed = changed || ch,
                }
                proof {
                    lemma_runs_grow(before, *grid, x, y, c, n as int, i as int);
                }
            } else {
                open = false;
            }
        }
    }
    Some(changed)
}

/// The cells a successful `AfterExactly(x, c, y, n)` on `g0` has decided in
/// `g`: x-y is No, x is No below `n` and wherever y is No `n` places lower,
/// y is No within `n` of the top and wherever x is No `n` places higher.
pub open spec fn after_exactly_written(g0: Grid, g: Grid, x: Label, c: Category, y: Label, n: int) -> bool {
    &&& g.cell(x, y) == Cell::No
    &&& forall|i: int|
        #![trigger g.cell(x, lab(c, i))]
        0 <= i < g0.lpc() && (i < n || g0.cell(y, lab(c, i - n)) == Cell::No) ==> g.cell(x, lab(c, i)) == Cell::No
    &&& forall|i: int|
        #![trigger g.cell(y, lab(c, i))]
        0 <= i < g0.lpc() && (i + n >= g0.lpc() || g0.cell(x, lab(c, i + n)) == Cell::No) ==> g.cell(y, lab(c, i))
            == Cell::No
}

/// A write `AfterExactly(x, c, y, n)` forces meets the opposite value in `g`.
pub open spec fn after_exactly_conflict(g: Grid, x: Label, c: Category, y: Label, n: int) -> bool {
    ||| opposed(g, x, y, Cell::No)
    ||| exists|i: int|
        #![trigger g.cell(x, lab(c, i))]
        0 <= i < g.lpc() && (i < n || g.cell(y, lab(c, i - n)) == Cell::No) && g.cell(x, lab(c, i)) == Cell::Yes
    ||| exists|i: int|
        #![trigger g.cell(y, lab(c, i))]
        0 <= i < g.lpc() && (i + n >= g.lpc() || g.cell(x, lab(c, i + n)) == Cell::No) && g.cell(y, lab(c, i))
            == Cell::Yes
}

/// Everything `AfterExactly(x, c, y, n)` would write already holds in `g`.
pub open spec fn after_exactly_stable(g: Grid, x: Label, c: Category, y: Label, n: int) -> bool {
    &&& g.cell(x, y) == Cell::No
    &&& forall|i: int|
        #![trigger g.cell(x, lab(c, i))]
        0 <= i < g.lpc() ==> (i < n || g.cell(y, lab(c, i - n)) == Cell::No) ==> g.cell(x, lab(c, i)) == Cell::No
    &&& forall|i: int|
        #![trigger g.cell(y, lab(c, i))]
        0 <= i < g.lpc() ==> (i + n >= g.lpc() || g.cell(x, lab(c, i + n)) == Cell::No) ==> g.cell(y, lab(c, i))
            == Cell::No
}

#[verifier::spinoff_prover]
#[verifier::rlimit(40)]
fn apply_after_exactly(grid: &mut Grid, x: Label, c: Category, y: Label, n: usize) -> (r: Option<bool>)
    requires
        old(grid).wf(),
        old(grid).valid(x),
        old(grid).valid(y),
        (c.0 as nat) < old(grid).ncat(),
    ensures
        final(grid).wf(),
        old(grid).stepped(*final(grid), r),
        r == Some(false) ==> *final(grid) == *old(grid),
        r == Some(false) <==> after_exactly_stable(*old(grid), x, c, y, n as int),
        r is None ==> after_exactly_conflict(*final(grid), x, c, y, n as int),
        r is Some ==> after_exactly_written(*old(grid), *final(grid), x, c, y, n as int),
{
    let ghost start = *grid;
    let lpc = grid.labels_per_category();
    let mut changed = false;
    proof {
        assert(start.stepped(*grid, Some(false)));
    }
    match put(grid, x, y, Cell::No, changed, Ghost(start), "the exact gap a clue gives") {
        None => return None,
        Some(ch) => changed = changed || ch,
    }
    let mut i: usize = 0;
    while i < lpc
        invariant
            start.wf(),
            grid.wf(),
            start.stepped(*grid, Some(changed)),
            !changed ==> *grid == start,
            start == *old(grid),
            start.valid(x),
            start.valid(y),
            (c.0 as nat) < start.ncat(),
            lpc == start.lpc(),
            i <= lpc,
            !changed ==> start.cell(x, y) == Cell::No,
            changed ==> !after_exactly_stable(start, x, c, y, n as int),
            grid.cell(x, y) == Cell::No,
            forall|k: int|
                #![trigger grid.cell(x, lab(c, k))]
                0 <= k < i && (k < n || start.cell(y, lab(c, k - n)) == Cell::No) ==> grid.cell(x, lab(c, k))
                    == Cell::No,
            !changed ==> forall|k: int|
                #![trigger start.cell(x, lab(c, k))]
                0 <= k < i ==> (k < n || start.cell(y, lab(c, k - n)) == Cell::No) ==> start.cell(x, lab(c, k))
                    == Cell::No,
        decreases lpc - i,
    {
        proof {
            assert(start.valid(lab(c, i as int)));
        }
        if i < n {
            match put(grid, x, Label::new(c, i), Cell::No, changed, Ghost(start), "the exact gap a clue gives") {
                None => {
                    proof {
                        assert(grid.cell(x, lab(c, i as int)) == Cell::Yes);
                    }
                    return None;
                },
                Some(ch) => changed = changed || ch,
            }
        } else {
            proof {
                assert(start.valid(lab(c, (i - n) as int)));
            }
            if *grid.at(y, Label::new(c, i - n)) == Cell::No {
                match put(grid, x, Label::new(c, i), Cell::No, changed, Ghost(start), "the exact gap a clue gives") {
                    None => {
                        proof {
                            assert(grid.cell(y, lab(c, i - n)) == Cell::No);
                            assert(grid.cell(x, lab(c, i as int)) == Cell::Yes);
                        }
                        return None;
                    },
                    Some(ch) => changed = changed || ch,
                }
            }
        }
        i = i + 1;
    }
    let mut i: usize = 0;
    while i < lpc
        invariant
            start.wf(),
            grid.wf(),
            start.stepped(*grid, Some(changed)),
            !changed ==> *grid == start,
            start == *old(grid),
            start.valid(x),
            start.valid(y),
            (c.0 as nat) < start.ncat(),
            lpc == start.lpc(),
            i <= lpc,
            !changed ==> start.cell(x, y) == Cell::No,
            !changed ==> forall|k: int|
                #![trigger start.cell(x, lab(c, k))]
                0 <= k < lpc ==> (k < n || start.cell(y, lab(c, k - n)) == Cell::No) ==> start.cell(x, lab(c, k))
                    == Cell::No,
            changed ==> !after_exactly_stable(start, x, c, y, n as int),
            grid.cell(x, y) == Cell::No,
            forall|k: int|
                #![trigger grid.cell(x, lab(c, k))]
                0 <= k < lpc && (k < n || start.cell(y, lab(c, k - n)) == Cell::No) ==> grid.cell(x, lab(c, k))
                    == Cell::No,
            forall|k: int|
                #![trigger grid.cell(y, lab(c, k))]
                0 <= k < i && (k + n >= lpc || start.cell(x, lab(c, k + n)) == Cell::No) ==> grid.cell(y, lab(c, k))
                    == Cell::No,
            !changed ==> forall|k: int|
                #![trigger start.cell(y, lab(c, k))]
                0 <= k < i ==> (k + n >= lpc || start.cell(x, lab(c, k + n)) == Cell::No) ==> start.cell(y, lab(c, k))
                    == Cell::No,
        decreases lpc - i,
    {
        proof {
            assert(start.valid(lab(c, i as int)));
        }
        if n >= lpc - i {
            match put(grid, y, Label::new(c, i), Cell::No, changed, Ghost(start), "the exact gap a clue gives") {
                None => {
                    proof {
                        assert(grid.cell(y, lab(c, i as int)) == Cell::Yes);
                    }
                    return None;
                },
                Some(ch) => changed = changed || ch,
            }
        } else {
            proof {
                assert(start.valid(lab(c, (i + n) as int)));
            }
            if *grid.at(x, Label::new(c, i + n)) == Cell::No {
                match put(grid, y, Label::new(c, i), Cell::No, changed, Ghost(start), "the exact gap a clue gives") {
                    None => {
                        proof {
                            assert(grid.cell(x, lab(c, i + n)) == Cell::No);
                            assert(grid.cell(y, lab(c, i as int)) == Cell::Yes);
                        }
                        return None;
                    },
                    Some(ch) => changed = changed || ch,
                }
            }
        }
        i = i + 1;
    }
    Some(changed)
}

/// At position `cur`, whose only neighbour at the given distance is `nb`,
/// a decided cell of one label at `nb` already fixes the other at `cur`.
pub open spec fn distance_ok(g: Grid, x: Label, y: Label, cur: Label, nb: Label) -> bool {
    &&& (g.cell(x, nb) != Cell::Empty ==> g.cell(y, cur) == g.cell(x, nb))
    &&& (g.cell(x, nb) == Cell::Empty && g.cell(y, nb) != Cell::Empty ==> g.cell(x, cur) == g.cell(y, nb))
}

/// At position `cur` with the single neighbour `nb`, the value a decided
/// cell at `nb` forces meets the opposite value.
pub open spec fn distance_clash(g: Grid, x: Label, y: Label, cur: Label, nb: Label) -> bool {
    ||| g.cell(x, nb) != Cell::Empty && opposed(g, y, cur, g.cell(x, nb))
    ||| g.cell(x, nb) == Cell::Empty && g.cell(y, nb) != Cell::Empty && opposed(g, x, cur, g.cell(y, nb))
}

/// A write `Distance(x, c, y, n)` forces meets the opposite value in `g`.
pub open spec fn distance_conflict(g: Grid, x: Label, c: Category, y: Label, n: int) -> bool {
    ||| opposed(g, x, y, Cell::No)
    ||| exists|i: int|
        #![trigger lab(c, i)]
        0 <= i < g.lpc() && ((i < n && i + n < g.lpc() && distance_clash(g, x, y, lab(c, i), lab(c, i + n))) || (n
            <= i && i + n >= g.lpc() && distance_clash(g, x, y, lab(c, i), lab(c, i - n))))
}

/// The cells a successful `Distance(x, c, y, n)` on `g0` has decided in `g`:
/// x-y is No, and at a position with a single neighbour at distance `n`,
/// y takes the value x has at that neighbour whenever it was decided.
pub open spec fn distance_written(g0: Grid, g: Grid, x: Label, c: Category, y: Label, n: int) -> bool {
    &&& g.cell(x, y) == Cell::No
    &&& forall|i: int|
        #![trigger g.cell(y, lab(c, i))]
        0 <= i < g0.lpc() ==> (i < n && i + n < g0.lpc() && g0.cell(x, lab(c, i + n)) != Cell::Empty ==> g.cell(
            y,
            lab(c, i),
        ) == g0.cell(x, lab(c, i + n))) && (n <= i && i + n >= g0.lpc() && g0.cell(x, lab(c, i - n)) != Cell::Empty
            ==> g.cell(y, lab(c, i)) == g0.cell(x, lab(c, i - n)))
}

/// Everything `Distance(x, c, y, n)` would write already holds in `g`.
pub open spec fn distance_stable(g: Grid, x: Label, c: Category, y: Label, n: int) -> bool {
    &&& g.cell(x, y) == Cell::No
    &&& forall|i: int|
        #![trigger lab(c, i)]
        0 <= i < g.lpc() ==> (i < n && i + n < g.lpc() ==> distance_ok(g, x, y, lab(c, i), lab(c, i + n))) && (n
            <= i && i + n >= g.lpc() ==> distance_ok(g, x, y, lab(c, i), lab(c, i - n)))
}

/// Copies into position `cur` what the neighbour `nb` decides.
fn distance_copy(
    grid: &mut Grid,
    x: Label,
    y: Label,
    cur: Label,
    nb: Label,
    changed: bool,
    Ghost(start): Ghost<Grid>,
) -> (r: Option<bool>)
    requires
        old(grid).wf(),
        old(grid).valid(x),
        old(grid).valid(y),
        old(grid).valid(cur),
        old(grid).valid(nb),
        start.wf(),
        start.stepped(*old(grid), Some(changed)),
    ensures
        final(grid).wf(),
        start.stepped(
            *final(grid),
            match r {
                Some(c) => Some(changed || c),
                None => None,
            },
        ),
        !changed ==> (r == Some(false) <==> distance_ok(start, x, y, cur, nb)),
        r is None ==> distance_clash(*final(grid), x, y, cur, nb),
        old(grid).extends(*final(grid)),
        r is Some && old(grid).cell(x, nb) != Cell::Empty ==> final(grid).cell(y, cur) == old(grid).cell(x, nb),
        r != Some(true) ==> *final(grid) == *old(grid),
{
    let hx = *grid.at(x, nb);
    let hy = *grid.at(y, nb);
    // If we can only go in one direction, then if the other
    // cell is filled, that determines the current cell.
    if hx != Cell::Empty {
        put(grid, y, cur, hx, changed, Ghost(start), "the distance a clue gives")
    } else if hy != Cell::Empty {
        put(grid, x, cur, hy, changed, Ghost(start), "the distance a clue gives")
    } else {
        Some(false)
    }
}

fn apply_distance(grid: &mut Grid, x: Label, c: Category, y: Label, n: usize) -> (r: Option<bool>)
    requires
        old(grid).wf(),
        old(grid).valid(x),
        old(grid).valid(y),
        (c.0 as nat) < old(grid).ncat(),
    ensures
        final(grid).wf(),
        old(grid).stepped(*final(grid), r),
        r == Some(false) ==> *final(grid) == *old(grid),
        r == Some(false) <==> distance_stable(*old(grid), x, c, y, n as int),
        r is None ==> distance_conflict(*final(grid), x, c, y, n as int),
        r is Some ==> distance_written(*old(grid), *final(grid), x, c, y, n as int),
{
    let ghost start = *grid;
    let lpc = grid.labels_per_category();
    let mut changed = false;
    proof {
        assert(start.stepped(*grid, Some(false)));
    }
    match put(grid, x, y, Cell::No, changed, Ghost(start), "the distance a clue gives") {
        None => {
            return None;
        },
        Some(ch) => changed = changed || ch,
    }
    let mut i: usize = 0;
    while i < lpc
        invariant
            start.wf(),
            grid.wf(),
            start.stepped(*grid, Some(changed)),
            !changed ==> *grid == start,
            start == *old(grid),
            start.valid(x),
            start.valid(y),
            (c.0 as nat) < start.ncat(),
            lpc == start.lpc(),
            i <= lpc,
            !changed ==> start.cell(x, y) == Cell::No,
            changed ==> !distance_stable(start, x, c, y, n as int),
            grid.cell(x, y) == Cell::No,
            forall|k: int|
                #![trigger grid.cell(y, lab(c, k))]
                0 <= k < i ==> (k < n && k + n < lpc && start.cell(x, lab(c, k + n)) != Cell::Empty ==> grid.cell(
                    y,
                    lab(c, k),
                ) == start.cell(x, lab(c, k + n))) && (n <= k && k + n >= lpc && start.cell(x, lab(c, k - n))
                    != Cell::Empty ==> grid.cell(y, lab(c, k)) == start.cell(x, lab(c, k - n))),
            !changed ==> forall|k: int|
                #![trigger lab(c, k)]
                0 <= k < i ==> (k < n && k + n < lpc ==> distance_ok(start, x, y, lab(c, k), lab(c, k + n))) && (n <= k
                    && k + n >= lpc ==> distance_ok(start, x, y, lab(c, k), lab(c, k - n))),
        decreases lpc - i,
    {
        let cur = Label::new(c, i);
        proof {
            assert(start.valid(lab(c, i as int)));
            assert(cur == lab(c, i as int));
        }
        if i < n {
            // Can't go `n` lower, so just check higher.
            if n < lpc - i {
                proof {
                    assert(start.valid(lab(c, (i + n) as int)));
                }
                match distance_copy(grid, x, y, cur, Label::new(c, i + n), changed, Ghost(start)) {
                    None => {
                        proof {
                            assert(distance_clash(*grid, x, y, lab(c, i as int), lab(c, i + n)));
                        }
                        return None;
                    },
                    Some(ch) => changed = changed || ch,
                }
            }
        } else if n >= lpc - i {
            // Can't go `n` higher, so just check lower. Positions with a
            // neighbour on both sides are left to the other constraints and
            // rules.
            proof {
                assert(start.valid(lab(c, (i - n) as int)));
            }
            match distance_copy(grid, x, y, cur, Label::new(c, i - n), changed, Ghost(start)) {
                None => {
                    proof {
                        assert(distance_clash(*grid, x, y, lab(c, i as int), lab(c, i - n)));
                    }
                    return None;
                },
                Some(ch) => changed = changed || ch,
            }
        }
        i = i + 1;
    }
    Some(changed)
}

/// How many of the first `n` listed pairs are No in `g`.
pub open spec fn count_no(g: Grid, s: Seq<(Label, Label)>, n: int) -> nat
    decreases n,
{
    if n <= 0 {
        0
    } else {
        count_no(g, s, n - 1) + if g.cell(s[n - 1].0, s[n - 1].1) == Cell::No {
            1nat
        } else {
            0nat
        }
    }
}

/// Some listed pair is Yes in `g`.
pub open spec fn any_yes(g: Grid, s: Seq<(Label, Label)>) -> bool {
    exists|i: int| 0 <= i < s.len() && #[trigger] g.cell(s[i].0, s[i].1) == Cell::Yes
}

/// Listed pairs `i` and `j` name the same cell.
pub open spec fn same_listed(s: Seq<(Label, Label)>, i: int, j: int) -> bool {
    same_pair(s[i].0, s[i].1, s[j].0, s[j].1)
}

/// Everything `ExactlyOne(s)` would write already holds in `g`: with a Yes
/// pair every pair that is another cell is No, and without one it is not the
/// case that exactly one pair is left that is not No.
pub open spec fn exactly_one_stable(g: Grid, s: Seq<(Label, Label)>) -> bool {
    &&& forall|i: int, j: int|
        #![trigger g.cell(s[i].0, s[i].1), g.cell(s[j].0, s[j].1)]
        0 <= i < s.len() && 0 <= j < s.len() && g.cell(s[i].0, s[i].1) == Cell::Yes && !same_listed(s, i, j)
            ==> g.cell(s[j].0, s[j].1) == Cell::No
    &&& !any_yes(g, s) ==> count_no(g, s, s.len() as int) + 1 != s.len()
}

/// Two listed pairs that are different cells are both Yes in `g`.
pub open spec fn exactly_one_conflict(g: Grid, s: Seq<(Label, Label)>) -> bool {
    exists|i: int, j: int|
        #![trigger g.cell(s[i].0, s[i].1), g.cell(s[j].0, s[j].1)]
        0 <= i < s.len() && 0 <= j < s.len() && g.cell(s[i].0, s[i].1) == Cell::Yes && !same_listed(s, i, j)
            && g.cell(s[j].0, s[j].1) == Cell::Yes
}

proof fn lemma_count_no(g: Grid, s: Seq<(Label, Label)>, n: int)
    requires
        0 <= n <= s.len(),
    ensures
        count_no(g, s, n) <= n,
        count_no(g, s, n) == n <==> forall|i: int| 0 <= i < n ==> #[trigger] g.cell(s[i].0, s[i].1) == Cell::No,
    decreases n,
{
    if n > 0 {
        lemma_count_no(g, s, n - 1);
    }
}

fn apply_exactly_one(grid: &mut Grid, pairs: &Vec<(Label, Label)>) -> (r: Option<bool>)
    requires
        old(grid).wf(),
        pairs_in_range(pairs@, old(grid).ncat(), old(grid).lpc()),
    ensures
        final(grid).wf(),
        old(grid).stepped(*final(grid), r),
        r == Some(false) ==> *final(grid) == *old(grid),
        r == Some(false) <==> exactly_one_stable(*old(grid), pairs@),
        r is None ==> exactly_one_conflict(*final(grid), pairs@),
        r is Some ==> forall|i: int, j: int|
            #![trigger old(grid).cell(pairs@[i].0, pairs@[i].1), final(grid).cell(pairs@[j].0, pairs@[j].1)]
            0 <= i < pairs@.len() && 0 <= j < pairs@.len() && old(grid).cell(pairs@[i].0, pairs@[i].1) == Cell::Yes
                && !same_listed(pairs@, i, j) ==> final(grid).cell(pairs@[j].0, pairs@[j].1) == Cell::No,
{
    let ghost start = *grid;
    let ghost s = pairs@;
    let len = pairs.len();
    let mut found_yes = false;
    let mut yes_at: usize = 0;
    let mut num_no: usize = 0;
    let mut i: usize = 0;
    while i < len && !found_yes
        invariant
            start == *grid,
            grid.wf(),
            pairs_in_range(s, start.ncat(), start.lpc()),
            s == pairs@,
            len == s.len(),
            i <= len,
            num_no <= i,
            found_yes ==> yes_at < len && start.cell(s[yes_at as int].0, s[yes_at as int].1) == Cell::Yes,
            !found_yes ==> num_no == count_no(start, s, i as int),
            !found_yes ==> forall|k: int| 0 <= k < i ==> #[trigger] start.cell(s[k].0, s[k].1) != Cell::Yes,
        decreases len - i + if found_yes {
            0int
        } else {
            1int
        },
    {
        let (xi, yi) = pairs[i];
        proof {
            assert(label_in_range(s[i as int].0, start.ncat(), start.lpc()));
        }
        match *grid.at(xi, yi) {
            Cell::Yes => {
                found_yes = true;
                yes_at = i;
            },
            Cell::No => {
                num_no = num_no + 1;
                i = i + 1;
            },
            Cell::Empty => {
                i = i + 1;
            },
        }
    }
    let mut changed = false;
    proof {
        assert(start.stepped(*grid, Some(false)));
        if !found_yes {
            assert(!any_yes(start, s));
        }
    }
    if found_yes {
        // A Yes pair was found: every pair that is another cell must be No.
        let (xa, ya) = pairs[yes_at];
        let ghost ia = yes_at as int;
        let mut j: usize = 0;
        while j < len
            invariant
                start.wf(),
                grid.wf(),
                start.stepped(*grid, Some(changed)),
                !changed ==> *grid == start,
                start == *old(grid),
                pairs_in_range(s, start.ncat(), start.lpc()),
                s == pairs@,
                len == s.len(),
                0 <= ia < len,
                xa == s[ia].0,
                ya == s[ia].1,
                start.cell(xa, ya) == Cell::Yes,
                j <= len,
                changed ==> !exactly_one_stable(start, s),
                !changed ==> forall|k: int|
                    0 <= k < j && !same_listed(s, ia, k) ==> #[trigger] start.cell(s[k].0, s[k].1) == Cell::No,
                forall|k: int|
                    0 <= k < j && !same_listed(s, ia, k) ==> #[trigger] grid.cell(s[k].0, s[k].1) == Cell::No,
            decreases len - j,
        {
            let (xj, yj) = pairs[j];
            proof {
                assert(label_in_range(s[j as int].0, start.ncat(), start.lpc()));
                assert(label_in_range(s[ia].0, start.ncat(), start.lpc()));
            }
            if !((xj == xa && yj == ya) || (xj == ya && yj == xa)) {
                let ghost before = *grid;
                match put(grid, xj, yj, Cell::No, changed, Ghost(start), "exactly one of the listed pairs") {
                    None => {
                        proof {
                            assert(grid.cell(xa, ya) == Cell::Yes);
                            assert(grid.cell(s[j as int].0, s[j as int].1) == Cell::Yes);
                            assert(!same_listed(s, ia, j as int));
                            assert(exactly_one_conflict(*grid, s));
                        }
                        return None;
                    },
                    Some(ch) => {
                        proof {
                            if !changed && ch {
                                assert(start.cell(s[ia].0, s[ia].1) == Cell::Yes);
                                assert(!exactly_one_stable(start, s));
                            }
                        }
                        changed = changed || ch;
                    },
                }
            }
            j = j + 1;
        }
        proof {
            assert forall|i: int, j: int|
                #![trigger start.cell(s[i].0, s[i].1), grid.cell(s[j].0, s[j].1)]
                0 <= i < s.len() && 0 <= j < s.len() && start.cell(s[i].0, s[i].1) == Cell::Yes && !same_listed(
                    s,
                    i,
                    j,
                ) implies grid.cell(s[j].0, s[j].1) == Cell::No by {
                if !same_listed(s, ia, i) {
                    assert(grid.cell(s[i].0, s[i].1) == Cell::No);
                    assert(grid.cell(s[i].0, s[i].1) == Cell::Yes);
                }
                assert(!same_listed(s, ia, j));
            }
            if !changed {
                assert forall|i: int, j: int|
                    #![trigger start.cell(s[i].0, s[i].1), start.cell(s[j].0, s[j].1)]
                    0 <= i < s.len() && 0 <= j < s.len() && start.cell(s[i].0, s[i].1) == Cell::Yes
                        && !same_listed(s, i, j) implies start.cell(s[j].0, s[j].1) == Cell::No by {
                    assert(grid.cell(s[j].0, s[j].1) == Cell::No);
                }
            }
        }
    } else if len > 0 && num_no == len - 1 {
        // If all but one cell is No, then the remaining cell must be Yes.
        proof {
            lemma_count_no(start, s, len as int);
        }
        let mut j: usize = 0;
        while j < len
            invariant
                start.wf(),
                grid.wf(),
                start.stepped(*grid, Some(changed)),
                !changed ==> *grid == start,
                start == *old(grid),
                pairs_in_range(s, start.ncat(), start.lpc()),
                s == pairs@,
                len == s.len(),
                !exactly_one_stable(start, s),
                !any_yes(start, s),
                exists|k: int| 0 <= k < len && #[trigger] start.cell(s[k].0, s[k].1) != Cell::No,
                j <= len,
                !changed ==> forall|k: int| 0 <= k < j ==> #[trigger] start.cell(s[k].0, s[k].1) != Cell::Empty,
            decreases len - j,
        {
            let (xi, yi) = pairs[j];
            proof {
                assert(label_in_range(s[j as int].0, start.ncat(), start.lpc()));
            }
            if *grid.at(xi, yi) == Cell::Empty {
                match put(grid, xi, yi, Cell::Yes, changed, Ghost(start), "exactly one of the listed pairs") {
                    None => return None,
                    Some(ch) => changed = changed || ch,
                }
            }
            j = j + 1;
        }
        proof {
            if !changed {
                let k = choose|k: int| 0 <= k < len && #[trigger] start.cell(s[k].0, s[k].1) != Cell::No;
                assert(start.cell(s[k].0, s[k].1) != Cell::Empty);
            }
        }
    }
    Some(changed)
}

impl ConstraintKind {
    /// Everything the constraint would write already holds in `g`: applying
    /// it changes nothing.
    pub open spec fn stable(&self, g: Grid) -> bool {
        match self {
            ConstraintKind::Yes(x, y) => holds(g, *x, *y, Cell::Yes),
            ConstraintKind::No(x, y) => holds(g, *x, *y, Cell::No),
            ConstraintKind::Or(x, y, z) => or_stable(g, *x, *y, *z),
            ConstraintKind::Xor(x, y, z) => xor_stable(g, *x, *y, *z),
            ConstraintKind::After(x, c, y) => after_at_least_stable(g, *x, *c, *y, 1),
            ConstraintKind::AfterAtLeast(x, c, y, n) => after_at_least_stable(g, *x, *c, *y, *n as int),
            ConstraintKind::AfterExactly(x, c, y, n) => after_exactly_stable(g, *x, *c, *y, *n as int),
            ConstraintKind::Distance(x, c, y, n) => distance_stable(g, *x, *c, *y, *n as int),
            ConstraintKind::TwoByTwo(x1, x2, y1, y2) => two_by_two_stable(g, *x1, *x2, *y1, *y2),
            ConstraintKind::ExactlyOne(pairs) => exactly_one_stable(g, pairs@),
        }
    }
}

impl ConstraintKind {
    /// A write the constraint forces meets the opposite decided value in `g`.
    pub open spec fn conflict(&self, g: Grid) -> bool {
        match self {
            ConstraintKind::Yes(x, y) => opposed(g, *x, *y, Cell::Yes),
            ConstraintKind::No(x, y) => opposed(g, *x, *y, Cell::No),
            ConstraintKind::Or(x, y, z) => or_conflict(g, *x, *y, *z),
            ConstraintKind::Xor(x, y, z) => xor_conflict(g, *x, *y, *z),
            ConstraintKind::After(x, c, y) => after_at_least_conflict(g, *x, *c, *y, 1),
            ConstraintKind::AfterAtLeast(x, c, y, n) => after_at_least_conflict(g, *x, *c, *y, *n as int),
            ConstraintKind::AfterExactly(x, c, y, n) => after_exactly_conflict(g, *x, *c, *y, *n as int),
            ConstraintKind::Distance(x, c, y, n) => distance_conflict(g, *x, *c, *y, *n as int),
            ConstraintKind::TwoByTwo(x1, x2, y1, y2) => two_by_two_conflict(g, *x1, *x2, *y1, *y2),
            ConstraintKind::ExactlyOne(pairs) => exactly_one_conflict(g, pairs@),
        }
    }
}

impl Constraint {
    pub open spec fn stable(&self, g: Grid) -> bool {
        self.kind.stable(g)
    }

    pub open spec fn conflict(&self, g: Grid) -> bool {
        self.kind.conflict(g)
    }

    /// Propagates the constraint through `grid`. Returns `None` on a
    /// contradiction, else whether the grid changed; it changes nothing
    /// exactly when the grid already holds everything the constraint writes.
    pub fn apply(&self, grid: &mut Grid) -> (r: Option<bool>)
        requires
            old(grid).wf(),
            self.in_range(old(grid).ncat(), old(grid).lpc()),
        ensures
            final(grid).wf(),
            old(grid).stepped(*final(grid), r),
            r == Some(false) ==> *final(grid) == *old(grid),
            r == Some(false) <==> self.stable(*old(grid)),
            r is None ==> self.conflict(*final(grid)),
            match self.kind {
                ConstraintKind::Yes(x, y) => r == old(grid).outcome(x, y, Cell::Yes) && old(grid).written(
                    *final(grid),
                    x,
                    y,
                    Cell::Yes,
                    r == Some(true),
                ),
                ConstraintKind::No(x, y) => r == old(grid).outcome(x, y, Cell::No) && old(grid).written(
                    *final(grid),
                    x,
                    y,
                    Cell::No,
                    r == Some(true),
                ),
                ConstraintKind::ExactlyOne(pairs) => r is Some ==> forall|i: int, j: int|
                    #![trigger old(grid).cell(pairs@[i].0, pairs@[i].1), final(grid).cell(pairs@[j].0, pairs@[j].1)]
                    0 <= i < pairs@.len() && 0 <= j < pairs@.len() && old(grid).cell(pairs@[i].0, pairs@[i].1)
                        == Cell::Yes && !same_listed(pairs@, i, j) ==> final(grid).cell(pairs@[j].0, pairs@[j].1)
                        == Cell::No,
                ConstraintKind::Or(x, y, z) => r is Some ==> or_written(*old(grid), *final(grid), x, y, z),
                ConstraintKind::Xor(x, y, z) => r is Some ==> xor_written(*old(grid), *final(grid), x, y, z),
                ConstraintKind::After(x, c, y) => r is Some ==> after_at_least_written(
                    *old(grid),
                    *final(grid),
                    x,
                    c,
                    y,
                    1,
                ),
                ConstraintKind::AfterAtLeast(x, c, y, n) => r is Some ==> after_at_least_written(
                    *old(grid),
                    *final(grid),
                    x,
                    c,
                    y,
                    n as int,
                ),
                ConstraintKind::AfterExactly(x, c, y, n) => r is Some ==> after_exactly_written(
                    *old(grid),
                    *final(grid),
                    x,
                    c,
                    y,
                    n as int,
                ),
                ConstraintKind::Distance(x, c, y, n) => r is Some ==> distance_written(
                    *old(grid),
                    *final(grid),
                    x,
                    c,
                    y,
                    n as int,
                ),
                ConstraintKind::TwoByTwo(x1, x2, y1, y2) => r is Some ==> final(grid).cell(x1, x2) == Cell::No
                    && final(grid).cell(y1, y2) == Cell::No && xor_written(*old(grid), *final(grid), x1, y1, y2)
                    && xor_written(*old(grid), *final(grid), x2, y1, y2),
            },
    {
        match &self.kind {
            ConstraintKind::Yes(x, y) => apply_direct(grid, *x, *y, Cell::Yes),
            ConstraintKind::No(x, y) => apply_direct(grid, *x, *y, Cell::No),
            ConstraintKind::After(x, c, y) => apply_after_at_least(grid, *x, *c, *y, 1),
            ConstraintKind::AfterAtLeast(x, c, y, n) => apply_after_at_least(grid, *x, *c, *y, *n),
            ConstraintKind::AfterExactly(x, c, y, n) => apply_after_exactly(grid, *x, *c, *y, *n),
            ConstraintKind::Distance(x, c, y, n) => apply_distance(grid, *x, *c, *y, *n),
            ConstraintKind::Or(x, y, z) => apply_or(grid, *x, *y, *z),
            ConstraintKind::Xor(x, y, z) => apply_xor(grid, *x, *y, *z),
            ConstraintKind::TwoByTwo(x1, x2, y1, y2) => apply_two_by_two(grid, *x1, *x2, *y1, *y2),
            ConstraintKind::ExactlyOne(pairs) => apply_exactly_one(grid, pairs),
        }
    }
}

} // verus!
