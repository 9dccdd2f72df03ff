//! Deductions that hold in every puzzle, whatever its clues.
use crate::grid::{Cell, Grid};
use crate::puzzle::{Category, Label};
use vstd::prelude::*;

verus! {

/// Eliminate the other cells in the row/column of a Yes cell.
/// If we have labels (x1,x2,x3) and (y1,y2,y3),
/// then if (x1,y1) == Yes, then all other x,y pairings must be No.
pub struct ElimOthers {}

/// `(a, b)` lies in the row or the column of a Yes cell of `g`, off that cell.
pub open spec fn elim_target(g: Grid, a: Label, b: Label) -> bool {
    &&& a.category != b.category
    &&& {
        ||| exists|l: Label|
            #![trigger g.cell(a, l)]
            g.valid(l) && l.category == b.category && l != b && g.cell(a, l) == Cell::Yes
        ||| exists|l: Label|
            #![trigger g.cell(l, b)]
            g.valid(l) && l.category == a.category && l != a && g.cell(l, b) == Cell::Yes
    }
}

/// Every other cell in the row and the column of `(l1, l2)` is No in `g`.
pub open spec fn elim_done(g: Grid, l1: Label, l2: Label) -> bool {
    &&& forall|l3: Label|
        #![trigger g.cell(l1, l3)]
        g.valid(l3) && l3.category == l2.category && l3 != l2 ==> g.cell(l1, l3) == Cell::No
    &&& forall|l3: Label|
        #![trigger g.cell(l3, l2)]
        g.valid(l3) && l3.category == l1.category && l3 != l1 ==> g.cell(l3, l2) == Cell::No
}

/// What the elimination pass may have written so far into `g`, starting
/// from `old`: only No, and only on cells it targets.
spec fn elim_inv(old: Grid, g: Grid, changed: bool) -> bool {
    &&& old.wf()
    &&& g.wf()
    &&& old.stepped(g, Some(changed))
    &&& forall|p: Label, q: Label|
        old.valid(p) && old.valid(q) && #[trigger] g.cell(p, q) != old.cell(p, q) ==> g.cell(p, q) == Cell::No
            && elim_target(old, p, q)
}

proof fn lemma_elim_done_grows(g1: Grid, g2: Grid, l1: Label, l2: Label)
    requires
        g1.wf(),
        g1.valid(l1),
        g1.valid(l2),
        g1.extends(g2),
        elim_done(g1, l1, l2),
    ensures
        elim_done(g2, l1, l2),
{
    assert forall|l3: Label| g2.valid(l3) && l3.category == l2.category && l3 != l2 implies #[trigger] g2.cell(l1, l3)
        == Cell::No by {
        assert(g1.cell(l1, l3) == Cell::No);
    }
    assert forall|l3: Label| g2.valid(l3) && l3.category == l1.category && l3 != l1 implies #[trigger] g2.cell(l3, l2)
        == Cell::No by {
        assert(g1.cell(l3, l2) == Cell::No);
    }
}

/// Every target of `g` is already No: elimination changes nothing.
pub open spec fn elim_stable(g: Grid) -> bool {
    forall|a: Label, b: Label| g.valid(a) && g.valid(b) && elim_target(g, a, b) ==> #[trigger] g.cell(a, b) == Cell::No
}

/// A target of `g` is Yes: some label has two Yes partners in one category.
pub open spec fn elim_conflict(g: Grid) -> bool {
    exists|a: Label, b: Label| g.valid(a) && g.valid(b) && elim_target(g, a, b) && #[trigger] g.cell(a, b) == Cell::Yes
}

impl ElimOthers {
    /// For every Yes cell, sets every other cell of its row and its column to
    /// No. Fails exactly when one of those cells is Yes.
    pub fn apply(&self, grid: &mut Grid) -> (r: Option<bool>)
        requires
            old(grid).wf(),
        ensures
            final(grid).wf(),
            old(grid).stepped(*final(grid), r),
            r == Some(false) ==> *final(grid) == *old(grid),
            r == Some(false) <==> elim_stable(*old(grid)),
            r is None ==> elim_conflict(*final(grid)),
            r is None <==> exists|a: Label, b: Label|
                old(grid).valid(a) && old(grid).valid(b) && elim_target(*old(grid), a, b) && #[trigger] old(grid).cell(
                    a,
                    b,
                ) == Cell::Yes,
            r is Some ==> forall|a: Label, b: Label|
                old(grid).valid(a) && old(grid).valid(b) ==> #[trigger] final(grid).cell(a, b) == if elim_target(
                    *old(grid),
                    a,
                    b,
                ) {
                    Cell::No
                } else {
                    old(grid).cell(a, b)
                },
    {
        let ghost old_g = *grid;
        let cells = grid.cells();
        let lpc = grid.labels_per_category();
        let mut changed = false;
        let mut k: usize = 0;
        proof {
            assert(old_g.stepped(*grid, Some(false)));
        }
        while k < cells.len()
            invariant
                elim_inv(old_g, *grid, changed),
                !changed ==> *grid == old_g,
                old_g == *old(grid),
                lpc == old_g.lpc(),
                forall|j: int|
                    0 <= j < cells@.len() ==> old_g.valid((#[trigger] cells@[j]).0) && old_g.valid(cells@[j].1)
                        && cells@[j].0.category.0 < cells@[j].1.category.0,
                forall|a: Label, b: Label|
                    old_g.valid(a) && old_g.valid(b) && a.category.0 < b.category.0 ==> exists|j: int|
                        0 <= j < cells@.len() && #[trigger] cells@[j] == (a, b),
                0 <= k <= cells@.len(),
                forall|j: int|
                    0 <= j < k ==> old_g.cell((#[trigger] cells@[j]).0, cells@[j].1) == Cell::Yes ==> elim_done(
                        *grid,
                        cells@[j].0,
                        cells@[j].1,
                    ),
            decreases cells@.len() - k,
        {
            let (l1, l2) = cells[k];
            if *grid.at(l1, l2) == Cell::Yes {
                proof {
                    assert(old_g.cell(l1, l2) == Cell::Yes);
                    old_g.lemma_symmetric(l1, l2);
                }
                let ghost start = *grid;
                let mut l: usize = 0;
                while l < lpc
                    invariant
                        elim_inv(old_g, *grid, changed),
                        !changed ==> *grid == old_g,
                        old_g == *old(grid),
                        start.wf(),
                        old_g.extends(start),
                        start.extends(*grid),
                        0 <= k < cells@.len(),
                        forall|j: int|
                            0 <= j < cells@.len() ==> old_g.valid((#[trigger] cells@[j]).0) && old_g.valid(cells@[j].1),
                        forall|j: int|
                            0 <= j < k ==> old_g.cell((#[trigger] cells@[j]).0, cells@[j].1) == Cell::Yes ==> elim_done(
                                start,
                                cells@[j].0,
                                cells@[j].1,
                            ),
                        lpc == old_g.lpc(),
                        old_g.valid(l1),
                        old_g.valid(l2),
                        l1.category.0 < l2.category.0,
                        old_g.cell(l1, l2) == Cell::Yes,
                        old_g.cell(l2, l1) == Cell::Yes,
                        0 <= l <= lpc,
                        forall|m: usize|
                            m < l && m != l2.label ==> #[trigger] grid.cell(
                                l1,
                                Label { category: l2.category, label: m },
                            ) == Cell::No,
                    decreases lpc - l,
                {
                    if l != l2.label {
                        let l3 = Label { category: l2.category, label: l };
                        let ghost before = *grid;
                        proof {
                            assert(elim_target(old_g, l1, l3));
                            assert(elim_target(old_g, l3, l1));
                        }
                        match grid.set_with_callback(l1, l3, Cell::No, || "another label of its category is already paired".to_owned()) {
                            None => {
                                proof {
                                    assert(old_g.cell(l1, l3) == Cell::Yes);
                                    assert(!elim_stable(old_g));
                                    assert(grid.cell(l1, l2) == Cell::Yes);
                                    assert(grid.cell(l1, l3) == Cell::Yes);
                                    assert(elim_target(*grid, l1, l3));
                                    old_g.lemma_stepped_chain(before, *grid, changed, None);
                                }
                                return None;
                            },
                            Some(c) => {
                                proof {
                                    old_g.lemma_stepped_chain(before, *grid, changed, Some(c));
                                }
                                changed = changed || c;
                            },
                        }
                    }
                    l = l + 1;
                }
                let mut l: usize = 0;
                while l < lpc
                    invariant
                        elim_inv(old_g, *grid, changed),
                        !changed ==> *grid == old_g,
                        old_g == *old(grid),
                        start.wf(),
                        old_g.extends(start),
                        start.extends(*grid),
                        0 <= k < cells@.len(),
                        forall|j: int|
                            0 <= j < cells@.len() ==> old_g.valid((#[trigger] cells@[j]).0) && old_g.valid(cells@[j].1),
                        forall|j: int|
                            0 <= j < k ==> old_g.cell((#[trigger] cells@[j]).0, cells@[j].1) == Cell::Yes ==> elim_done(
                                start,
                                cells@[j].0,
                                cells@[j].1,
                            ),
                        lpc == old_g.lpc(),
                        old_g.valid(l1),
                        old_g.valid(l2),
                        l1.category.0 < l2.category.0,
                        old_g.cell(l1, l2) == Cell::Yes,
                        old_g.cell(l2, l1) == Cell::Yes,
                        0 <= l <= lpc,
                        forall|m: usize|
                            m < lpc && m != l2.label ==> #[trigger] grid.cell(
                                l1,
                                Label { category: l2.category, label: m },
                            ) == Cell::No,
                        forall|m: usize|
                            m < l && m != l1.label ==> #[trigger] grid.cell(
                                Label { category: l1.category, label: m },
                                l2,
                            ) == Cell::No,
                    decreases lpc - l,
                {
                    if l != l1.label {
                        let l3 = Label { category: l1.category, label: l };
                        let ghost before = *grid;
                        proof {
                            assert(elim_target(old_g, l3, l2));
                            assert(elim_target(old_g, l2, l3));
                        }
                        match grid.set_with_callback(l3, l2, Cell::No, || "another label of its category is already paired".to_owned()) {
                            None => {
                                proof {
                                    assert(old_g.cell(l3, l2) == Cell::Yes);
                                    assert(!elim_stable(old_g));
                                    assert(grid.cell(l1, l2) == Cell::Yes);
                                    assert(grid.cell(l3, l2) == Cell::Yes);
                                    assert(elim_target(*grid, l3, l2));
                                    old_g.lemma_stepped_chain(before, *grid, changed, None);
                                }
                                return None;
                            },
                            Some(c) => {
                                proof {
                                    old_g.lemma_stepped_chain(before, *grid, changed, Some(c));
                                }
                                changed = changed || c;
                            },
                        }
                    }
                    l = l + 1;
                }
                proof {
                    assert(elim_done(*grid, l1, l2)) by {
                        assert forall|l3: Label|
                            grid.valid(l3) && l3.category == l2.category && l3 != l2 implies #[trigger] grid.cell(
                            l1,
                            l3,
                        ) == Cell::No by {
                            assert(l3 == Label { category: l2.category, label: l3.label });
                        }
                        assert forall|l3: Label|
                            grid.valid(l3) && l3.category == l1.category && l3 != l1 implies #[trigger] grid.cell(
                            l3,
                            l2,
                        ) == Cell::No by {
                            assert(l3 == Label { category: l1.category, label: l3.label });
                        }
                    }
                    assert forall|j: int|
                        0 <= j < k && old_g.cell((#[trigger] cells@[j]).0, cells@[j].1) == Cell::Yes implies elim_done(
                        *grid,
                        cells@[j].0,
                        cells@[j].1,
                    ) by {
                        lemma_elim_done_grows(start, *grid, cells@[j].0, cells@[j].1);
                    }
                }
            }
            k = k + 1;
        }
        proof {
            lemma_elim_complete(old_g, *grid, cells@);
            assert forall|a: Label, b: Label|
                old_g.valid(a) && old_g.valid(b) && elim_target(old_g, a, b) implies #[trigger] old_g.cell(a, b)
                != Cell::Yes by {
                assert(grid.cell(a, b) == Cell::No);
            }
            assert forall|a: Label, b: Label| old_g.valid(a) && old_g.valid(b) implies #[trigger] grid.cell(a, b)
                == if elim_target(old_g, a, b) {
                Cell::No
            } else {
                old_g.cell(a, b)
            } by {
                if grid.cell(a, b) != old_g.cell(a, b) {
                }
            }
            if changed {
                let (a, b) = choose|a: Label, b: Label|
                    old_g.valid(a) && old_g.valid(b) && #[trigger] old_g.cell(a, b) == Cell::Empty && #[trigger] grid.cell(
                        a,
                        b,
                    ) != Cell::Empty;
                assert(elim_target(old_g, a, b));
                assert(!elim_stable(old_g));
            } else {
                assert forall|a: Label, b: Label|
                    old_g.valid(a) && old_g.valid(b) && elim_target(old_g, a, b) implies #[trigger] old_g.cell(a, b)
                    == Cell::No by {
                    assert(grid.cell(a, b) == Cell::No);
                }
            }
        }
        Some(changed)
    }
}

/// After every Yes cell of `old` has had its row and column cleared in `g`,
/// every target of `old` is No in `g`.
proof fn lemma_elim_complete(old: Grid, g: Grid, cells: Seq<(Label, Label)>)
    requires
        old.wf(),
        g.wf(),
        old.extends(g),
        forall|a: Label, b: Label|
            old.valid(a) && old.valid(b) && a.category.0 < b.category.0 ==> exists|j: int|
                0 <= j < cells.len() && #[trigger] cells[j] == (a, b),
        forall|j: int|
            0 <= j < cells.len() ==> old.cell((#[trigger] cells[j]).0, cells[j].1) == Cell::Yes ==> elim_done(
                g,
                cells[j].0,
                cells[j].1,
            ),
    ensures
        forall|a: Label, b: Label|
            old.valid(a) && old.valid(b) && elim_target(old, a, b) ==> #[trigger] g.cell(a, b) == Cell::No,
{
    assert forall|a: Label, b: Label| old.valid(a) && old.valid(b) && elim_target(old, a, b) implies #[trigger] g.cell(
        a,
        b,
    ) == Cell::No by {
        if exists|l: Label|
            #![trigger old.cell(a, l)]
            old.valid(l) && l.category == b.category && l != b && old.cell(a, l) == Cell::Yes {
            let l = choose|l: Label|
                #![trigger old.cell(a, l)]
                old.valid(l) && l.category == b.category && l != b && old.cell(a, l) == Cell::Yes;
            old.lemma_symmetric(a, l);
            g.lemma_symmetric(a, b);
            if a.category.0 < l.category.0 {
                let j = choose|j: int| 0 <= j < cells.len() && #[trigger] cells[j] == (a, l);
                assert(elim_done(g, a, l));
                assert(g.cell(a, b) == Cell::No);
            } else {
                let j = choose|j: int| 0 <= j < cells.len() && #[trigger] cells[j] == (l, a);
                assert(elim_done(g, l, a));
                assert(g.cell(b, a) == Cell::No);
            }
        } else {
            let l = choose|l: Label|
                #![trigger old.cell(l, b)]
                old.valid(l) && l.category == a.category && l != a && old.cell(l, b) == Cell::Yes;
            old.lemma_symmetric(l, b);
            g.lemma_symmetric(a, b);
            if l.category.0 < b.category.0 {
                let j = choose|j: int| 0 <= j < cells.len() && #[trigger] cells[j] == (l, b);
                assert(elim_done(g, l, b));
                assert(g.cell(a, b) == Cell::No);
            } else {
                let j = choose|j: int| 0 <= j < cells.len() && #[trigger] cells[j] == (b, l);
                assert(elim_done(g, b, l));
                assert(g.cell(b, a) == Cell::No);
            }
        }
    }
}

/// If all cells in a given row or column are No except for a single Empty,
/// then that cell must be Yes.
pub struct OnlyEmpty {}

/// Every other cell of `a`'s row in `b`'s category is No.
pub open spec fn row_all_no(g: Grid, a: Label, b: Label) -> bool {
    forall|l: Label| #![trigger g.cell(a, l)] g.valid(l) && l.category == b.category && l != b ==> g.cell(a, l) == Cell::No
}

/// Every other cell of `b`'s column in `a`'s category is No.
pub open spec fn col_all_no(g: Grid, a: Label, b: Label) -> bool {
    forall|l: Label| #![trigger g.cell(l, b)] g.valid(l) && l.category == a.category && l != a ==> g.cell(l, b) == Cell::No
}

/// `(a, b)` is empty and the only cell of its row or of its column that is
/// not No.
pub open spec fn only_target(g: Grid, a: Label, b: Label) -> bool {
    &&& a.category != b.category
    &&& g.cell(a, b) == Cell::Empty
    &&& (row_all_no(g, a, b) || col_all_no(g, a, b))
}

proof fn lemma_only_target_symmetric(g: Grid, a: Label, b: Label)
    requires
        g.wf(),
        g.valid(a),
        g.valid(b),
    ensures
        only_target(g, a, b) == only_target(g, b, a),
{
    g.lemma_symmetric(a, b);
    assert(row_all_no(g, a, b) == col_all_no(g, b, a)) by {
        assert forall|l: Label| #![trigger g.cell(a, l)] #![trigger g.cell(l, a)] g.valid(l) implies g.cell(a, l) == g.cell(l, a) by {
            g.lemma_symmetric(a, l);
        }
    }
    assert(col_all_no(g, a, b) == row_all_no(g, b, a)) by {
        assert forall|l: Label| #![trigger g.cell(l, b)] #![trigger g.cell(b, l)] g.valid(l) implies g.cell(l, b) == g.cell(b, l) by {
            g.lemma_symmetric(l, b);
        }
    }
}

/// Whether every other cell of `a`'s row in `b`'s category is No.
fn check_row_all_no(grid: &Grid, a: Label, b: Label) -> (r: bool)
    requires
        grid.wf(),
        grid.valid(a),
        grid.valid(b),
    ensures
        r == row_all_no(*grid, a, b),
{
    let lpc = grid.labels_per_category();
    let mut l: usize = 0;
    while l < lpc
        invariant
            grid.wf(),
            grid.valid(a),
            grid.valid(b),
            lpc == grid.lpc(),
            l <= lpc,
            forall|m: usize|
                m < l && m != b.label ==> #[trigger] grid.cell(a, Label { category: b.category, label: m })
                    == Cell::No,
        decreases lpc - l,
    {
        if l != b.label {
            let l3 = Label { category: b.category, label: l };
            if *grid.at(a, l3) != Cell::No {
                return false;
            }
        }
        l = l + 1;
    }
    proof {
        assert forall|l3: Label| grid.valid(l3) && l3.category == b.category && l3 != b implies #[trigger] grid.cell(
            a,
            l3,
        ) == Cell::No by {
            assert(l3 == Label { category: b.category, label: l3.label });
        }
    }
    true
}

/// Whether every other cell of `b`'s column in `a`'s category is No.
fn check_col_all_no(grid: &Grid, a: Label, b: Label) -> (r: bool)
    requires
        grid.wf(),
        grid.valid(a),
        grid.valid(b),
    ensures
        r == col_all_no(*grid, a, b),
{
    let lpc = grid.labels_per_category();
    let mut l: usize = 0;
    while l < lpc
        invariant
            grid.wf(),
            grid.valid(a),
            grid.valid(b),
            lpc == grid.lpc(),
            l <= lpc,
            forall|m: usize|
                m < l && m != a.label ==> #[trigger] grid.cell(Label { category: a.category, label: m }, b)
                    == Cell::No,
        decreases lpc - l,
    {
        if l != a.label {
            let l3 = Label { category: a.category, label: l };
            if *grid.at(l3, b) != Cell::No {
                return false;
            }
        }
        l = l + 1;
    }
    proof {
        assert forall|l3: Label| grid.valid(l3) && l3.category == a.category && l3 != a implies #[trigger] grid.cell(
            l3,
            b,
        ) == Cell::No by {
            assert(l3 == Label { category: a.category, label: l3.label });
        }
    }
    true
}

/// What the single-possibility pass may have written so far into `g`,
/// starting from `old`: only Yes, and only on cells it targets.
spec fn only_inv(old: Grid, g: Grid, changed: bool) -> bool {
    &&& old.wf()
    &&& g.wf()
    &&& old.stepped(g, Some(changed))
    &&& forall|p: Label, q: Label|
        old.valid(p) && old.valid(q) && #[trigger] g.cell(p, q) != old.cell(p, q) ==> g.cell(p, q) == Cell::Yes
            && only_target(old, p, q)
}

/// No cell of `g` is a single possibility left empty: the pass changes nothing.
pub open spec fn only_stable(g: Grid) -> bool {
    forall|a: Label, b: Label| g.valid(a) && g.valid(b) ==> !#[trigger] only_target(g, a, b)
}

impl OnlyEmpty {
    /// Sets to Yes every empty cell that is the last one of its row or of its
    /// column that is not No. Never fails.
    pub fn apply(&self, grid: &mut Grid) -> (r: Option<bool>)
        requires
            old(grid).wf(),
        ensures
            final(grid).wf(),
            old(grid).stepped(*final(grid), r),
            r == Some(false) ==> *final(grid) == *old(grid),
            r is Some,
            r == Some(false) <==> only_stable(*old(grid)),
            forall|a: Label, b: Label|
                old(grid).valid(a) && old(grid).valid(b) ==> #[trigger] final(grid).cell(a, b) == if only_target(
                    *old(grid),
                    a,
                    b,
                ) {
                    Cell::Yes
                } else {
                    old(grid).cell(a, b)
                },
    {
        let ghost old_g = *grid;
        let cells = grid.cells();
        let mut changed = false;
        let mut k: usize = 0;
        proof {
            assert(old_g.stepped(*grid, Some(false)));
        }
        while k < cells.len()
            invariant
                only_inv(old_g, *grid, changed),
                !changed ==> *grid == old_g,
                old_g == *old(grid),
                forall|j: int|
                    0 <= j < cells@.len() ==> old_g.valid((#[trigger] cells@[j]).0) && old_g.valid(cells@[j].1)
                        && cells@[j].0.category.0 < cells@[j].1.category.0,
                forall|a: Label, b: Label|
                    old_g.valid(a) && old_g.valid(b) && a.category.0 < b.category.0 ==> exists|j: int|
                        0 <= j < cells@.len() && #[trigger] cells@[j] == (a, b),
                0 <= k <= cells@.len(),
                forall|j: int|
                    0 <= j < k && only_target(old_g, (#[trigger] cells@[j]).0, cells@[j].1) ==> grid.cell(
                        cells@[j].0,
                        cells@[j].1,
                    ) == Cell::Yes,
            decreases cells@.len() - k,
        {
            let (l1, l2) = cells[k];
            if *grid.at(l1, l2) == Cell::Empty {
                let ghost before = *grid;
                proof {
                    assert(old_g.cell(l1, l2) == Cell::Empty);
                    assert(row_all_no(*grid, l1, l2) == row_all_no(old_g, l1, l2)) by {
                        assert forall|l: Label| grid.valid(l) implies (#[trigger] grid.cell(l1, l) == Cell::No) == (
                        old_g.cell(l1, l) == Cell::No) by {}
                    }
                    assert(col_all_no(*grid, l1, l2) == col_all_no(old_g, l1, l2)) by {
                        assert forall|l: Label| grid.valid(l) implies (#[trigger] grid.cell(l, l2) == Cell::No) == (
                        old_g.cell(l, l2) == Cell::No) by {}
                    }
                }
                let only = check_row_all_no(grid, l1, l2) || check_col_all_no(grid, l1, l2);
                if only {
                    proof {
                        assert(only_target(old_g, l1, l2));
                        lemma_only_target_symmetric(old_g, l1, l2);
                    }
                    match grid.set_with_callback(l1, l2, Cell::Yes, || "the only possibility left".to_owned()) {
                        Some(c) => {
                            proof {
                                old_g.lemma_stepped_chain(before, *grid, changed, Some(c));
                            }
                            changed = changed || c;
                        },
                        None => {
                            proof {
                                assert(false);
                            }
                        },
                    }
                } else {
                    proof {
                        assert(!only_target(old_g, l1, l2));
                    }
                }
            }
            k = k + 1;
        }
        proof {
            assert forall|a: Label, b: Label| old_g.valid(a) && old_g.valid(b) implies #[trigger] grid.cell(a, b)
                == if only_target(old_g, a, b) {
                Cell::Yes
            } else {
                old_g.cell(a, b)
            } by {
                if only_target(old_g, a, b) {
                    lemma_only_target_symmetric(old_g, a, b);
                    grid.lemma_symmetric(a, b);
                    if a.category.0 < b.category.0 {
                        let j = choose|j: int| 0 <= j < cells@.len() && #[trigger] cells@[j] == (a, b);
                    } else {
                        let j = choose|j: int| 0 <= j < cells@.len() && #[trigger] cells@[j] == (b, a);
                    }
                }
            }
            if changed {
                let (a, b) = choose|a: Label, b: Label|
                    old_g.valid(a) && old_g.valid(b) && #[trigger] old_g.cell(a, b) == Cell::Empty && #[trigger] grid.cell(
                        a,
                        b,
                    ) != Cell::Empty;
                assert(only_target(old_g, a, b));
            } else {
                assert forall|a: Label, b: Label| old_g.valid(a) && old_g.valid(b) implies !#[trigger] only_target(
                    old_g,
                    a,
                    b,
                ) by {
                    if only_target(old_g, a, b) {
                        assert(grid.cell(a, b) == Cell::Yes);
                    }
                }
            }
        }
        Some(changed)
    }
}

/// If (x,y) == Yes and (y,z) == Yes, then (x,z) == Yes.
/// If (x,y) == Yes and (x,z) == Yes, then (y,z) == Yes.
pub struct Transitivity {}

/// `(p, q)` is Yes in `g` through a third label that is Yes with both.
pub open spec fn linked(g: Grid, p: Label, q: Label) -> bool {
    exists|w: Label|
        #![trigger g.cell(p, w), g.cell(w, q)]
        g.valid(w) && w != p && w != q && g.cell(p, w) == Cell::Yes && g.cell(w, q) == Cell::Yes
}

/// The Yes cells of `g` are closed under transitivity.
pub open spec fn trans_closed(g: Grid) -> bool {
    forall|x: Label, y: Label, z: Label|
        #![trigger g.cell(x, y), g.cell(x, z)]
        #![trigger g.cell(x, y), g.cell(y, z)]
        g.valid(x) && g.valid(y) && g.valid(z) && x.category != y.category && g.cell(x, y) == Cell::Yes ==> (g.cell(
            x,
            z,
        ) == Cell::Yes ==> g.cell(y, z) == Cell::Yes) && (g.cell(y, z) == Cell::Yes ==> g.cell(x, z) == Cell::Yes)
}

/// Sets `(b, z)` to Yes when `(a, b)` and `(a, z)` are Yes.
fn join(grid: &mut Grid, a: Label, b: Label, z: Label) -> (r: Option<bool>)
    requires
        old(grid).wf(),
        old(grid).valid(a),
        old(grid).valid(b),
        old(grid).valid(z),
        a.category != b.category,
        old(grid).cell(a, b) == Cell::Yes,
    ensures
        final(grid).wf(),
        old(grid).stepped(*final(grid), r),
        r == Some(false) ==> *final(grid) == *old(grid),
        forall|p: Label, q: Label|
            old(grid).valid(p) && old(grid).valid(q) && #[trigger] final(grid).cell(p, q) != old(grid).cell(p, q)
                ==> final(grid).cell(p, q) == Cell::Yes && linked(*final(grid), p, q),
        r is Some && old(grid).cell(a, z) == Cell::Yes ==> final(grid).cell(b, z) == Cell::Yes,
        r is None ==> linked(*final(grid), b, z) && final(grid).cell(b, z) == Cell::No,
        old(grid).cell(a, z) == Cell::Yes ==> old(grid).cell(b, z) == Cell::Yes ==> r == Some(false),
        old(grid).cell(a, z) != Cell::Yes ==> r == Some(false),
{
    if *grid.at(a, z) == Cell::Yes {
        let ghost before = *grid;
        proof {
            grid.lemma_symmetric(a, b);
        }
        let r = grid.set_with_callback(b, z, Cell::Yes, || "both go with a third label".to_owned());
        proof {
            if r is None {
                assert(grid.cell(b, a) == Cell::Yes && grid.cell(a, z) == Cell::Yes);
            }
            if r == Some(true) {
                assert(z != a);
                assert forall|p: Label, q: Label|
                    before.valid(p) && before.valid(q) && #[trigger] grid.cell(p, q) != before.cell(p, q) implies grid.cell(
                    p,
                    q,
                ) == Cell::Yes && linked(*grid, p, q) by {
                    grid.lemma_symmetric(p, a);
                    grid.lemma_symmetric(a, q);
                    assert(grid.cell(b, a) == Cell::Yes);
                    assert(grid.cell(a, z) == Cell::Yes);
                    assert(grid.cell(z, a) == Cell::Yes);
                    assert(grid.cell(a, b) == Cell::Yes);
                }
            }
        }
        r
    } else {
        proof {
            assert(grid.stepped(*grid, Some(false)));
        }
        Some(false)
    }
}

/// Applies transitivity through the Yes cell `(x, y)` to every label.
fn trans_row(grid: &mut Grid, x: Label, y: Label, labels: &Vec<Label>) -> (r: Option<bool>)
    requires
        old(grid).wf(),
        old(grid).valid(x),
        old(grid).valid(y),
        x.category != y.category,
        old(grid).cell(x, y) == Cell::Yes,
        labels@.len() == old(grid).ncat() * old(grid).lpc(),
        forall|m: int| 0 <= m < labels@.len() ==> old(grid).valid(#[trigger] labels@[m]),
        forall|a: Label| old(grid).valid(a) ==> labels@[#[trigger] old(grid).idx(a)] == a,
    ensures
        final(grid).wf(),
        old(grid).stepped(*final(grid), r),
        r == Some(false) ==> *final(grid) == *old(grid),
        forall|p: Label, q: Label|
            old(grid).valid(p) && old(grid).valid(q) && #[trigger] final(grid).cell(p, q) != old(grid).cell(p, q)
                ==> final(grid).cell(p, q) == Cell::Yes && linked(*final(grid), p, q),
        r is Some ==> forall|z: Label|
            old(grid).valid(z) ==> (#[trigger] old(grid).cell(x, z) == Cell::Yes ==> final(grid).cell(y, z)
                == Cell::Yes) && (old(grid).cell(y, z) == Cell::Yes ==> final(grid).cell(x, z) == Cell::Yes),
        r is None ==> exists|p: Label, q: Label|
            old(grid).valid(p) && old(grid).valid(q) && linked(*final(grid), p, q) && #[trigger] final(grid).cell(p, q)
                == Cell::No,
        (forall|z: Label|
            old(grid).valid(z) ==> (#[trigger] old(grid).cell(x, z) == Cell::Yes ==> old(grid).cell(y, z) == Cell::Yes)
                && (old(grid).cell(y, z) == Cell::Yes ==> old(grid).cell(x, z) == Cell::Yes)) ==> r == Some(false),
{
    let ghost old_g = *grid;
    let ghost closed = forall|z: Label|
        old_g.valid(z) ==> (#[trigger] old_g.cell(x, z) == Cell::Yes ==> old_g.cell(y, z) == Cell::Yes) && (old_g.cell(
            y,
            z,
        ) == Cell::Yes ==> old_g.cell(x, z) == Cell::Yes);
    let mut changed = false;
    let mut i: usize = 0;
    proof {
        assert(old_g.stepped(*grid, Some(false)));
    }
    while i < labels.len()
        invariant
            old_g == *old(grid),
            old_g.wf(),
            grid.wf(),
            old_g.stepped(*grid, Some(changed)),
            !changed ==> *grid == old_g,
            forall|p: Label, q: Label|
                old_g.valid(p) && old_g.valid(q) && #[trigger] grid.cell(p, q) != old_g.cell(p, q) ==> grid.cell(p, q)
                    == Cell::Yes && linked(*grid, p, q),
            closed ==> !changed,
            closed == forall|z: Label|
                old_g.valid(z) ==> (#[trigger] old_g.cell(x, z) == Cell::Yes ==> old_g.cell(y, z) == Cell::Yes) && (
                old_g.cell(y, z) == Cell::Yes ==> old_g.cell(x, z) == Cell::Yes),
            old_g.valid(x),
            old_g.valid(y),
            x.category != y.category,
            old_g.cell(x, y) == Cell::Yes,
            labels@.len() == old_g.ncat() * old_g.lpc(),
            forall|m: int| 0 <= m < labels@.len() ==> old_g.valid(#[trigger] labels@[m]),
            0 <= i <= labels@.len(),
            forall|m: int|
                0 <= m < i ==> (old_g.cell(x, #[trigger] labels@[m]) == Cell::Yes ==> grid.cell(y, labels@[m])
                    == Cell::Yes) && (old_g.cell(y, labels@[m]) == Cell::Yes ==> grid.cell(x, labels@[m]) == Cell::Yes),
        decreases labels@.len() - i,
    {
        let z = labels[i];
        let ghost g0 = *grid;
        proof {
            old_g.lemma_symmetric(x, y);
        }
        let r1 = join(grid, x, y, z);
        proof {
            old_g.lemma_stepped_chain(g0, *grid, changed, r1);
            lemma_linked_grows(old_g, g0, *grid);
        }
        match r1 {
            None => {
                return None;
            },
            Some(c) => {
                changed = changed || c;
            },
        }
        let ghost g1 = *grid;
        let r2 = join(grid, y, x, z);
        proof {
            old_g.lemma_stepped_chain(g1, *grid, changed, r2);
            lemma_linked_grows(old_g, g1, *grid);
        }
        match r2 {
            None => {
                return None;
            },
            Some(c) => {
                changed = changed || c;
            },
        }
        i = i + 1;
    }
    proof {
        assert forall|z: Label| old_g.valid(z) implies (#[trigger] old_g.cell(x, z) == Cell::Yes ==> grid.cell(y, z)
            == Cell::Yes) && (old_g.cell(y, z) == Cell::Yes ==> grid.cell(x, z) == Cell::Yes) by {
            assert(labels@[old_g.idx(z)] == z);
            old_g.lemma_idx_bound(z);
        }
    }
    Some(changed)
}

/// The changed cells stay Yes and linked as the grid grows.
proof fn lemma_linked_grows(old: Grid, g1: Grid, g2: Grid)
    requires
        old.wf(),
        g1.wf(),
        g2.wf(),
        old.extends(g1),
        g1.extends(g2),
        forall|p: Label, q: Label|
            old.valid(p) && old.valid(q) && #[trigger] g1.cell(p, q) != old.cell(p, q) ==> g1.cell(p, q) == Cell::Yes
                && linked(g1, p, q),
        forall|p: Label, q: Label|
            g1.valid(p) && g1.valid(q) && #[trigger] g2.cell(p, q) != g1.cell(p, q) ==> g2.cell(p, q) == Cell::Yes
                && linked(g2, p, q),
    ensures
        forall|p: Label, q: Label|
            old.valid(p) && old.valid(q) && #[trigger] g2.cell(p, q) != old.cell(p, q) ==> g2.cell(p, q) == Cell::Yes
                && linked(g2, p, q),
{
    assert forall|p: Label, q: Label|
        old.valid(p) && old.valid(q) && #[trigger] g2.cell(p, q) != old.cell(p, q) implies g2.cell(p, q) == Cell::Yes
        && linked(g2, p, q) by {
        if g1.cell(p, q) != old.cell(p, q) {
            let w = choose|w: Label|
                #![trigger g1.cell(p, w), g1.cell(w, q)]
                g1.valid(w) && w != p && w != q && g1.cell(p, w) == Cell::Yes && g1.cell(w, q) == Cell::Yes;
            assert(g2.cell(p, w) == Cell::Yes && g2.cell(w, q) == Cell::Yes);
        }
    }
}

/// Once every Yes cell of `old` has been joined with every label, the
/// transitive consequences of `old` hold in `g`.
proof fn lemma_trans_complete(old_g: Grid, g: Grid, cells: Seq<(Label, Label)>)
    requires
        old_g.wf(),
        forall|a: Label, b: Label|
            old_g.valid(a) && old_g.valid(b) && a.category.0 < b.category.0 ==> exists|j: int|
                0 <= j < cells.len() && #[trigger] cells[j] == (a, b),
        forall|j: int, z: Label|
            #![trigger cells[j], old_g.cell(cells[j].0, z)]
            #![trigger cells[j], old_g.cell(cells[j].1, z)]
            0 <= j < cells.len() && old_g.valid(z) && old_g.cell(cells[j].0, cells[j].1) == Cell::Yes ==> (old_g.cell(
                cells[j].0,
                z,
            ) == Cell::Yes ==> g.cell(cells[j].1, z) == Cell::Yes) && (old_g.cell(cells[j].1, z) == Cell::Yes
                ==> g.cell(cells[j].0, z) == Cell::Yes),
    ensures
        forall|x: Label, y: Label, z: Label|
            #![trigger old_g.cell(x, y), old_g.cell(x, z)]
            #![trigger old_g.cell(x, y), old_g.cell(y, z)]
            old_g.valid(x) && old_g.valid(y) && old_g.valid(z) && x.category != y.category && old_g.cell(x, y)
                == Cell::Yes ==> (old_g.cell(x, z) == Cell::Yes ==> g.cell(y, z) == Cell::Yes) && (old_g.cell(y, z)
                == Cell::Yes ==> g.cell(x, z) == Cell::Yes),
{
    assert forall|x: Label, y: Label, z: Label|
        #![trigger old_g.cell(x, y), old_g.cell(x, z)]
        #![trigger old_g.cell(x, y), old_g.cell(y, z)]
        old_g.valid(x) && old_g.valid(y) && old_g.valid(z) && x.category != y.category && old_g.cell(x, y)
            == Cell::Yes implies (old_g.cell(x, z) == Cell::Yes ==> g.cell(y, z) == Cell::Yes) && (old_g.cell(y, z)
        == Cell::Yes ==> g.cell(x, z) == Cell::Yes) by {
        old_g.lemma_symmetric(x, y);
        if x.category.0 < y.category.0 {
            let j = choose|j: int| 0 <= j < cells.len() && #[trigger] cells[j] == (x, y);
            assert(old_g.cell(cells[j].0, z) == old_g.cell(x, z));
        } else {
            let j = choose|j: int| 0 <= j < cells.len() && #[trigger] cells[j] == (y, x);
            assert(old_g.cell(cells[j].0, z) == old_g.cell(y, z));
        }
    }
}

/// Two labels linked through a third are No in `g`.
pub open spec fn trans_conflict(g: Grid) -> bool {
    exists|p: Label, q: Label| g.valid(p) && g.valid(q) && linked(g, p, q) && #[trigger] g.cell(p, q) == Cell::No
}

impl Transitivity {
    #[verifier::spinoff_prover]
    #[verifier::rlimit(60)]
    /// For every Yes cell `(x, y)` and every label `z`, makes `(y, z)` Yes
    /// when `(x, z)` is, and `(x, z)` Yes when `(y, z)` is.
    pub fn apply(&self, grid: &mut Grid) -> (r: Option<bool>)
        requires
            old(grid).wf(),
        ensures
            final(grid).wf(),
            old(grid).stepped(*final(grid), r),
            r == Some(false) ==> *final(grid) == *old(grid),
            forall|p: Label, q: Label|
                old(grid).valid(p) && old(grid).valid(q) && #[trigger] final(grid).cell(p, q) != old(grid).cell(p, q)
                    ==> final(grid).cell(p, q) == Cell::Yes && linked(*final(grid), p, q),
            r is Some ==> forall|x: Label, y: Label, z: Label|
                #![trigger old(grid).cell(x, y), old(grid).cell(x, z)]
                #![trigger old(grid).cell(x, y), old(grid).cell(y, z)]
                old(grid).valid(x) && old(grid).valid(y) && old(grid).valid(z) && x.category != y.category && old(
                    grid,
                ).cell(x, y) == Cell::Yes ==> (old(grid).cell(x, z) == Cell::Yes ==> final(grid).cell(y, z)
                    == Cell::Yes) && (old(grid).cell(y, z) == Cell::Yes ==> final(grid).cell(x, z) == Cell::Yes),
            r is None ==> exists|p: Label, q: Label|
                old(grid).valid(p) && old(grid).valid(q) && linked(*final(grid), p, q) && #[trigger] final(grid).cell(
                    p,
                    q,
                ) == Cell::No,
            r == Some(false) <==> trans_closed(*old(grid)),
            r is None ==> trans_conflict(*final(grid)),
    {
        let ghost old_g = *grid;
        let cells = grid.cells();
        let labels = grid.labels();
        let mut changed = false;
        let mut k: usize = 0;
        proof {
            assert(old_g.stepped(*grid, Some(false)));
        }
        while k < cells.len()
            invariant
                old_g == *old(grid),
                old_g.wf(),
                grid.wf(),
                old_g.stepped(*grid, Some(changed)),
            !changed ==> *grid == old_g,
                forall|p: Label, q: Label|
                    old_g.valid(p) && old_g.valid(q) && #[trigger] grid.cell(p, q) != old_g.cell(p, q) ==> grid.cell(p, q)
                        == Cell::Yes && linked(*grid, p, q),
                trans_closed(old_g) ==> !changed,
                forall|j: int|
                    0 <= j < cells@.len() ==> old_g.valid((#[trigger] cells@[j]).0) && old_g.valid(cells@[j].1)
                        && cells@[j].0.category.0 < cells@[j].1.category.0,
                forall|a: Label, b: Label|
                    old_g.valid(a) && old_g.valid(b) && a.category.0 < b.category.0 ==> exists|j: int|
                        0 <= j < cells@.len() && #[trigger] cells@[j] == (a, b),
                labels@.len() == old_g.ncat() * old_g.lpc(),
                forall|i: int| 0 <= i < labels@.len() ==> old_g.valid(#[trigger] labels@[i]),
                forall|a: Label| old_g.valid(a) ==> labels@[#[trigger] old_g.idx(a)] == a,
                0 <= k <= cells@.len(),
                forall|j: int, z: Label|
                    #![trigger cells@[j], old_g.cell(cells@[j].0, z)]
                    #![trigger cells@[j], old_g.cell(cells@[j].1, z)]
                    0 <= j < k && old_g.valid(z) && old_g.cell(cells@[j].0, cells@[j].1) == Cell::Yes ==> (old_g.cell(
                        cells@[j].0,
                        z,
                    ) == Cell::Yes ==> grid.cell(cells@[j].1, z) == Cell::Yes) && (old_g.cell(cells@[j].1, z)
                        == Cell::Yes ==> grid.cell(cells@[j].0, z) == Cell::Yes),
            decreases cells@.len() - k,
        {
            let (x, y) = cells[k];
            if *grid.at(x, y) == Cell::Yes {
                let ghost start = *grid;
                proof {
                    if trans_closed(old_g) {
                        assert(old_g.cell(x, y) == Cell::Yes);
                        assert(start.same_cells(old_g));
                        assert forall|z: Label| start.valid(z) implies (#[trigger] start.cell(x, z) == Cell::Yes
                            ==> start.cell(y, z) == Cell::Yes) && (start.cell(y, z) == Cell::Yes ==> start.cell(x, z)
                            == Cell::Yes) by {
                            assert(old_g.cell(x, z) == start.cell(x, z));
                            assert(old_g.cell(y, z) == start.cell(y, z));
                        }
                    }
                }
                proof {
                    assert forall|a: Label| start.valid(a) implies labels@[#[trigger] start.idx(a)] == a by {
                        assert(start.idx(a) == old_g.idx(a));
                    }
                }
                let r = trans_row(grid, x, y, &labels);
                proof {
                    old_g.lemma_stepped_chain(start, *grid, changed, r);
                    lemma_linked_grows(old_g, start, *grid);
                }
                match r {
                    None => {
                        return None;
                    },
                    Some(c) => {
                        changed = changed || c;
                    },
                }
                proof {
                    assert forall|j: int, z: Label|
                        #![trigger cells@[j], old_g.cell(cells@[j].0, z)]
                        #![trigger cells@[j], old_g.cell(cells@[j].1, z)]
                        0 <= j < k + 1 && old_g.valid(z) && old_g.cell(cells@[j].0, cells@[j].1) == Cell::Yes implies (
                        old_g.cell(cells@[j].0, z) == Cell::Yes ==> grid.cell(cells@[j].1, z) == Cell::Yes) && (
                        old_g.cell(cells@[j].1, z) == Cell::Yes ==> grid.cell(cells@[j].0, z) == Cell::Yes) by {
                        if j == k {
                            assert(start.cell(x, z) == old_g.cell(x, z) || old_g.cell(x, z) == Cell::Empty);
                            if old_g.cell(x, z) == Cell::Yes {
                                assert(start.cell(x, z) == Cell::Yes);
                            }
                            if old_g.cell(y, z) == Cell::Yes {
                                assert(start.cell(y, z) == Cell::Yes);
                            }
                        } else {
                            if old_g.cell(cells@[j].0, z) == Cell::Yes {
                                assert(start.cell(cells@[j].1, z) == Cell::Yes);
                            }
                            if old_g.cell(cells@[j].1, z) == Cell::Yes {
                                assert(start.cell(cells@[j].0, z) == Cell::Yes);
                            }
                        }
                    }
                }
            }
            k = k + 1;
        }
        proof {
            lemma_trans_complete(old_g, *grid, cells@);
        }
        Some(changed)
    }
}

/// Suppose we have some cell (x,y) where x and y are from separate categories,
/// Cx and Cy.
/// If for every z in some other category Cz (Cz != Cx and Cz != Cy),
/// (x,z) == No or (y,z) == No, then there exists no element of Cz which can
/// match the entity that has attributes x and y.
/// Thus, there is no path from x to y via z, and we can say (x,y) == No.
pub struct NoByProxy {}

/// No label of category `cz` can go with both `x` and `y` in `g`.
pub open spec fn blocked(g: Grid, x: Label, y: Label, cz: usize) -> bool {
    forall|z: Label|
        #![trigger g.cell(x, z)]
        #![trigger g.cell(y, z)]
        g.valid(z) && z.category.0 == cz ==> g.cell(x, z) == Cell::No || g.cell(y, z) == Cell::No
}

/// Some third category of `g` has no label that can go with both `x` and `y`.
pub open spec fn proxy_blocked(g: Grid, x: Label, y: Label) -> bool {
    exists|cz: usize|
        #![trigger blocked(g, x, y, cz)]
        cz < g.ncat() && cz != x.category.0 && cz != y.category.0 && blocked(g, x, y, cz)
}

/// Every pair that a third category blocks is already No in `g`.
pub open spec fn proxy_closed(g: Grid) -> bool {
    forall|x: Label, y: Label|
        g.valid(x) && g.valid(y) && x.category != y.category && proxy_blocked(g, x, y) ==> #[trigger] g.cell(x, y)
            == Cell::No
}

proof fn lemma_proxy_grows(g1: Grid, g2: Grid, x: Label, y: Label)
    requires
        g1.wf(),
        g1.valid(x),
        g1.valid(y),
        g1.extends(g2),
        proxy_blocked(g1, x, y),
    ensures
        proxy_blocked(g2, x, y),
        proxy_blocked(g2, y, x),
{
    let cz = choose|cz: usize|
        #![trigger blocked(g1, x, y, cz)]
        cz < g1.ncat() && cz != x.category.0 && cz != y.category.0 && blocked(g1, x, y, cz);
    assert forall|z: Label| g2.valid(z) && z.category.0 == cz implies #[trigger] g2.cell(x, z) == Cell::No
        || g2.cell(y, z) == Cell::No by {
        assert(g1.cell(x, z) == Cell::No || g1.cell(y, z) == Cell::No);
    }
    assert(blocked(g2, x, y, cz));
    assert forall|z: Label| g2.valid(z) && z.category.0 == cz implies #[trigger] g2.cell(y, z) == Cell::No
        || g2.cell(x, z) == Cell::No by {
        assert(g1.cell(x, z) == Cell::No || g1.cell(y, z) == Cell::No);
    }
    assert(blocked(g2, y, x, cz));
}

/// Whether no label of category `cz` can go with both `x` and `y`.
fn check_blocked(grid: &Grid, x: Label, y: Label, cz: usize) -> (r: bool)
    requires
        grid.wf(),
        grid.valid(x),
        grid.valid(y),
        cz < grid.ncat(),
    ensures
        r == blocked(*grid, x, y, cz),
{
    let lpc = grid.labels_per_category();
    let mut i: usize = 0;
    while i < lpc
        invariant
            grid.wf(),
            grid.valid(x),
            grid.valid(y),
            cz < grid.ncat(),
            lpc == grid.lpc(),
            i <= lpc,
            forall|m: usize|
                m < i ==> #[trigger] grid.cell(x, Label { category: Category(cz), label: m }) == Cell::No || grid.cell(
                    y,
                    Label { category: Category(cz), label: m },
                ) == Cell::No,
        decreases lpc - i,
    {
        let z = Label::new(Category(cz), i);
        if *grid.at(x, z) != Cell::No && *grid.at(y, z) != Cell::No {
            // (x,y) == Yes is reconcilable in category cz.
            return false;
        }
        i = i + 1;
    }
    proof {
        assert forall|z: Label| grid.valid(z) && z.category.0 == cz implies #[trigger] grid.cell(x, z) == Cell::No
            || grid.cell(y, z) == Cell::No by {
            assert(z == Label { category: Category(cz), label: z.label });
        }
    }
    true
}

/// Sets `(x, y)` to No when some third category blocks it.
fn proxy_cell(grid: &mut Grid, x: Label, y: Label) -> (r: Option<bool>)
    requires
        old(grid).wf(),
        old(grid).valid(x),
        old(grid).valid(y),
        x.category != y.category,
    ensures
        final(grid).wf(),
        r == if proxy_blocked(*old(grid), x, y) {
            old(grid).outcome(x, y, Cell::No)
        } else {
            Some(false)
        },
        old(grid).written(*final(grid), x, y, Cell::No, r == Some(true)),
        old(grid).stepped(*final(grid), r),
        r == Some(false) ==> *final(grid) == *old(grid),
        r is None ==> old(grid).same_cells(*final(grid)),
{
    let ncat = grid.num_categories();
    let mut cz: usize = 0;
    while cz < ncat
        invariant
            grid.wf(),
            grid.valid(x),
            grid.valid(y),
            x.category != y.category,
            *grid == *old(grid),
            ncat == grid.ncat(),
            cz <= ncat,
            forall|c: usize| c < cz && c != x.category.0 && c != y.category.0 ==> !#[trigger] blocked(*grid, x, y, c),
        decreases ncat - cz,
    {
        if cz != x.category.0 && cz != y.category.0 {
            if check_blocked(grid, x, y, cz) {
                // No path in one category, no point trying the rest.
                return grid.set_with_callback(x, y, Cell::No, || "no label of a third category fits both".to_owned());
            }
        }
        cz = cz + 1;
    }
    proof {
        assert(grid.stepped(*grid, Some(false)));
        assert(grid.written(*grid, x, y, Cell::No, false));
    }
    Some(false)
}

/// A pair that some third category blocks is Yes in `g`.
pub open spec fn proxy_conflict(g: Grid) -> bool {
    exists|x: Label, y: Label| g.valid(x) && g.valid(y) && proxy_blocked(g, x, y) && #[trigger] g.cell(x, y) == Cell::Yes
}

impl NoByProxy {
    /// Sets to No every cross-category pair that some third category blocks:
    /// no label of it can go with both labels of the pair.
    pub fn apply(&self, grid: &mut Grid) -> (r: Option<bool>)
        requires
            old(grid).wf(),
        ensures
            final(grid).wf(),
            old(grid).stepped(*final(grid), r),
            r == Some(false) ==> *final(grid) == *old(grid),
            forall|p: Label, q: Label|
                old(grid).valid(p) && old(grid).valid(q) && #[trigger] final(grid).cell(p, q) != old(grid).cell(p, q)
                    ==> final(grid).cell(p, q) == Cell::No && proxy_blocked(*final(grid), p, q),
            r is Some ==> forall|x: Label, y: Label|
                old(grid).valid(x) && old(grid).valid(y) && x.category != y.category && proxy_blocked(*old(grid), x, y)
                    ==> #[trigger] final(grid).cell(x, y) == Cell::No,
            r is None ==> exists|x: Label, y: Label|
                old(grid).valid(x) && old(grid).valid(y) && proxy_blocked(*final(grid), x, y)
                    && #[trigger] final(grid).cell(x, y) == Cell::Yes,
            r == Some(false) <==> proxy_closed(*old(grid)),
            r is None ==> proxy_conflict(*final(grid)),
    {
        let ghost old_g = *grid;
        let cells = grid.cells();
        let mut changed = false;
        let mut k: usize = 0;
        proof {
            assert(old_g.stepped(*grid, Some(false)));
        }
        while k < cells.len()
            invariant
                old_g == *old(grid),
                old_g.wf(),
                grid.wf(),
                old_g.stepped(*grid, Some(changed)),
            !changed ==> *grid == old_g,
                forall|p: Label, q: Label|
                    old_g.valid(p) && old_g.valid(q) && #[trigger] grid.cell(p, q) != old_g.cell(p, q) ==> grid.cell(p, q)
                        == Cell::No && proxy_blocked(*grid, p, q),
                proxy_closed(old_g) ==> !changed,
                forall|j: int|
                    0 <= j < cells@.len() ==> old_g.valid((#[trigger] cells@[j]).0) && old_g.valid(cells@[j].1)
                        && cells@[j].0.category.0 < cells@[j].1.category.0,
                forall|a: Label, b: Label|
                    old_g.valid(a) && old_g.valid(b) && a.category.0 < b.category.0 ==> exists|j: int|
                        0 <= j < cells@.len() && #[trigger] cells@[j] == (a, b),
                0 <= k <= cells@.len(),
                forall|j: int|
                    0 <= j < k && proxy_blocked(old_g, (#[trigger] cells@[j]).0, cells@[j].1) ==> grid.cell(
                        cells@[j].0,
                        cells@[j].1,
                    ) == Cell::No,
            decreases cells@.len() - k,
        {
            let (x, y) = cells[k];
            let ghost start = *grid;
            proof {
                if proxy_blocked(old_g, x, y) {
                    lemma_proxy_grows(old_g, start, x, y);
                }
                if proxy_closed(old_g) {
                    assert(start.same_cells(old_g));
                    assert(old_g.extends(start) && start.extends(old_g));
                    if proxy_blocked(start, x, y) {
                        lemma_proxy_grows(start, old_g, x, y);
                        assert(old_g.cell(x, y) == Cell::No);
                    }
                }
            }
            let r = proxy_cell(grid, x, y);
            proof {
                old_g.lemma_stepped_chain(start, *grid, changed, r);
                if r == Some(true) {
                    lemma_proxy_grows(start, *grid, x, y);
                }
                assert forall|p: Label, q: Label|
                    old_g.valid(p) && old_g.valid(q) && #[trigger] grid.cell(p, q) != old_g.cell(p, q) implies grid.cell(
                    p,
                    q,
                ) == Cell::No && proxy_blocked(*grid, p, q) by {
                    if start.cell(p, q) != old_g.cell(p, q) {
                        lemma_proxy_grows(start, *grid, p, q);
                    }
                }
            }
            match r {
                None => {
                    proof {
                        assert(proxy_blocked(start, x, y));
                        assert(start.cell(x, y) == Cell::Yes);
                        assert(grid.cell(x, y) == Cell::Yes);
                        lemma_proxy_grows(start, *grid, x, y);
                    }
                    return None;
                },
                Some(c) => {
                    changed = changed || c;
                },
            }
            k = k + 1;
        }
        proof {
            assert forall|x: Label, y: Label|
                old_g.valid(x) && old_g.valid(y) && x.category != y.category && proxy_blocked(old_g, x, y) implies #[trigger] grid.cell(
                x,
                y,
            ) == Cell::No by {
                grid.lemma_symmetric(x, y);
                if x.category.0 < y.category.0 {
                    let j = choose|j: int| 0 <= j < cells@.len() && #[trigger] cells@[j] == (x, y);
                } else {
                    lemma_proxy_grows(old_g, old_g, x, y);
                    let j = choose|j: int| 0 <= j < cells@.len() && #[trigger] cells@[j] == (y, x);
                }
            }
        }
        Some(changed)
    }
}

} // verus!
