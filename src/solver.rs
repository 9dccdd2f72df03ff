//! The fixed-point loop: constraints and rules are applied in passes until a
//! pass changes nothing or one of them finds a contradiction.
use crate::constraint::{Constraint, lab};
use crate::grid::{Cell, Grid, Step};
use crate::puzzle::{Category, Label, Puzzle};
use crate::rule::{
    ElimOthers, NoByProxy, OnlyEmpty, Transitivity, elim_conflict, elim_stable, only_stable, proxy_closed,
    proxy_conflict, trans_closed, trans_conflict,
};
use vstd::prelude::*;

verus! {

/// The solution to a puzzle.
pub struct Solution {
    /// One row for each label of the first category, in order. Entry `c`
    /// of a row is the label of category `c` resolved Yes with that label,
    /// or `None` if it was not resolved.
    pub labels: Vec<Vec<Option<Label>>>,
    /// Every change made to the grid on the way, in order.
    pub steps: Vec<Step>,
}

/// No constraint of `clues` and no rule changes anything in `g`.
pub open spec fn fixed_point(clues: Seq<Constraint>, g: Grid) -> bool {
    &&& forall|i: int| 0 <= i < clues.len() ==> #[trigger] clues[i].stable(g)
    &&& elim_stable(g)
    &&& only_stable(g)
    &&& trans_closed(g)
    &&& proxy_closed(g)
}

/// Some constraint of `clues` or some rule would write the opposite of a
/// decided cell of `g`.
pub open spec fn contradiction(clues: Seq<Constraint>, g: Grid) -> bool {
    ||| exists|i: int| 0 <= i < clues.len() && #[trigger] clues[i].conflict(g)
    ||| elim_conflict(g)
    ||| trans_conflict(g)
    ||| proxy_conflict(g)
}

/// `r` is the first label of category `cat` that is Yes with `a` in `g`, or
/// `None` when there is none.
pub open spec fn resolved(g: Grid, a: Label, cat: usize, r: Option<Label>) -> bool {
    match r {
        Some(b) => {
            &&& b.category.0 == cat
            &&& g.valid(b)
            &&& g.cell(a, b) == Cell::Yes
            &&& forall|j: int| 0 <= j < b.label ==> #[trigger] g.cell(a, lab(Category(cat), j)) != Cell::Yes
        },
        None => forall|j: int| 0 <= j < g.lpc() ==> #[trigger] g.cell(a, lab(Category(cat), j)) != Cell::Yes,
    }
}

/// `rows` is the table of `g`: one row per label of the first category,
/// one entry per category.
pub open spec fn projects(g: Grid, rows: Seq<Vec<Option<Label>>>) -> bool {
    &&& rows.len() == g.lpc()
    &&& forall|l: int|
        0 <= l < rows.len() ==> (#[trigger] rows[l])@.len() == g.ncat() && forall|c: int|
            0 <= c < g.ncat() ==> resolved(g, lab(Category(0), l), c as usize, #[trigger] rows[l]@[c])
}

/// One pass: every constraint in order, then ElimOthers, OnlyEmpty,
/// Transitivity and NoByProxy. Changes nothing exactly when the grid is
/// already a fixed point.
pub fn run_pass(grid: &mut Grid, constraints: &[Constraint]) -> (r: Option<bool>)
    requires
        old(grid).wf(),
        forall|i: int| 0 <= i < constraints@.len() ==> #[trigger] constraints@[i].in_range(old(grid).ncat(), old(grid).lpc()),
    ensures
        final(grid).wf(),
        old(grid).stepped(*final(grid), r),
        r == Some(false) ==> *final(grid) == *old(grid),
        r == Some(false) <==> fixed_point(constraints@, *old(grid)),
        r is None ==> contradiction(constraints@, *final(grid)),
{
    let ghost start = *grid;
    let mut changed = false;
    let mut i: usize = 0;
    proof {
        assert(start.stepped(*grid, Some(false)));
    }
    while i < constraints.len()
        invariant
            start == *old(grid),
            start.wf(),
            grid.wf(),
            start.stepped(*grid, Some(changed)),
            !changed ==> *grid == start,
            changed ==> !fixed_point(constraints@, start),
            i <= constraints@.len(),
            forall|k: int| 0 <= k < constraints@.len() ==> #[trigger] constraints@[k].in_range(start.ncat(), start.lpc()),
            !changed ==> forall|k: int| 0 <= k < i ==> #[trigger] constraints@[k].stable(start),
        decreases constraints@.len() - i,
    {
        let ghost before = *grid;
        let r = constraints[i].apply(grid);
        proof {
            start.lemma_stepped_chain(before, *grid, changed, r);
            if !changed && r != Some(false) {
                assert(!constraints@[i as int].stable(start));
            }
            if r is None {
                assert(constraints@[i as int].conflict(*grid));
            }
        }
        match r {
            None => return None,
            Some(c) => changed = changed || c,
        }
        i = i + 1;
    }
    let ghost before = *grid;
    let r = ElimOthers {}.apply(grid);
    proof {
        start.lemma_stepped_chain(before, *grid, changed, r);
    }
    match r {
        None => return None,
        Some(c) => changed = changed || c,
    }
    let ghost before = *grid;
    let r = OnlyEmpty {}.apply(grid);
    proof {
        start.lemma_stepped_chain(before, *grid, changed, r);
    }
    match r {
        None => return None,
        Some(c) => changed = changed || c,
    }
    let ghost before = *grid;
    let r = Transitivity {}.apply(grid);
    proof {
        start.lemma_stepped_chain(before, *grid, changed, r);
    }
    match r {
        None => return None,
        Some(c) => changed = changed || c,
    }
    let ghost before = *grid;
    let r = NoByProxy {}.apply(grid);
    proof {
        start.lemma_stepped_chain(before, *grid, changed, r);
    }
    match r {
        None => return None,
        Some(c) => changed = changed || c,
    }
    Some(changed)
}

/// The solving process for one puzzle: the puzzle and the grid it owns.
pub struct Solver<'p> {
    puzzle: &'p Puzzle,
    grid: Grid,
}

impl<'p> Solver<'p> {
    pub closed spec fn wf(&self) -> bool {
        &&& self.puzzle.wf()
        &&& self.grid.wf()
        &&& self.grid.ncat() == self.puzzle.ncat()
        &&& self.grid.lpc() == self.puzzle.lpc()
    }

    /// The puzzle being solved.
    pub closed spec fn problem(&self) -> Puzzle {
        *self.puzzle
    }

    /// The grid in its current state.
    pub closed spec fn state(&self) -> Grid {
        self.grid
    }

    /// A solver holding a fresh grid for `puzzle`.
    pub fn new(puzzle: &'p Puzzle) -> (r: Solver<'p>)
        requires
            puzzle.wf(),
        ensures
            r.wf(),
            r.problem() == *puzzle,
            forall|a: Label, b: Label|
                r.state().valid(a) && r.state().valid(b) && a.category != b.category ==> #[trigger] r.state().cell(a, b)
                    == Cell::Empty,
    {
        let grid = Grid::new(puzzle);
        Solver { puzzle, grid }
    }

    /// The grid being solved.
    pub fn grid(&self) -> (r: &Grid)
        ensures
            *r == self.state(),
    {
        &self.grid
    }

    /// Runs passes until one changes nothing. Returns false when a
    /// constraint or rule finds a contradiction. On a grid that is already
    /// a fixed point it changes nothing.
    pub fn run(&mut self) -> (r: bool)
        requires
            old(self).wf(),
        ensures
            final(self).wf(),
            final(self).problem() == old(self).problem(),
            old(self).state().extends(final(self).state()),
            r ==> fixed_point(final(self).problem().clues(), final(self).state()),
            !r ==> contradiction(final(self).problem().clues(), final(self).state()),
            fixed_point(old(self).problem().clues(), old(self).state()) ==> r && final(self).state() == old(self).state(),
    {
        let ghost g0 = self.grid;
        let n = self.grid.num_categories() * self.grid.labels_per_category();
        let mut changed = true;
        proof {
            g0.lemma_decided_grows(g0);
        }
        while changed
            invariant
                self.wf(),
                self.puzzle == old(self).puzzle,
                g0 == old(self).grid,
                g0.wf(),
                g0.extends(self.grid),
                n == g0.ncat() * g0.lpc(),
                self.grid.decided().finite(),
                self.grid.decided().len() <= n * n,
                !changed ==> fixed_point(self.puzzle.clues(), self.grid),
                fixed_point(self.puzzle.clues(), g0) ==> self.grid == g0,
            decreases (n * n - self.grid.decided().len()) * 2 + if changed {
                1int
            } else {
                0int
            },
        {
            let ghost before = self.grid;
            let constraints = self.puzzle.constraints();
            match run_pass(&mut self.grid, constraints) {
                None => return false,
                Some(c) => {
                    proof {
                        before.lemma_decided_grows(self.grid);
                        g0.lemma_extends_trans(before, self.grid);
                    }
                    changed = c;
                },
            }
        }
        true
    }

    /// Runs passes until one changes nothing, and projects the grid into a
    /// `Solution`; `None` when the clues contradict each other.
    pub fn solve(self) -> (r: Option<Solution>)
        requires
            self.wf(),
        ensures
            r is Some ==> exists|g: Grid|
                {
                    &&& g.wf()
                    &&& self.state().extends(g)
                    &&& fixed_point(self.problem().clues(), g)
                    &&& #[trigger] projects(g, r->0.labels@)
                },
            r is None ==> exists|g: Grid|
                {
                    &&& g.wf()
                    &&& self.state().extends(g)
                    &&& #[trigger] contradiction(self.problem().clues(), g)
                },
            fixed_point(self.problem().clues(), self.state()) ==> r is Some && projects(self.state(), r->0.labels@),
    {
        let mut solver = self;
        if !solver.run() {
            proof {
                assert(contradiction(self.problem().clues(), solver.grid));
            }
            return None;
        }
        let ghost last = solver.grid;
        let labels = solver.table();
        let steps = solver.grid.into_steps();
        let s = Solution { labels, steps };
        let r = Some(s);
        proof {
            assert(projects(last, r->0.labels@));
        }
        r
    }

    /// The table of the current grid: for every label of the first
    /// category, the first label of each category that is Yes with it.
    fn table(&self) -> (r: Vec<Vec<Option<Label>>>)
        requires
            self.wf(),
        ensures
            projects(self.grid, r@),
    {
        let lpc = self.grid.labels_per_category();
        let ncat = self.grid.num_categories();
        let mut rows: Vec<Vec<Option<Label>>> = Vec::new();
        let mut l: usize = 0;
        while l < lpc
            invariant
                self.wf(),
                lpc == self.grid.lpc(),
                ncat == self.grid.ncat(),
                l <= lpc,
                rows@.len() == l,
                forall|m: int|
                    0 <= m < l ==> (#[trigger] rows@[m])@.len() == ncat && forall|c: int|
                        0 <= c < ncat ==> resolved(self.grid, lab(Category(0), m), c as usize, #[trigger] rows@[m]@[c]),
            decreases lpc - l,
        {
            let primary = Label::new(Category(0), l);
            let mut row: Vec<Option<Label>> = Vec::new();
            let mut cat: usize = 0;
            while cat < ncat
                invariant
                    self.wf(),
                    lpc == self.grid.lpc(),
                    ncat == self.grid.ncat(),
                    l < lpc,
                    0 < ncat,
                    primary == lab(Category(0), l as int),
                    cat <= ncat,
                    row@.len() == cat,
                    forall|c: int| 0 <= c < cat ==> resolved(self.grid, primary, c as usize, #[trigger] row@[c]),
                decreases ncat - cat,
            {
                let mut found: Option<Label> = None;
                let mut k: usize = 0;
                while k < lpc && found.is_none()
                    invariant
                        self.wf(),
                        lpc == self.grid.lpc(),
                        ncat == self.grid.ncat(),
                        l < lpc,
                        cat < ncat,
                        primary == lab(Category(0), l as int),
                        k <= lpc,
                        found is None ==> forall|j: int|
                            0 <= j < k ==> #[trigger] self.grid.cell(primary, lab(Category(cat), j)) != Cell::Yes,
                        resolved(self.grid, primary, cat, found) || found is None,
                    decreases lpc - k + if found is None {
                        1int
                    } else {
                        0int
                    },
                {
                    let secondary = Label::new(Category(cat), k);
                    proof {
                        assert(secondary == lab(Category(cat), k as int));
                    }
                    if *self.grid.at(primary, secondary) == Cell::Yes {
                        found = Some(secondary);
                    } else {
                        k = k + 1;
                    }
                }
                row.push(found);
                cat = cat + 1;
            }
            rows.push(row);
            l = l + 1;
        }
        rows
    }
}

/// Solves `puzzle`: `None` when its clues contradict each other.
pub fn solve(puzzle: &Puzzle) -> (r: Option<Solution>)
    requires
        puzzle.wf(),
    ensures
        r is Some ==> exists|g: Grid|
            {
                &&& g.wf()
                &&& g.ncat() == puzzle.ncat()
                &&& g.lpc() == puzzle.lpc()
                &&& fixed_point(puzzle.clues(), g)
                &&& #[trigger] projects(g, r->0.labels@)
            },
        r is None ==> exists|g: Grid|
            {
                &&& g.wf()
                &&& g.ncat() == puzzle.ncat()
                &&& g.lpc() == puzzle.lpc()
                &&& #[trigger] contradiction(puzzle.clues(), g)
            },
{
    let solver = Solver::new(puzzle);
    let r = solver.solve();
    proof {
        if r is Some {
            let g = choose|g: Grid|
                {
                    &&& g.wf()
                    &&& solver.state().extends(g)
                    &&& fixed_point(solver.problem().clues(), g)
                    &&& #[trigger] projects(g, r->0.labels@)
                };
            assert(projects(g, r->0.labels@));
        } else {
            let g = choose|g: Grid|
                {
                    &&& g.wf()
                    &&& solver.state().extends(g)
                    &&& #[trigger] contradiction(solver.problem().clues(), g)
                };
            assert(contradiction(puzzle.clues(), g));
        }
    }
    r
}

} // verus!
