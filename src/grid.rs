//! The relation grid: one tri-state cell for every pair of labels, read and
//! written through accessors that hide which half of the square is stored.
use crate::constraint::label_in_range;
use crate::puzzle::{Category, Label, Puzzle};
use vstd::arithmetic::div_mod::lemma_fundamental_div_mod_converse;
use vstd::prelude::*;

verus! {

/// What is known of a pair of labels: nothing yet, same entity, or not.
#[derive(Debug, PartialEq, Eq, Copy, Clone, Structural)]
pub enum Cell {
    Empty,
    Yes,
    No,
}

/// One recorded change of the grid, with an optional explanation.
#[derive(Debug)]
pub struct Step {
    pub description: String,
    /// The pair that changed and the value it took, when the step records a
    /// change of the grid.
    pub cell: Option<(Label, Label, Cell)>,
}

impl Step {
    pub fn new(description: String) -> (r: Step)
        ensures
            r.description == description,
            r.cell is None,
    {
        Step { description, cell: None }
    }
}

/// The grid of all label pairs of one puzzle.
pub struct Grid {
    /// A square of `labels_per_category * num_categories` rows; the cell of
    /// two labels is stored in the row of the one whose category comes first.
    cells: Vec<Vec<Cell>>,
    /// The number of categories in the puzzle.
    num_categories: usize,
    /// The number of labels per category in the puzzle.
    labels_per_category: usize,
    /// Every change made so far, in order.
    pub steps: Vec<Step>,
}

/// Position `lpc * c + l` of label `l` of category `c` is below `lpc * ncat`
/// and gives back `c` and `l` by division.
pub proof fn lemma_index(lpc: int, ncat: int, c: int, l: int)
    requires
        0 <= c < ncat,
        0 <= l < lpc,
    ensures
        0 <= lpc * c + l < lpc * ncat,
        (lpc * c + l) / lpc == c,
        (lpc * c + l) % lpc == l,
{
    assert(0 <= lpc * c + l < lpc * ncat) by (nonlinear_arith)
        requires
            0 <= c < ncat,
            0 <= l < lpc,
    ;
    assert(lpc * c == c * lpc) by (nonlinear_arith);
    lemma_fundamental_div_mod_converse(lpc * c + l, lpc, c, l);
}

/// Two pairs name the same cell of the grid (in either order).
pub open spec fn same_pair(p: Label, q: Label, a: Label, b: Label) -> bool {
    (p == a && q == b) || (p == b && q == a)
}

impl Grid {
    /// Number of categories.
    pub closed spec fn ncat(&self) -> nat {
        self.num_categories as nat
    }

    /// Number of labels in each category.
    pub closed spec fn lpc(&self) -> nat {
        self.labels_per_category as nat
    }

    /// `l` is a label of the grid's puzzle.
    pub open spec fn valid(&self, l: Label) -> bool {
        label_in_range(l, self.ncat(), self.lpc())
    }

    /// Row or column of label `l` in the stored square.
    pub open spec fn idx(&self, l: Label) -> int {
        self.lpc() * l.category.0 + l.label
    }

    /// The changes recorded so far.
    pub closed spec fn history(&self) -> Seq<Step> {
        self.steps@
    }

    /// The stored square, as plain sequences.
    pub closed spec fn raw(&self, i: int, j: int) -> Cell {
        self.cells@[i]@[j]
    }

    /// What the grid holds for the pair `(a, b)`.
    pub open spec fn cell(&self, a: Label, b: Label) -> Cell {
        if a.category.0 <= b.category.0 {
            self.raw(self.idx(a), self.idx(b))
        } else {
            self.raw(self.idx(b), self.idx(a))
        }
    }

    pub closed spec fn shape_wf(&self) -> bool {
        &&& self.cells@.len() == self.ncat() * self.lpc()
        &&& forall|i: int| 0 <= i < self.cells@.len() ==> (#[trigger] self.cells@[i])@.len() == self.ncat() * self.lpc()
    }

    /// Well-formed: a square of the right size, in which a label is related
    /// to itself and to no other label of its own category.
    pub open spec fn wf(&self) -> bool {
        &&& self.shape_wf()
        &&& self.ncat() * self.lpc() <= usize::MAX
        &&& forall|a: Label, b: Label|
            self.valid(a) && self.valid(b) && a.category == b.category ==> #[trigger] self.cell(a, b) == if a.label
                == b.label {
                Cell::Yes
            } else {
                Cell::No
            }
    }

    /// `later` holds every decided cell of `self`, unchanged.
    pub open spec fn extends(&self, later: Grid) -> bool {
        &&& later.ncat() == self.ncat()
        &&& later.lpc() == self.lpc()
        &&& forall|a: Label, b: Label|
            self.valid(a) && self.valid(b) && self.cell(a, b) != Cell::Empty ==> #[trigger] later.cell(a, b)
                == self.cell(a, b)
    }

    /// `later` has decided a cell that is empty in `self`.
    pub open spec fn grew(&self, later: Grid) -> bool {
        exists|a: Label, b: Label|
            self.valid(a) && self.valid(b) && #[trigger] self.cell(a, b) == Cell::Empty && #[trigger] later.cell(a, b)
                != Cell::Empty
    }

    /// Every cell of `self` and `other` agrees.
    pub open spec fn same_cells(&self, other: Grid) -> bool {
        &&& other.ncat() == self.ncat()
        &&& other.lpc() == self.lpc()
        &&& forall|a: Label, b: Label| self.valid(a) && self.valid(b) ==> #[trigger] other.cell(a, b) == self.cell(a, b)
    }

    /// A run of writes that took `self` to `later` and reported `r`:
    /// decided cells stay, a reported change is a real one, and a
    /// reported no-change leaves every cell as it was.
    pub open spec fn stepped(&self, later: Grid, r: Option<bool>) -> bool {
        &&& self.extends(later)
        &&& (r == Some(true) ==> self.grew(later))
        &&& (r == Some(false) ==> self.same_cells(later))
    }

    /// `extends` is transitive.
    pub proof fn lemma_extends_trans(&self, mid: Grid, later: Grid)
        requires
            self.wf(),
            self.extends(mid),
            mid.extends(later),
        ensures
            self.extends(later),
    {
        assert forall|a: Label, b: Label|
            self.valid(a) && self.valid(b) && self.cell(a, b) != Cell::Empty implies #[trigger] later.cell(a, b)
            == self.cell(a, b) by {
            assert(mid.cell(a, b) == self.cell(a, b));
        }
    }

    /// Two runs of writes in a row.
    pub proof fn lemma_stepped_chain(&self, mid: Grid, later: Grid, c1: bool, c2: Option<bool>)
        requires
            self.wf(),
            mid.wf(),
            later.wf(),
            self.stepped(mid, Some(c1)),
            mid.stepped(later, c2),
        ensures
            self.stepped(
                later,
                match c2 {
                    Some(c) => Some(c1 || c),
                    None => None,
                },
            ),
    {
        assert forall|a: Label, b: Label|
            self.valid(a) && self.valid(b) && self.cell(a, b) != Cell::Empty implies #[trigger] later.cell(a, b)
            == self.cell(a, b) by {
            assert(mid.cell(a, b) == self.cell(a, b));
        }
        if c1 {
            let (a, b) = choose|a: Label, b: Label|
                self.valid(a) && self.valid(b) && #[trigger] self.cell(a, b) == Cell::Empty && #[trigger] mid.cell(a, b)
                    != Cell::Empty;
            assert(later.cell(a, b) == mid.cell(a, b));
        }
        if c2 == Some(true) {
            let (a, b) = choose|a: Label, b: Label|
                mid.valid(a) && mid.valid(b) && #[trigger] mid.cell(a, b) == Cell::Empty && #[trigger] later.cell(a, b)
                    != Cell::Empty;
            if !c1 {
                assert(self.cell(a, b) == mid.cell(a, b));
            } else {
            }
        }
        if c2 == Some(false) && !c1 {
            assert forall|a: Label, b: Label| self.valid(a) && self.valid(b) implies #[trigger] later.cell(a, b)
                == self.cell(a, b) by {
                assert(mid.cell(a, b) == self.cell(a, b));
            }
        }
    }

    /// What `set(a, b, v)` reports: a change, a no-op, or a contradiction.
    pub open spec fn outcome(&self, a: Label, b: Label, v: Cell) -> Option<bool> {
        if self.cell(a, b) == Cell::Empty {
            Some(true)
        } else if self.cell(a, b) == v {
            Some(false)
        } else {
            None
        }
    }

    /// `later` is `self` with the cell `(a, b)` set to `v`, if `changed`.
    pub open spec fn written(&self, later: Grid, a: Label, b: Label, v: Cell, changed: bool) -> bool {
        &&& later.ncat() == self.ncat()
        &&& later.lpc() == self.lpc()
        &&& forall|p: Label, q: Label|
            self.valid(p) && self.valid(q) ==> #[trigger] later.cell(p, q) == if changed && same_pair(p, q, a, b) {
                v
            } else {
                self.cell(p, q)
            }
    }

    /// The canonical cells, as flat numbers, that hold a decided value.
    pub closed spec fn decided(&self) -> Set<int> {
        Set::new(
            |k: int|
                exists|a: Label, b: Label|
                    #![trigger self.cell(a, b)]
                    self.valid(a) && self.valid(b) && a.category.0 <= b.category.0 && k == self.key(a, b)
                        && self.cell(a, b) != Cell::Empty,
        )
    }

    pub open spec fn key(&self, a: Label, b: Label) -> int {
        self.idx(a) * (self.ncat() * self.lpc()) + self.idx(b)
    }

    /// The position of a valid label lies inside the square.
    pub proof fn lemma_idx_bound(&self, a: Label)
        requires
            self.valid(a),
        ensures
            0 <= self.idx(a) < self.ncat() * self.lpc(),
    {
        self.lemma_idx(a);
    }

    proof fn lemma_idx(&self, a: Label)
        requires
            self.valid(a),
        ensures
            0 <= self.idx(a) < self.ncat() * self.lpc(),
            self.idx(a) / (self.lpc() as int) == a.category.0,
            self.idx(a) % (self.lpc() as int) == a.label,
    {
        lemma_index(self.lpc() as int, self.ncat() as int, a.category.0 as int, a.label as int);
    }

    proof fn lemma_key(&self, a: Label, b: Label, c: Label, d: Label)
        requires
            self.valid(a),
            self.valid(b),
            self.valid(c),
            self.valid(d),
        ensures
            0 <= self.key(a, b) < (self.ncat() * self.lpc()) * (self.ncat() * self.lpc()),
            self.key(a, b) == self.key(c, d) ==> a == c && b == d,
    {
        self.lemma_idx(a);
        self.lemma_idx(b);
        self.lemma_idx(c);
        self.lemma_idx(d);
        let n = self.ncat() * self.lpc();
        lemma_index(n as int, n as int, self.idx(a), self.idx(b));
        lemma_index(n as int, n as int, self.idx(c), self.idx(d));
        assert(self.idx(a) * n == n * self.idx(a)) by (nonlinear_arith);
        assert(self.idx(c) * n == n * self.idx(c)) by (nonlinear_arith);
    }

    /// A well-formed grid: the pair `(a, b)` and the pair `(b, a)` are one cell.
    pub proof fn lemma_symmetric(&self, a: Label, b: Label)
        requires
            self.wf(),
            self.valid(a),
            self.valid(b),
        ensures
            self.cell(a, b) == self.cell(b, a),
    {
        if a.category == b.category {
            assert(self.cell(a, b) == self.cell(b, a));
        }
    }

    /// A label is related to itself and to no other label of its own
    /// category, in every well-formed grid and so before any propagation.
    pub proof fn lemma_same_category(&self, a: Label, b: Label)
        requires
            self.wf(),
            self.valid(a),
            self.valid(b),
            a.category == b.category,
        ensures
            self.cell(a, b) == if a == b {
                Cell::Yes
            } else {
                Cell::No
            },
    {
        assert(self.cell(a, b) == if a.label == b.label {
            Cell::Yes
        } else {
            Cell::No
        });
    }

    /// Write-once: writing a decided cell's own value again is a no-op, and
    /// writing the other value is a contradiction.
    pub proof fn lemma_write_once(&self, a: Label, b: Label, w: Cell)
        requires
            self.wf(),
            self.valid(a),
            self.valid(b),
            self.cell(a, b) != Cell::Empty,
            w != Cell::Empty,
        ensures
            self.outcome(a, b, self.cell(a, b)) == Some(false),
            w != self.cell(a, b) ==> self.outcome(a, b, w) is None,
    {
    }

    /// After a write that succeeded the cell holds the written value, so the
    /// cell is decided from then on.
    pub proof fn lemma_written_decides(&self, later: Grid, a: Label, b: Label, v: Cell)
        requires
            self.wf(),
            self.valid(a),
            self.valid(b),
            v != Cell::Empty,
            self.outcome(a, b, v) is Some,
            self.written(later, a, b, v, self.outcome(a, b, v) == Some(true)),
        ensures
            later.cell(a, b) == v,
            later.outcome(a, b, v) == Some(false),
    {
    }

    /// The decided cells only grow along `extends`, and strictly when the
    /// later grid `grew`; there are at most `size * size` of them.
    pub proof fn lemma_decided_grows(&self, later: Grid)
        requires
            self.wf(),
            later.wf(),
            self.extends(later),
        ensures
            self.decided().finite(),
            later.decided().finite(),
            self.decided().len() <= later.decided().len(),
            later.decided().len() <= (self.ncat() * self.lpc()) * (self.ncat() * self.lpc()),
            self.grew(later) ==> self.decided().len() < later.decided().len(),
    {
        let n = self.ncat() * self.lpc();
        let full = Set::new(|k: int| 0 <= k < n * n);
        assert(full =~= vstd::set_lib::set_int_range(0, (n * n) as int));
        vstd::set_lib::lemma_int_range(0, (n * n) as int);
        assert(self.decided().subset_of(full)) by {
            assert forall|k: int| self.decided().contains(k) implies full.contains(k) by {
                let (a, b) = choose|a: Label, b: Label|
                    #![trigger self.cell(a, b)]
                    self.valid(a) && self.valid(b) && a.category.0 <= b.category.0 && k == self.key(a, b)
                        && self.cell(a, b) != Cell::Empty;
                self.lemma_key(a, b, a, b);
            }
        }
        assert(later.decided().subset_of(full)) by {
            assert forall|k: int| later.decided().contains(k) implies full.contains(k) by {
                let (a, b) = choose|a: Label, b: Label|
                    #![trigger later.cell(a, b)]
                    later.valid(a) && later.valid(b) && a.category.0 <= b.category.0 && k == later.key(a, b)
                        && later.cell(a, b) != Cell::Empty;
                later.lemma_key(a, b, a, b);
            }
        }
        vstd::set_lib::lemma_len_subset(self.decided(), full);
        vstd::set_lib::lemma_len_subset(later.decided(), full);
        assert(self.decided().subset_of(later.decided())) by {
            assert forall|k: int| self.decided().contains(k) implies later.decided().contains(k) by {
                let (a, b) = choose|a: Label, b: Label|
                    #![trigger self.cell(a, b)]
                    self.valid(a) && self.valid(b) && a.category.0 <= b.category.0 && k == self.key(a, b)
                        && self.cell(a, b) != Cell::Empty;
                assert(later.cell(a, b) == self.cell(a, b));
            }
        }
        vstd::set_lib::lemma_len_subset(self.decided(), later.decided());
        if self.grew(later) {
            let (a0, b0) = choose|a: Label, b: Label|
                self.valid(a) && self.valid(b) && #[trigger] self.cell(a, b) == Cell::Empty && #[trigger] later.cell(
                    a,
                    b,
                ) != Cell::Empty;
            let (a, b) = if a0.category.0 <= b0.category.0 {
                (a0, b0)
            } else {
                (b0, a0)
            };
            self.lemma_symmetric(a0, b0);
            later.lemma_symmetric(a0, b0);
            let k = self.key(a, b);
            assert(later.decided().contains(k));
            assert(!self.decided().contains(k)) by {
                if self.decided().contains(k) {
                    let (c, d) = choose|c: Label, d: Label|
                        #![trigger self.cell(c, d)]
                        self.valid(c) && self.valid(d) && c.category.0 <= d.category.0 && k == self.key(c, d)
                            && self.cell(c, d) != Cell::Empty;
                    self.lemma_key(a, b, c, d);
                }
            }
            assert(self.decided().subset_of(later.decided().remove(k)));
            vstd::set_lib::lemma_len_subset(self.decided(), later.decided().remove(k));
        }
    }
}

/// The initial content of stored position `(i, j)`: fixed within a
/// category, empty across categories.
spec fn initial(lpc: int, i: int, j: int) -> Cell {
    if i / lpc == j / lpc {
        if i == j {
            Cell::Yes
        } else {
            Cell::No
        }
    } else {
        Cell::Empty
    }
}

impl Grid {
    /// A grid for `puzzle` in which only the same-category pairs are decided.
    pub fn new(puzzle: &Puzzle) -> (r: Grid)
        requires
            puzzle.wf(),
        ensures
            r.wf(),
            r.ncat() == puzzle.ncat(),
            r.lpc() == puzzle.lpc(),
            r.history().len() == 0,
            forall|a: Label, b: Label|
                r.valid(a) && r.valid(b) && a.category != b.category ==> #[trigger] r.cell(a, b) == Cell::Empty,
    {
        let num_categories = puzzle.num_categories();
        let lpc = puzzle.labels_per_category();
        let n = num_categories * lpc;
        let mut cells: Vec<Vec<Cell>> = Vec::new();
        let mut i: usize = 0;
        while i < n
            invariant
                n == num_categories * lpc,
                i <= n,
                cells@.len() == i,
                forall|k: int| 0 <= k < i ==> (#[trigger] cells@[k])@.len() == n,
                forall|k: int, j: int|
                    0 <= k < i && 0 <= j < n ==> #[trigger] cells@[k]@[j] == initial(lpc as int, k, j),
            decreases n - i,
        {
            assert(lpc > 0) by (nonlinear_arith)
                requires
                    i < n,
                    n == num_categories * lpc,
            ;
            let mut row: Vec<Cell> = Vec::new();
            let mut j: usize = 0;
            while j < n
                invariant
                    lpc > 0,
                    i < n,
                    j <= n,
                    row@.len() == j,
                    forall|m: int| 0 <= m < j ==> #[trigger] row@[m] == initial(lpc as int, i as int, m),
                decreases n - j,
            {
                let v = if i / lpc == j / lpc {
                    if i == j {
                        Cell::Yes
                    } else {
                        Cell::No
                    }
                } else {
                    Cell::Empty
                };
                row.push(v);
                j = j + 1;
            }
            cells.push(row);
            i = i + 1;
        }
        let r = Grid { cells, num_categories, labels_per_category: lpc, steps: Vec::new() };
        proof {
            assert forall|a: Label, b: Label| r.valid(a) && r.valid(b) implies #[trigger] r.cell(a, b) == if a.category
                == b.category {
                if a.label == b.label {
                    Cell::Yes
                } else {
                    Cell::No
                }
            } else {
                Cell::Empty
            } by {
                r.lemma_idx(a);
                r.lemma_idx(b);
            }
        }
        r
    }

    pub fn num_categories(&self) -> (r: usize)
        ensures
            r == self.ncat(),
    {
        self.num_categories
    }

    pub fn labels_per_category(&self) -> (r: usize)
        ensures
            r == self.lpc(),
    {
        self.labels_per_category
    }

    /// The stored position of the pair `(label1, label2)`.
    fn indices(&self, label1: Label, label2: Label) -> (r: (usize, usize))
        requires
            self.wf(),
            self.valid(label1),
            self.valid(label2),
        ensures
            label1.category.0 <= label2.category.0 ==> r.0 as int == self.idx(label1) && r.1 as int == self.idx(
                label2,
            ),
            label1.category.0 > label2.category.0 ==> r.0 as int == self.idx(label2) && r.1 as int == self.idx(
                label1,
            ),
            r.0 < self.ncat() * self.lpc(),
            r.1 < self.ncat() * self.lpc(),
    {
        proof {
            self.lemma_idx(label1);
            self.lemma_idx(label2);
        }
        let i1 = self.labels_per_category * label1.category.0 + label1.label;
        let i2 = self.labels_per_category * label2.category.0 + label2.label;
        if label1.category.0 > label2.category.0 {
            (i2, i1)
        } else {
            (i1, i2)
        }
    }

    /// The cell of the pair `(label1, label2)`, in either order.
    pub fn at(&self, label1: Label, label2: Label) -> (r: &Cell)
        requires
            self.wf(),
            self.valid(label1),
            self.valid(label2),
        ensures
            *r == self.cell(label1, label2),
    {
        let (row, col) = self.indices(label1, label2);
        proof {
            assert(self.cells@[row as int]@.len() == self.ncat() * self.lpc());
        }
        &self.cells[row][col]
    }

    /// Writes `val` into an empty cell; reports whether the cell changed,
    /// or `None` when it already holds the other value.
    fn set_impl(&mut self, label1: Label, label2: Label, val: Cell) -> (r: Option<bool>)
        requires
            old(self).wf(),
            old(self).valid(label1),
            old(self).valid(label2),
            val != Cell::Empty,
        ensures
            final(self).wf(),
            r == old(self).outcome(label1, label2, val),
            old(self).written(*final(self), label1, label2, val, r == Some(true)),
            r == Some(true) ==> label1.category != label2.category,
            old(self).stepped(*final(self), r),
            r is None ==> old(self).same_cells(*final(self)),
            r != Some(true) ==> *final(self) == *old(self),
            final(self).steps == old(self).steps,
    {
        let c = *self.at(label1, label2);
        match c {
            Cell::Empty => {
                let (row, col) = self.indices(label1, label2);
                proof {
                    assert(self.cells@[row as int]@.len() == self.ncat() * self.lpc());
                    self.lemma_idx(label1);
                    self.lemma_idx(label2);
                }
                let ghost before = *self;
                self.cells[row][col] = val;
                proof {
                    assert(label1.category != label2.category);
                    assert forall|p: Label, q: Label| self.valid(p) && self.valid(q) implies #[trigger] self.cell(p, q)
                        == if same_pair(p, q, label1, label2) {
                        val
                    } else {
                        before.cell(p, q)
                    } by {
                        self.lemma_idx(p);
                        self.lemma_idx(q);
                        if before.idx(p) == before.idx(label1) {
                            before.lemma_key(p, q, label1, q);
                        }
                        if before.idx(p) == before.idx(label2) {
                            before.lemma_key(p, q, label2, q);
                        }
                        if before.idx(q) == before.idx(label1) {
                            before.lemma_key(p, q, p, label1);
                        }
                        if before.idx(q) == before.idx(label2) {
                            before.lemma_key(p, q, p, label2);
                        }
                    }
                    assert(self.cell(label1, label2) == val);
                    assert(before.cell(label1, label2) == Cell::Empty);
                    assert forall|a: Label, b: Label|
                        before.valid(a) && before.valid(b) && before.cell(a, b) != Cell::Empty implies #[trigger] self.cell(
                        a,
                        b,
                    ) == before.cell(a, b) by {
                        if same_pair(a, b, label1, label2) {
                            before.lemma_symmetric(label1, label2);
                        }
                    }
                    assert(self.shape_wf()) by {
                        assert forall|i: int| 0 <= i < self.cells@.len() implies (#[trigger] self.cells@[i])@.len()
                            == self.ncat() * self.lpc() by {
                            assert(before.cells@[i]@.len() == self.ncat() * self.lpc());
                        }
                    }
                }
                Some(true)
            },
            _ => {
                if val == c {
                    Some(false)
                } else {
                    None
                }
            },
        }
    }

    proof fn lemma_same_array(&self, other: Grid)
        requires
            other.wf(),
            self.cells == other.cells,
            self.num_categories == other.num_categories,
            self.labels_per_category == other.labels_per_category,
        ensures
            self.wf(),
            forall|a: Label, b: Label| #[trigger] self.cell(a, b) == other.cell(a, b),
    {
        assert forall|a: Label, b: Label| #[trigger] self.cell(a, b) == other.cell(a, b) by {
            assert(self.raw(self.idx(a), self.idx(b)) == other.raw(other.idx(a), other.idx(b)));
            assert(self.raw(self.idx(b), self.idx(a)) == other.raw(other.idx(b), other.idx(a)));
        }
    }

    /// Sets the cell `(label1, label2)` to `val`.
    /// Returns `None` if the cell already holds the other value, otherwise
    /// `Some(changed)`, where `changed` is true iff the cell was empty.
    pub fn set(&mut self, label1: Label, label2: Label, val: Cell) -> (r: Option<bool>)
        requires
            old(self).wf(),
            old(self).valid(label1),
            old(self).valid(label2),
            val != Cell::Empty,
        ensures
            final(self).wf(),
            r == old(self).outcome(label1, label2, val),
            old(self).written(*final(self), label1, label2, val, r == Some(true)),
            old(self).stepped(*final(self), r),
            r is None ==> old(self).same_cells(*final(self)),
            r == Some(true) ==> final(self).history().len() == old(self).history().len() + 1,
            r == Some(true) ==> final(self).history().drop_last() == old(self).history(),
            r == Some(true) ==> final(self).history().last().description@ == Seq::<char>::empty(),
            r == Some(true) ==> final(self).history().last().cell == Some((label1, label2, val)),
            r != Some(true) ==> final(self).history() == old(self).history(),
            r != Some(true) ==> *final(self) == *old(self),
    {
        let ghost pre = *self;
        match self.set_impl(label1, label2, val) {
            Some(true) => {
                let ghost mid = *self;
                self.steps.push(Step { description: String::new(), cell: Some((label1, label2, val)) });
                proof {
                    assert(self.history().drop_last() =~= mid.history());
                }
                proof {
                    self.lemma_same_array(mid);
                    assert(mid.stepped(*self, Some(false)));
                    pre.lemma_stepped_chain(mid, *self, true, Some(false));
                }
                Some(true)
            },
            res => res,
        }
    }

    /// `set`, and when the cell changed, records the description that
    /// `callback` gives.
    pub fn set_with_callback<CB: FnOnce() -> String>(
        &mut self,
        label1: Label,
        label2: Label,
        val: Cell,
        callback: CB,
    ) -> (r: Option<bool>)
        requires
            old(self).wf(),
            old(self).valid(label1),
            old(self).valid(label2),
            val != Cell::Empty,
            callback.requires(()),
        ensures
            final(self).wf(),
            r == old(self).outcome(label1, label2, val),
            old(self).written(*final(self), label1, label2, val, r == Some(true)),
            old(self).stepped(*final(self), r),
            r is None ==> old(self).same_cells(*final(self)),
            r == Some(true) ==> exists|d: String|
                callback.ensures((), d) && final(self).history() == old(self).history().push(
                    Step { description: d, cell: Some((label1, label2, val)) },
                ),
            r != Some(true) ==> final(self).history() == old(self).history(),
            r != Some(true) ==> *final(self) == *old(self),
    {
        let ghost pre = *self;
        match self.set_impl(label1, label2, val) {
            Some(true) => {
                let ghost mid = *self;
                let description = callback();
                let ghost d = description;
                self.steps.push(Step { description, cell: Some((label1, label2, val)) });
                proof {
                    assert(self.history() =~= pre.history().push(
                        Step { description: d, cell: Some((label1, label2, val)) },
                    ));
                }
                proof {
                    self.lemma_same_array(mid);
                    assert(mid.stepped(*self, Some(false)));
                    pre.lemma_stepped_chain(mid, *self, true, Some(false));
                }
                Some(true)
            },
            res => res,
        }
    }

    /// The recorded changes, in order, giving up the grid.
    pub fn into_steps(self) -> (r: Vec<Step>)
        ensures
            r@ == self.history(),
    {
        self.steps
    }

    /// Every category, in order.
    pub fn categories(&self) -> (r: Vec<Category>)
        ensures
            r@.len() == self.ncat(),
            forall|i: int| 0 <= i < r@.len() ==> (#[trigger] r@[i]).0 == i,
    {
        let mut r: Vec<Category> = Vec::new();
        let mut i: usize = 0;
        while i < self.num_categories
            invariant
                i <= self.num_categories,
                r@.len() == i,
                forall|j: int| 0 <= j < i ==> (#[trigger] r@[j]).0 == j,
            decreases self.num_categories - i,
        {
            r.push(Category(i));
            i = i + 1;
        }
        r
    }
}

/// Position `i` of the square belongs to label `i % lpc` of category `i / lpc`.
proof fn lemma_position(lpc: int, ncat: int, i: int)
    requires
        0 <= lpc,
        0 <= ncat,
        0 <= i < ncat * lpc,
    ensures
        lpc > 0,
        0 <= i / lpc < ncat,
        0 <= i % lpc < lpc,
        lpc * (i / lpc) + i % lpc == i,
{
    assert(lpc > 0) by (nonlinear_arith)
        requires
            0 <= lpc,
            0 <= ncat,
            0 <= i < ncat * lpc,
    ;
    vstd::arithmetic::div_mod::lemma_fundamental_div_mod(i, lpc);
    vstd::arithmetic::div_mod::lemma_mod_pos_bound(i, lpc);
    let q = i / lpc;
    let r = i % lpc;
    assert(0 <= q < ncat) by (nonlinear_arith)
        requires
            lpc * q + r == i,
            0 <= r < lpc,
            0 <= i < ncat * lpc,
    ;
}

/// `(i1, j1)` comes strictly before `(i2, j2)` in row-major order.
pub open spec fn before(i1: int, j1: int, i2: int, j2: int) -> bool {
    i1 < i2 || (i1 == i2 && j1 < j2)
}

impl Grid {
    /// Every label, in the order of their positions in the square.
    pub fn labels(&self) -> (r: Vec<Label>)
        requires
            self.wf(),
        ensures
            r@.len() == self.ncat() * self.lpc(),
            forall|i: int| 0 <= i < r@.len() ==> self.valid(#[trigger] r@[i]) && self.idx(r@[i]) == i,
            forall|a: Label| self.valid(a) ==> r@[#[trigger] self.idx(a)] == a,
    {
        let n = self.num_categories * self.labels_per_category;
        let mut r: Vec<Label> = Vec::new();
        let mut i: usize = 0;
        while i < n
            invariant
                self.wf(),
                n == self.ncat() * self.lpc(),
                i <= n,
                r@.len() == i,
                forall|k: int| 0 <= k < i ==> self.valid(#[trigger] r@[k]) && self.idx(r@[k]) == k,
            decreases n - i,
        {
            proof {
                lemma_position(self.lpc() as int, self.ncat() as int, i as int);
            }
            r.push(Label::new(Category(i / self.labels_per_category), i % self.labels_per_category));
            i = i + 1;
        }
        proof {
            assert forall|a: Label| self.valid(a) implies r@[#[trigger] self.idx(a)] == a by {
                self.lemma_idx(a);
                let b = r@[self.idx(a)];
                self.lemma_idx(b);
            }
        }
        r
    }

    /// Every pair of labels from two different categories, exactly once, with
    /// the label of the lower category first.
    pub fn cells(&self) -> (r: Vec<(Label, Label)>)
        requires
            self.wf(),
        ensures
            forall|k: int|
                0 <= k < r@.len() ==> self.valid((#[trigger] r@[k]).0) && self.valid(r@[k].1) && r@[k].0.category.0
                    < r@[k].1.category.0,
            forall|a: Label, b: Label|
                self.valid(a) && self.valid(b) && a.category.0 < b.category.0 ==> exists|k: int|
                    0 <= k < r@.len() && #[trigger] r@[k] == (a, b),
            forall|k1: int, k2: int| 0 <= k1 < k2 < r@.len() ==> #[trigger] r@[k1] != #[trigger] r@[k2],
            forall|k1: int, k2: int|
                0 <= k1 < k2 < r@.len() ==> before(
                    self.idx((#[trigger] r@[k1]).0),
                    self.idx(r@[k1].1),
                    self.idx((#[trigger] r@[k2]).0),
                    self.idx(r@[k2].1),
                ),
    {
        let labels = self.labels();
        let n = labels.len();
        let mut r: Vec<(Label, Label)> = Vec::new();
        let mut i1: usize = 0;
        while i1 < n
            invariant
                self.wf(),
                n == labels@.len() == self.ncat() * self.lpc(),
                forall|i: int| 0 <= i < labels@.len() ==> self.valid(#[trigger] labels@[i]) && self.idx(labels@[i]) == i,
                forall|a: Label| self.valid(a) ==> labels@[#[trigger] self.idx(a)] == a,
                i1 <= n,
                forall|k: int|
                    0 <= k < r@.len() ==> self.valid((#[trigger] r@[k]).0) && self.valid(r@[k].1) && r@[k].0.category.0
                        < r@[k].1.category.0 && before(self.idx(r@[k].0), self.idx(r@[k].1), i1 as int, 0),
                forall|a: Label, b: Label|
                    self.valid(a) && self.valid(b) && a.category.0 < b.category.0 && self.idx(a) < i1 ==> exists|k: int|
                        0 <= k < r@.len() && #[trigger] r@[k] == (a, b),
                forall|k1: int, k2: int| 0 <= k1 < k2 < r@.len() ==> #[trigger] r@[k1] != #[trigger] r@[k2],
                forall|k1: int, k2: int|
                    0 <= k1 < k2 < r@.len() ==> before(
                        self.idx((#[trigger] r@[k1]).0),
                        self.idx(r@[k1].1),
                        self.idx((#[trigger] r@[k2]).0),
                        self.idx(r@[k2].1),
                    ),
            decreases n - i1,
        {
            let mut i2: usize = 0;
            while i2 < n
                invariant
                    self.wf(),
                    n == labels@.len() == self.ncat() * self.lpc(),
                    forall|i: int| 0 <= i < labels@.len() ==> self.valid(#[trigger] labels@[i]) && self.idx(labels@[i]) == i,
                    forall|a: Label| self.valid(a) ==> labels@[#[trigger] self.idx(a)] == a,
                    i1 < n,
                    i2 <= n,
                    forall|k: int|
                        0 <= k < r@.len() ==> self.valid((#[trigger] r@[k]).0) && self.valid(r@[k].1)
                            && r@[k].0.category.0 < r@[k].1.category.0 && before(
                            self.idx(r@[k].0),
                            self.idx(r@[k].1),
                            i1 as int,
                            i2 as int,
                        ),
                    forall|a: Label, b: Label|
                        self.valid(a) && self.valid(b) && a.category.0 < b.category.0 && (self.idx(a) < i1 || (self.idx(a)
                            == i1 && self.idx(b) < i2)) ==> exists|k: int| 0 <= k < r@.len() && #[trigger] r@[k] == (a, b),
                    forall|k1: int, k2: int| 0 <= k1 < k2 < r@.len() ==> #[trigger] r@[k1] != #[trigger] r@[k2],
                    forall|k1: int, k2: int|
                        0 <= k1 < k2 < r@.len() ==> before(
                            self.idx((#[trigger] r@[k1]).0),
                            self.idx(r@[k1].1),
                            self.idx((#[trigger] r@[k2]).0),
                            self.idx(r@[k2].1),
                        ),
                decreases n - i2,
            {
                let a = labels[i1];
                let b = labels[i2];
                if a.category.0 < b.category.0 {
                    let ghost old_r = r@;
                    r.push((a, b));
                    proof {
                        assert(r@[old_r.len() as int] == (a, b));
                        assert forall|k1: int, k2: int| 0 <= k1 < k2 < r@.len() implies #[trigger] r@[k1]
                            != #[trigger] r@[k2] by {
                            if k2 == old_r.len() {
                                assert(old_r[k1] == r@[k1]);
                            } else {
                                assert(old_r[k1] == r@[k1] && old_r[k2] == r@[k2]);
                            }
                        }
                        assert forall|c: Label, d: Label|
                            self.valid(c) && self.valid(d) && c.category.0 < d.category.0 && (self.idx(c) < i1 || (
                            self.idx(c) == i1 && self.idx(d) < i2 + 1)) implies exists|k: int|
                            0 <= k < r@.len() && #[trigger] r@[k] == (c, d) by {
                            if self.idx(c) == i1 && self.idx(d) == i2 {
                                assert(r@[old_r.len() as int] == (c, d));
                            } else {
                                let k = choose|k: int| 0 <= k < old_r.len() && #[trigger] old_r[k] == (c, d);
                                assert(r@[k] == (c, d));
                            }
                        }
                    }
                } else {
                    proof {
                        assert forall|c: Label, d: Label|
                            self.valid(c) && self.valid(d) && c.category.0 < d.category.0 && (self.idx(c) < i1 || (
                            self.idx(c) == i1 && self.idx(d) < i2 + 1)) implies exists|k: int|
                            0 <= k < r@.len() && #[trigger] r@[k] == (c, d) by {
                            if self.idx(c) == i1 && self.idx(d) == i2 {
                                assert(labels@[self.idx(c)] == c);
                                assert(labels@[self.idx(d)] == d);
                            }
                        }
                    }
                }
                i2 = i2 + 1;
            }
            proof {
                assert forall|a: Label, b: Label|
                    self.valid(a) && self.valid(b) && a.category.0 < b.category.0 && self.idx(a) < i1 + 1 implies exists|
                    k: int|
                    0 <= k < r@.len() && #[trigger] r@[k] == (a, b) by {
                    self.lemma_idx(b);
                }
            }
            i1 = i1 + 1;
        }
        proof {
            assert forall|a: Label, b: Label|
                self.valid(a) && self.valid(b) && a.category.0 < b.category.0 implies exists|k: int|
                0 <= k < r@.len() && #[trigger] r@[k] == (a, b) by {
                self.lemma_idx(a);
            }
        }
        r
    }
}

} // verus!
