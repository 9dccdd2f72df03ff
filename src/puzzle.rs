//! Categories, labels and the puzzle they belong to: names in both
//! directions, the fixed number of labels per category, and the clues.
use crate::constraint::{Constraint, ConstraintKind, label_in_range};
use crate::names::{
    category_count, category_name, category_named, category_pairs, insert_category, insert_label,
    inserted_pair, label_name, label_named, label_pairs, new_category_table, new_label_table,
};
use bimap::BiHashMap;
use vstd::prelude::*;

verus! {

/// A category index in the puzzle.
#[derive(Debug, PartialEq, Eq, Copy, Clone, Hash, Structural)]
pub struct Category(pub usize);

/// A label in the puzzle in a specific category.
#[derive(Debug, PartialEq, Eq, Copy, Clone, Hash, Structural)]
pub struct Label {
    /// Category to which this label belongs.
    pub category: Category,
    /// Index of the label within `category`.
    pub label: usize,
}

impl Label {
    pub fn new(category: Category, label: usize) -> (r: Label)
        ensures
            r.category == category,
            r.label == label,
    {
        Label { category, label }
    }
}

/// Why a puzzle description was rejected.
#[derive(Debug)]
pub enum Error {
    /// A label name is used twice.
    InvalidLabelName { name: String },
    /// A category name is used twice.
    InvalidCategoryName { name: String },
    /// The puzzle text has no `[Categories]` line.
    MissingCategories,
    /// The puzzle text has no `[Clues]` line.
    MissingClues,
    /// A clue line could not be read.
    InvalidClue { clue: String },
    /// A category does not have as many labels as the first one.
    InvalidLabelCount { category: String, expected: usize, found: usize },
    /// No category has this name.
    CategoryNotFound { name: String },
    /// No label has this name.
    LabelNotFound { name: String },
}

/// The errors of building or reading a puzzle.
pub type PuzzleError = Error;

/// The puzzle to be solved.
pub struct Puzzle {
    /// Maps from the category index to the name of the category.
    category_map: BiHashMap<usize, String>,
    /// Maps from a label, as (category index, label index), to its name.
    label_map: BiHashMap<(usize, usize), String>,
    /// All the constraints which arise from the clues in the puzzle.
    constraints: Vec<Constraint>,
    /// The number of labels every category has.
    labels_per_category: usize,
}

/// The labels a new category brings: `(cat, i)` is named `names[i]`.
pub open spec fn with_new_labels(
    m: Map<(usize, usize), Seq<char>>,
    cat: usize,
    names: Seq<&str>,
    count: nat,
) -> Map<(usize, usize), Seq<char>> {
    Map::new(
        |p: (usize, usize)| m.contains_key(p) || (p.0 == cat && (p.1 as nat) < count),
        |p: (usize, usize)| if m.contains_key(p) { m[p] } else { names[p.1 as int]@ },
    )
}

/// Raising the bounds keeps a constraint in range.
pub proof fn lemma_in_range_grows(c: Constraint, n1: nat, l1: nat, n2: nat, l2: nat)
    requires
        c.in_range(n1, l1),
        n1 <= n2,
        l1 <= l2,
    ensures
        c.in_range(n2, l2),
{
    match c.kind {
        ConstraintKind::ExactlyOne(pairs) => {
            assert forall|i: int| 0 <= i < pairs@.len() implies label_in_range(
                (#[trigger] pairs@[i]).0,
                n2,
                l2,
            ) && label_in_range(pairs@[i].1, n2, l2) by {
                assert(label_in_range(pairs@[i].0, n1, l1));
            }
        },
        _ => {},
    }
}

impl Puzzle {
    /// Category index to category name.
    pub closed spec fn category_names(&self) -> Map<usize, Seq<char>> {
        category_pairs(self.category_map)
    }

    /// (category index, label index) to label name.
    pub closed spec fn label_names(&self) -> Map<(usize, usize), Seq<char>> {
        label_pairs(self.label_map)
    }

    /// Number of categories.
    pub closed spec fn ncat(&self) -> nat {
        self.category_names().len()
    }

    /// Number of labels in each category.
    pub closed spec fn lpc(&self) -> nat {
        self.labels_per_category as nat
    }

    /// The constraints, in the order they were added.
    pub closed spec fn clues(&self) -> Seq<Constraint> {
        self.constraints@
    }

    pub open spec fn category_taken(&self, name: Seq<char>) -> bool {
        exists|c: usize| #[trigger] self.category_names().contains_key(c) && self.category_names()[c] == name
    }

    pub open spec fn label_taken(&self, name: Seq<char>) -> bool {
        exists|p: (usize, usize)| #[trigger] self.label_names().contains_key(p) && self.label_names()[p] == name
    }

    /// Both tables are bijections between the index ranges and their names.
    pub open spec fn tables_wf(&self) -> bool {
        &&& self.category_names().dom().finite()
        &&& forall|c: usize| #[trigger] self.category_names().contains_key(c) <==> (c as nat) < self.ncat()
        &&& forall|c1: usize, c2: usize|
            #[trigger] self.category_names().contains_key(c1) && #[trigger] self.category_names().contains_key(c2)
                && c1 != c2 ==> self.category_names()[c1] != self.category_names()[c2]
        &&& forall|p: (usize, usize)| #[trigger]
            self.label_names().contains_key(p) <==> ((p.0 as nat) < self.ncat() && (p.1 as nat) < self.lpc())
        &&& forall|p1: (usize, usize), p2: (usize, usize)|
            #[trigger] self.label_names().contains_key(p1) && #[trigger] self.label_names().contains_key(p2)
                && p1 != p2 ==> self.label_names()[p1] != self.label_names()[p2]
        &&& self.ncat() == 0 ==> self.lpc() == 0
    }

    /// Well-formed: the tables agree with the counts, the grid of all label
    /// pairs can be indexed, and every clue stays within the puzzle.
    pub open spec fn wf(&self) -> bool {
        &&& self.tables_wf()
        &&& self.ncat() * self.lpc() <= usize::MAX
        &&& forall|i: int| 0 <= i < self.clues().len() ==> #[trigger] self.clues()[i].in_range(self.ncat(), self.lpc())
    }

    /// A new puzzle with no categories and no clues.
    pub fn new() -> (r: Puzzle)
        ensures
            r.wf(),
            r.ncat() == 0,
            r.lpc() == 0,
            r.clues().len() == 0,
    {
        let r = Puzzle {
            category_map: new_category_table(),
            label_map: new_label_table(),
            constraints: Vec::new(),
            labels_per_category: 0,
        };
        proof {
            assert(r.category_names().dom() =~= Set::empty());
            assert(r.label_names().dom() =~= Set::empty());
        }
        r
    }

    /// The first label of `names` whose name is taken by an earlier label of
    /// the puzzle or of `names`.
    pub open spec fn clashes(&self, names: Seq<&str>, i: int) -> bool {
        self.label_taken(names[i]@) || exists|j: int| 0 <= j < i && names[j]@ == names[i]@
    }

    /// Adds a category named `cat_name` whose labels, in order, are
    /// `label_names`.
    pub fn add_category(&mut self, cat_name: &str, label_names: &[&str]) -> (r: Result<Category, Error>)
        requires
            old(self).wf(),
            (old(self).ncat() + 1) * label_names@.len() <= usize::MAX,
        ensures
            final(self).wf(),
            ({
                let count_ok = old(self).ncat() == 0 || label_names@.len() == old(self).lpc();
                let names_ok = forall|i: int| 0 <= i < label_names@.len() ==> !old(self).clashes(label_names@, i);
                match r {
                    Err(Error::InvalidLabelCount { category, expected, found }) => {
                        &&& !count_ok
                        &&& category@ == cat_name@
                        &&& expected == old(self).lpc()
                        &&& found == label_names@.len()
                    },
                    Err(Error::InvalidLabelName { name }) => {
                        &&& count_ok
                        &&& exists|i: int| {
                            &&& 0 <= i < label_names@.len()
                            &&& old(self).clashes(label_names@, i)
                            &&& forall|j: int| 0 <= j < i ==> !old(self).clashes(label_names@, j)
                            &&& name@ == label_names@[i]@
                        }
                    },
                    Err(Error::InvalidCategoryName { name }) => {
                        &&& count_ok
                        &&& names_ok
                        &&& old(self).category_taken(cat_name@)
                        &&& name@ == cat_name@
                    },
                    Err(_) => false,
                    Ok(c) => {
                        &&& count_ok
                        &&& names_ok
                        &&& !old(self).category_taken(cat_name@)
                        &&& c.0 == old(self).ncat()
                        &&& final(self).ncat() == old(self).ncat() + 1
                        &&& final(self).lpc() == label_names@.len()
                        &&& final(self).category_names() == old(self).category_names().insert(c.0, cat_name@)
                        &&& final(self).label_names() == with_new_labels(
                            old(self).label_names(),
                            c.0,
                            label_names@,
                            label_names@.len(),
                        )
                        &&& final(self).clues() == old(self).clues()
                    },
                }
            }),
            r is Err ==> *final(self) == *old(self),
    {
        let ncat = category_count(&self.category_map);
        if ncat != 0 && label_names.len() != self.labels_per_category {
            return Err(
                Error::InvalidLabelCount {
                    category: cat_name.to_owned(),
                    expected: self.labels_per_category,
                    found: label_names.len(),
                },
            );
        }
        let mut owned: Vec<String> = Vec::new();
        let mut i: usize = 0;
        while i < label_names.len()
            invariant
                0 <= i <= label_names@.len(),
                owned@.len() == i,
                forall|j: int| 0 <= j < i ==> (#[trigger] owned@[j])@ == label_names@[j]@,
                forall|j: int| 0 <= j < i ==> !self.clashes(label_names@, j),
                self.wf(),
                *self == *old(self),
                ncat as nat == self.ncat(),
                ncat == 0 || label_names@.len() == self.lpc(),
            decreases label_names@.len() - i,
        {
            let name = label_names[i].to_owned();
            match label_named(&self.label_map, label_names[i]) {
                Some(p) => {
                    assert(self.label_names().contains_key(p));
                    assert(self.label_taken(label_names@[i as int]@));
                    assert(self.clashes(label_names@, i as int));
                    return Err(Error::InvalidLabelName { name });
                },
                None => {},
            }
            let mut j: usize = 0;
            while j < i
                invariant
                    0 <= j <= i < label_names@.len(),
                    owned@.len() == i,
                    forall|k: int| 0 <= k < i ==> (#[trigger] owned@[k])@ == label_names@[k]@,
                    forall|k: int| 0 <= k < j ==> label_names@[k]@ != label_names@[i as int]@,
                    name@ == label_names@[i as int]@,
                    !self.label_taken(name@),
                    forall|k: int| 0 <= k < i ==> !self.clashes(label_names@, k),
                    self.wf(),
                    *self == *old(self),
                    ncat as nat == self.ncat(),
                    ncat == 0 || label_names@.len() == self.lpc(),
                decreases i - j,
            {
                if owned[j] == name {
                    assert(self.clashes(label_names@, i as int));
                    return Err(Error::InvalidLabelName { name });
                }
                j = j + 1;
            }
            assert(!self.clashes(label_names@, i as int));
            owned.push(name);
            i = i + 1;
        }
        if category_named(&self.category_map, cat_name).is_some() {
            return Err(Error::InvalidCategoryName { name: cat_name.to_owned() });
        }
        let ghost old_labels = self.label_names();
        let ghost old_cats = self.category_names();
        let ghost old_self = *self;
        let mut k: usize = 0;
        while k < owned.len()
            invariant
                0 <= k <= owned@.len() == label_names@.len(),
                forall|j: int| 0 <= j < owned@.len() ==> (#[trigger] owned@[j])@ == label_names@[j]@,
                forall|j: int| 0 <= j < label_names@.len() ==> !old_self.clashes(label_names@, j),
                old_self.tables_wf(),
                old_labels == old_self.label_names(),
                ncat as nat == old_self.ncat(),
                self.label_names() == with_new_labels(old_labels, ncat, label_names@, k as nat),
                self.category_map == old_self.category_map,
                self.constraints == old_self.constraints,
                self.labels_per_category == old_self.labels_per_category,
            decreases owned@.len() - k,
        {
            proof {
                let cur = with_new_labels(old_labels, ncat, label_names@, k as nat);
                let next = with_new_labels(old_labels, ncat, label_names@, (k + 1) as nat);
                assert(!old_self.clashes(label_names@, k as int));
                assert forall|p: (usize, usize)| cur.contains_key(p) implies cur[p] != label_names@[k as int]@ by {
                    if old_labels.contains_key(p) {
                    } else {
                        assert(label_names@[p.1 as int]@ != label_names@[k as int]@);
                    }
                }
                assert(inserted_pair(cur, (ncat, k), label_names@[k as int]@) =~= next);
            }
            insert_label(&mut self.label_map, (ncat, k), owned[k].clone());
            k = k + 1;
        }
        proof {
            assert(inserted_pair(old_cats, ncat, cat_name@) =~= old_cats.insert(ncat, cat_name@));
        }
        insert_category(&mut self.category_map, ncat, cat_name.to_owned());
        if ncat == 0 {
            self.labels_per_category = label_names.len();
        }
        proof {
            let new_labels = self.label_names();
            assert(self.category_names().dom() =~= old_cats.dom().insert(ncat));
            assert forall|c1: usize, c2: usize|
                #[trigger] self.category_names().contains_key(c1) && #[trigger] self.category_names().contains_key(c2)
                    && c1 != c2 implies self.category_names()[c1] != self.category_names()[c2] by {
                if c1 != ncat && c2 != ncat {
                    assert(old_cats.contains_key(c1) && old_cats.contains_key(c2));
                }
            }
            assert forall|p1: (usize, usize), p2: (usize, usize)|
                #[trigger] new_labels.contains_key(p1) && #[trigger] new_labels.contains_key(p2)
                    && p1 != p2 implies new_labels[p1] != new_labels[p2] by {
                if old_labels.contains_key(p1) && old_labels.contains_key(p2) {
                } else if old_labels.contains_key(p1) {
                    assert(!old_self.clashes(label_names@, p2.1 as int));
                } else if old_labels.contains_key(p2) {
                    assert(!old_self.clashes(label_names@, p1.1 as int));
                } else if p1.1 < p2.1 {
                    assert(!old_self.clashes(label_names@, p2.1 as int));
                } else {
                    assert(!old_self.clashes(label_names@, p1.1 as int));
                }
            }
            assert forall|p: (usize, usize)| #[trigger] new_labels.contains_key(p) <==> ((p.0 as nat) < self.ncat()
                && (p.1 as nat) < self.lpc()) by {
                if old_labels.contains_key(p) {
                }
            }
            assert(!old_cats.dom().contains(ncat));
            assert(self.ncat() == old_self.ncat() + 1);
            assert forall|i: int| 0 <= i < self.clues().len() implies #[trigger] self.clues()[i].in_range(
                self.ncat(),
                self.lpc(),
            ) by {
                assert(old_self.clues()[i].in_range(old_self.ncat(), old_self.lpc()));
                lemma_in_range_grows(self.clues()[i], old_self.ncat(), old_self.lpc(), self.ncat(), self.lpc());
            }
        }
        Ok(Category(ncat))
    }

    /// The name of a category.
    pub fn lookup_category(&self, category: Category) -> (r: &str)
        requires
            self.wf(),
            (category.0 as nat) < self.ncat(),
        ensures
            r@ == self.category_names()[category.0],
    {
        category_name(&self.category_map, category.0).unwrap().as_str()
    }

    /// The category with the given name.
    pub fn category(&self, name: &str) -> (r: Result<Category, Error>)
        requires
            self.wf(),
        ensures
            match r {
                Ok(c) => self.category_names().contains_key(c.0) && self.category_names()[c.0] == name@,
                Err(Error::CategoryNotFound { name: n }) => n@ == name@ && !self.category_taken(name@),
                Err(_) => false,
            },
    {
        match category_named(&self.category_map, name) {
            Some(c) => Ok(Category(c)),
            None => Err(Error::CategoryNotFound { name: name.to_owned() }),
        }
    }

    /// The name of a label.
    pub fn lookup_label(&self, label: Label) -> (r: &str)
        requires
            self.wf(),
            label_in_range(label, self.ncat(), self.lpc()),
        ensures
            r@ == self.label_names()[(label.category.0, label.label)],
    {
        label_name(&self.label_map, (label.category.0, label.label)).unwrap().as_str()
    }

    /// The label with the given name.
    pub fn label(&self, name: &str) -> (r: Result<Label, Error>)
        requires
            self.wf(),
        ensures
            match r {
                Ok(l) => self.label_names().contains_key((l.category.0, l.label))
                    && self.label_names()[(l.category.0, l.label)] == name@,
                Err(Error::LabelNotFound { name: n }) => n@ == name@ && !self.label_taken(name@),
                Err(_) => false,
            },
    {
        match label_named(&self.label_map, name) {
            Some(p) => Ok(Label { category: Category(p.0), label: p.1 }),
            None => Err(Error::LabelNotFound { name: name.to_owned() }),
        }
    }

    /// Whether `constraint` names only labels and categories of this puzzle.
    pub fn constraint_in_range(&self, constraint: &Constraint) -> (r: bool)
        requires
            self.wf(),
        ensures
            r == constraint.in_range(self.ncat(), self.lpc()),
    {
        let n = category_count(&self.category_map);
        constraint.kind.within(n, self.labels_per_category)
    }

    /// Appends a clue.
    pub fn add_constraint(&mut self, constraint: Constraint)
        requires
            old(self).wf(),
            constraint.in_range(old(self).ncat(), old(self).lpc()),
        ensures
            final(self).wf(),
            final(self).clues() == old(self).clues().push(constraint),
            final(self).ncat() == old(self).ncat(),
            final(self).lpc() == old(self).lpc(),
            final(self).category_names() == old(self).category_names(),
            final(self).label_names() == old(self).label_names(),
    {
        self.constraints.push(constraint);
        proof {
            assert(self.label_names() == old(self).label_names());
            assert(self.category_names() == old(self).category_names());
            assert forall|i: int| 0 <= i < self.clues().len() implies #[trigger] self.clues()[i].in_range(
                self.ncat(),
                self.lpc(),
            ) by {
                if i < old(self).clues().len() {
                    assert(self.clues()[i] == old(self).clues()[i]);
                } else {
                    assert(self.clues()[i] == constraint);
                }
            }
        }
    }

    pub fn num_categories(&self) -> (r: usize)
        requires
            self.wf(),
        ensures
            r == self.ncat(),
    {
        category_count(&self.category_map)
    }

    /// Every category, in order.
    pub fn categories(&self) -> (r: Vec<Category>)
        requires
            self.wf(),
        ensures
            r@.len() == self.ncat(),
            forall|i: int| 0 <= i < r@.len() ==> (#[trigger] r@[i]).0 == i,
    {
        let n = category_count(&self.category_map);
        let mut r: Vec<Category> = Vec::new();
        let mut i: usize = 0;
        while i < n
            invariant
                i <= n,
                r@.len() == i,
                forall|j: int| 0 <= j < i ==> (#[trigger] r@[j]).0 == j,
            decreases n - i,
        {
            r.push(Category(i));
            i = i + 1;
        }
        r
    }

    pub fn labels_per_category(&self) -> (r: usize)
        ensures
            r == self.lpc(),
    {
        self.labels_per_category
    }

    pub fn constraints(&self) -> (r: &[Constraint])
        ensures
            r@ == self.clues(),
    {
        self.constraints.as_slice()
    }
}

} // verus!
