//! Decoding one clue of a puzzle description, already split into its
//! comma-separated fields, into a constraint over the puzzle's labels.
use crate::constraint::{Constraint, ConstraintKind};
use crate::puzzle::{Category, Error, Label, Puzzle};
use vstd::prelude::*;

verus! {

/// `s` is a decimal numeral as `usize::from_str` reads it: an optional `+`
/// and at least one digit.
pub open spec fn is_numeral(s: Seq<char>) -> bool {
    let d = if s.len() > 0 && s[0] == '+' {
        s.drop_first()
    } else {
        s
    };
    d.len() > 0 && forall|i: int| 0 <= i < d.len() ==> '0' <= #[trigger] d[i] <= '9'
}

/// The value of the digits `d`.
pub open spec fn digits_value(d: Seq<char>) -> nat
    decreases d.len(),
{
    if d.len() == 0 {
        0
    } else {
        digits_value(d.drop_last()) * 10 + (d.last() as nat - '0' as nat) as nat
    }
}

/// The value of a numeral.
pub open spec fn numeral_value(s: Seq<char>) -> nat {
    if s.len() > 0 && s[0] == '+' {
        digits_value(s.drop_first())
    } else {
        digits_value(s)
    }
}

/// Relies on `<usize as FromStr>::from_str`: a numeral whose value fits.
#[verifier::external_body]
fn parse_count(s: &str) -> (r: Option<usize>)
    ensures
        match r {
            Some(n) => is_numeral(s@) && n == numeral_value(s@),
            None => !is_numeral(s@) || numeral_value(s@) > usize::MAX,
        },
{
    s.parse::<usize>().ok()
}

/// The clue keywords are told apart by length, first and last character.
proof fn lemma_keywords()
    ensures
        "yes"@.len() == 3 && "yes"@[0] == 'y',
        "no"@.len() == 2 && "no"@[0] == 'n',
        "after"@.len() == 5,
        "afteratleast"@.len() == 12 && "afteratleast"@[11] == 't',
        "afterexactly"@.len() == 12 && "afterexactly"@[11] == 'y',
        "or"@.len() == 2 && "or"@[0] == 'o',
        "xor"@.len() == 3 && "xor"@[0] == 'x',
        "twobytwo"@.len() == 8,
        "exactlyone"@.len() == 10,
{
    reveal_strlit("yes");
    reveal_strlit("no");
    reveal_strlit("after");
    reveal_strlit("afteratleast");
    reveal_strlit("afterexactly");
    reveal_strlit("or");
    reveal_strlit("xor");
    reveal_strlit("twobytwo");
    reveal_strlit("exactlyone");
}

impl Puzzle {
    /// Field `i` of `parts` names the label `l`.
    pub open spec fn names_label_at(&self, parts: Seq<&str>, i: int, l: Label) -> bool {
        &&& self.label_names().contains_key((l.category.0, l.label))
        &&& self.label_names()[(l.category.0, l.label)] == parts[i]@
    }

    /// Field `i` of `parts` names the category `c`.
    pub open spec fn names_category_at(&self, parts: Seq<&str>, i: int, c: Category) -> bool {
        &&& self.category_names().contains_key(c.0)
        &&& self.category_names()[c.0] == parts[i]@
    }

    /// The number of fields a clue of kind `k` needs, kind included.
    pub open spec fn arity(k: Seq<char>) -> nat {
        if k == "yes"@ || k == "no"@ {
            3
        } else if k == "after"@ || k == "or"@ || k == "xor"@ {
            4
        } else if k == "afteratleast"@ || k == "afterexactly"@ || k == "twobytwo"@ || k == "exactlyone"@ {
            5
        } else {
            0
        }
    }

    /// The kind is known, enough fields are given, and a distance is a
    /// numeral smaller than the number of labels per category.
    pub open spec fn well_shaped(&self, parts: Seq<&str>) -> bool {
        &&& parts.len() >= 2
        &&& Self::arity(parts[0]@) > 0
        &&& parts.len() >= Self::arity(parts[0]@)
        &&& parts[0]@ == "exactlyone"@ ==> parts.len() % 2 == 1
        &&& (parts[0]@ == "afteratleast"@ || parts[0]@ == "afterexactly"@) ==> is_numeral(parts[4]@) && numeral_value(
            parts[4]@,
        ) < self.lpc()
    }

    /// Field `i` holds the category of an ordering clue.
    pub open spec fn category_field(parts: Seq<&str>, i: int) -> bool {
        i == 2 && (parts[0]@ == "after"@ || parts[0]@ == "afteratleast"@ || parts[0]@ == "afterexactly"@)
    }

    /// Field `i` holds a label.
    pub open spec fn label_field(parts: Seq<&str>, i: int) -> bool {
        &&& 1 <= i
        &&& if parts[0]@ == "exactlyone"@ {
            i < parts.len()
        } else {
            i < Self::arity(parts[0]@) && !Self::category_field(parts, i) && !(i == 4 && (parts[0]@
                == "afteratleast"@ || parts[0]@ == "afterexactly"@))
        }
    }

    /// Every label field and category field names one of the puzzle.
    pub open spec fn names_known(&self, parts: Seq<&str>) -> bool {
        &&& forall|i: int| #[trigger] Self::label_field(parts, i) ==> self.label_taken(parts[i]@)
        &&& Self::category_field(parts, 2) ==> self.category_taken(parts[2]@)
    }

    /// `kind` is what the fields `parts` say.
    pub open spec fn decodes(&self, parts: Seq<&str>, kind: ConstraintKind) -> bool {
        let k = parts[0]@;
        match kind {
            ConstraintKind::Yes(x, y) => k == "yes"@ && self.names_label_at(parts, 1, x) && self.names_label_at(
                parts,
                2,
                y,
            ),
            ConstraintKind::No(x, y) => k == "no"@ && self.names_label_at(parts, 1, x) && self.names_label_at(
                parts,
                2,
                y,
            ),
            ConstraintKind::After(x, c, y) => k == "after"@ && self.names_label_at(parts, 1, x)
                && self.names_category_at(parts, 2, c) && self.names_label_at(parts, 3, y),
            ConstraintKind::AfterAtLeast(x, c, y, n) => k == "afteratleast"@ && self.names_label_at(parts, 1, x)
                && self.names_category_at(parts, 2, c) && self.names_label_at(parts, 3, y) && n == numeral_value(
                parts[4]@,
            ),
            ConstraintKind::AfterExactly(x, c, y, n) => k == "afterexactly"@ && self.names_label_at(parts, 1, x)
                && self.names_category_at(parts, 2, c) && self.names_label_at(parts, 3, y) && n == numeral_value(
                parts[4]@,
            ),
            ConstraintKind::Or(x, y, z) => k == "or"@ && self.names_label_at(parts, 1, x) && self.names_label_at(
                parts,
                2,
                y,
            ) && self.names_label_at(parts, 3, z),
            ConstraintKind::Xor(x, y, z) => k == "xor"@ && self.names_label_at(parts, 1, x) && self.names_label_at(
                parts,
                2,
                y,
            ) && self.names_label_at(parts, 3, z),
            ConstraintKind::TwoByTwo(x1, x2, y1, y2) => k == "twobytwo"@ && self.names_label_at(parts, 1, x1)
                && self.names_label_at(parts, 2, x2) && self.names_label_at(parts, 3, y1) && self.names_label_at(
                parts,
                4,
                y2,
            ),
            ConstraintKind::ExactlyOne(pairs) => {
                &&& k == "exactlyone"@
                &&& pairs@.len() == parts.len() / 2
                &&& forall|i: int|
                    0 <= i < pairs@.len() ==> self.names_label_at(parts, 2 * i + 1, (#[trigger] pairs@[i]).0)
                        && self.names_label_at(parts, 2 * i + 2, pairs@[i].1)
            },
            ConstraintKind::Distance(..) => false,
        }
    }

    fn find_label(&self, parts: &[&str], i: usize) -> (r: Result<Label, Error>)
        requires
            self.wf(),
            i < parts@.len(),
        ensures
            match r {
                Ok(l) => self.names_label_at(parts@, i as int, l),
                Err(Error::LabelNotFound { name }) => name@ == parts@[i as int]@ && !self.label_taken(
                    parts@[i as int]@,
                ),
                Err(_) => false,
            },
    {
        self.label(parts[i])
    }

    /// Reads a clue given as its fields: the kind (`yes`, `no`, `after`,
    /// `afteratleast`, `afterexactly`, `or`, `xor`, `twobytwo` or
    /// `exactlyone`) followed by label names, a category name for the
    /// ordering kinds, and a distance for `afteratleast` and `afterexactly`.
    /// `name` names the constraint; `line` is quoted in an error.
    pub fn clue(&self, name: &str, parts: &[&str], line: &str) -> (r: Result<Constraint, Error>)
        requires
            self.wf(),
        ensures
            match r {
                Ok(c) => {
                    &&& self.well_shaped(parts@)
                    &&& c.name@ == name@
                    &&& self.decodes(parts@, c.kind)
                    &&& c.in_range(self.ncat(), self.lpc())
                },
                Err(Error::InvalidClue { clue }) => clue@ == line@ && !self.well_shaped(parts@),
                Err(Error::LabelNotFound { name: n }) => {
                    &&& self.well_shaped(parts@)
                    &&& exists|i: int| #[trigger]
                        Self::label_field(parts@, i) && !self.label_taken(parts@[i]@) && n@ == parts@[i]@
                },
                Err(Error::CategoryNotFound { name: n }) => {
                    &&& self.well_shaped(parts@)
                    &&& Self::category_field(parts@, 2)
                    &&& !self.category_taken(parts@[2]@)
                    &&& n@ == parts@[2]@
                },
                Err(_) => false,
            },
            self.well_shaped(parts@) && self.names_known(parts@) ==> r is Ok,
    {
        proof {
            lemma_keywords();
        }
        if parts.len() < 2 {
            return Err(Error::InvalidClue { clue: line.to_owned() });
        }
        let k = parts[0].to_owned();
        let kind = if k == "yes".to_owned() || k == "no".to_owned() {
            if parts.len() < 3 {
                return Err(Error::InvalidClue { clue: line.to_owned() });
            }
            let x = match self.find_label(parts, 1) {
                Ok(l) => l,
                Err(e) => {
                    assert(Self::label_field(parts@, 1));
                    return Err(e);
                },
            };
            let y = match self.find_label(parts, 2) {
                Ok(l) => l,
                Err(e) => {
                    assert(Self::label_field(parts@, 2));
                    return Err(e);
                },
            };
            if k == "yes".to_owned() {
                ConstraintKind::Yes(x, y)
            } else {
                ConstraintKind::No(x, y)
            }
        } else if k == "after".to_owned() || k == "afteratleast".to_owned() || k == "afterexactly".to_owned() {
            let needed: usize = if k == "after".to_owned() {
                4
            } else {
                5
            };
            if parts.len() < needed {
                return Err(Error::InvalidClue { clue: line.to_owned() });
            }
            let mut n: usize = 1;
            let lpc = self.labels_per_category();
            if needed == 5 {
                match parse_count(parts[4]) {
                    Some(v) => {
                        if v >= self.labels_per_category() {
                            assert(parts@[0]@ == "afteratleast"@ || parts@[0]@ == "afterexactly"@);
                            assert(numeral_value(parts@[4]@) >= self.lpc());
                            return Err(Error::InvalidClue { clue: line.to_owned() });
                        }
                        n = v;
                    },
                    None => {
                        assert(parts@[0]@ == "afteratleast"@ || parts@[0]@ == "afterexactly"@);
                        assert(self.lpc() == lpc as nat);
                        return Err(Error::InvalidClue { clue: line.to_owned() });
                    },
                }
            }
            let x = match self.find_label(parts, 1) {
                Ok(l) => l,
                Err(e) => {
                    assert(Self::label_field(parts@, 1));
                    return Err(e);
                },
            };
            let c = match self.category(parts[2]) {
                Ok(c) => c,
                Err(e) => return Err(e),
            };
            let y = match self.find_label(parts, 3) {
                Ok(l) => l,
                Err(e) => {
                    assert(Self::label_field(parts@, 3));
                    return Err(e);
                },
            };
            if needed == 4 {
                ConstraintKind::After(x, c, y)
            } else if k == "afteratleast".to_owned() {
                ConstraintKind::AfterAtLeast(x, c, y, n)
            } else {
                ConstraintKind::AfterExactly(x, c, y, n)
            }
        } else if k == "or".to_owned() || k == "xor".to_owned() {
            if parts.len() < 4 {
                return Err(Error::InvalidClue { clue: line.to_owned() });
            }
            let x = match self.find_label(parts, 1) {
                Ok(l) => l,
                Err(e) => {
                    assert(Self::label_field(parts@, 1));
                    return Err(e);
                },
            };
            let y = match self.find_label(parts, 2) {
                Ok(l) => l,
                Err(e) => {
                    assert(Self::label_field(parts@, 2));
                    return Err(e);
                },
            };
            let z = match self.find_label(parts, 3) {
                Ok(l) => l,
                Err(e) => {
                    assert(Self::label_field(parts@, 3));
                    return Err(e);
                },
            };
            if k == "or".to_owned() {
                ConstraintKind::Or(x, y, z)
            } else {
                ConstraintKind::Xor(x, y, z)
            }
        } else if k == "twobytwo".to_owned() {
            if parts.len() < 5 {
                return Err(Error::InvalidClue { clue: line.to_owned() });
            }
            let x1 = match self.find_label(parts, 1) {
                Ok(l) => l,
                Err(e) => {
                    assert(Self::label_field(parts@, 1));
                    return Err(e);
                },
            };
            let x2 = match self.find_label(parts, 2) {
                Ok(l) => l,
                Err(e) => {
                    assert(Self::label_field(parts@, 2));
                    return Err(e);
                },
            };
            let y1 = match self.find_label(parts, 3) {
                Ok(l) => l,
                Err(e) => {
                    assert(Self::label_field(parts@, 3));
                    return Err(e);
                },
            };
            let y2 = match self.find_label(parts, 4) {
                Ok(l) => l,
                Err(e) => {
                    assert(Self::label_field(parts@, 4));
                    return Err(e);
                },
            };
            ConstraintKind::TwoByTwo(x1, x2, y1, y2)
        } else if k == "exactlyone".to_owned() {
            if parts.len() < 5 || parts.len() % 2 != 1 {
                return Err(Error::InvalidClue { clue: line.to_owned() });
            }
            let mut pairs: Vec<(Label, Label)> = Vec::new();
            let mut i: usize = 0;
            while i < parts.len() / 2
                invariant
                    self.wf(),
                    parts@.len() >= 5,
                    parts@.len() % 2 == 1,
                    parts@[0]@ == "exactlyone"@,
                    self.well_shaped(parts@),
                    i <= parts@.len() / 2,
                    pairs@.len() == i,
                    forall|j: int|
                        0 <= j < i ==> self.names_label_at(parts@, 2 * j + 1, (#[trigger] pairs@[j]).0)
                            && self.names_label_at(parts@, 2 * j + 2, pairs@[j].1),
                decreases parts@.len() / 2 - i,
            {
                let a = match self.find_label(parts, i * 2 + 1) {
                    Ok(l) => l,
                    Err(e) => {
                        assert(Self::label_field(parts@, 2 * i + 1));
                        return Err(e);
                    },
                };
                let b = match self.find_label(parts, i * 2 + 2) {
                    Ok(l) => l,
                    Err(e) => {
                        assert(Self::label_field(parts@, 2 * i + 2));
                        return Err(e);
                    },
                };
                pairs.push((a, b));
                i = i + 1;
            }
            ConstraintKind::ExactlyOne(pairs)
        } else {
            return Err(Error::InvalidClue { clue: line.to_owned() });
        };
        let c = Constraint { kind, name: name.to_owned() };
        proof {
            lemma_decoded_in_range(self, parts@, c);
        }
        Ok(c)
    }
}

/// A decoded clue names only labels and categories of the puzzle.
proof fn lemma_decoded_in_range(p: &Puzzle, parts: Seq<&str>, c: Constraint)
    requires
        p.wf(),
        p.decodes(parts, c.kind),
    ensures
        c.in_range(p.ncat(), p.lpc()),
{
    match c.kind {
        ConstraintKind::ExactlyOne(pairs) => {
            assert forall|i: int| 0 <= i < pairs@.len() implies crate::constraint::label_in_range(
                (#[trigger] pairs@[i]).0,
                p.ncat(),
                p.lpc(),
            ) && crate::constraint::label_in_range(pairs@[i].1, p.ncat(), p.lpc()) by {
                assert(p.names_label_at(parts, 2 * i + 1, pairs@[i].0));
                assert(p.label_names().contains_key((pairs@[i].0.category.0, pairs@[i].0.label)));
                assert(p.label_names().contains_key((pairs@[i].1.category.0, pairs@[i].1.label)));
            }
        },
        ConstraintKind::Yes(x, y) => {
            assert(p.label_names().contains_key((x.category.0, x.label)));
            assert(p.label_names().contains_key((y.category.0, y.label)));
        },
        ConstraintKind::No(x, y) => {
            assert(p.label_names().contains_key((x.category.0, x.label)));
            assert(p.label_names().contains_key((y.category.0, y.label)));
        },
        ConstraintKind::After(x, c, y) | ConstraintKind::AfterAtLeast(x, c, y, _) | ConstraintKind::AfterExactly(
            x,
            c,
            y,
            _,
        ) => {
            assert(p.label_names().contains_key((x.category.0, x.label)));
            assert(p.label_names().contains_key((y.category.0, y.label)));
            assert(p.category_names().contains_key(c.0));
        },
        ConstraintKind::Or(x, y, z) | ConstraintKind::Xor(x, y, z) => {
            assert(p.label_names().contains_key((x.category.0, x.label)));
            assert(p.label_names().contains_key((y.category.0, y.label)));
            assert(p.label_names().contains_key((z.category.0, z.label)));
        },
        ConstraintKind::TwoByTwo(x1, x2, y1, y2) => {
            assert(p.label_names().contains_key((x1.category.0, x1.label)));
            assert(p.label_names().contains_key((x2.category.0, x2.label)));
            assert(p.label_names().contains_key((y1.category.0, y1.label)));
            assert(p.label_names().contains_key((y2.category.0, y2.label)));
        },
        ConstraintKind::Distance(..) => {},
    }
}

} // verus!
