use gridsolve::{
    run_pass, solve, Category, Cell, Constraint, ConstraintKind, ElimOthers, Error, Grid, Label, NoByProxy,
    OnlyEmpty, Puzzle, Solution, Solver, Transitivity,
};

fn clue(kind: ConstraintKind) -> Constraint {
    Constraint { kind, name: String::from("clue") }
}

fn label(p: &Puzzle, name: &str) -> Label {
    p.label(name).unwrap()
}

/// The names of the row whose first-category label is `primary`.
fn row_names(p: &Puzzle, sol: &Solution, primary: &str) -> Vec<Option<String>> {
    let first = label(p, primary);
    let row = &sol.labels[first.label];
    row.iter().map(|l| l.map(|l| p.lookup_label(l).to_string())).collect()
}

fn two_by_two() -> Puzzle {
    let mut p = Puzzle::new();
    p.add_category("Person", &["Alice", "Bob"]).unwrap();
    p.add_category("Color", &["Red", "Blue"]).unwrap();
    p
}

fn cells_of(g: &Grid) -> Vec<Cell> {
    let labels = g.labels();
    let mut out = vec![];
    for a in &labels {
        for b in &labels {
            out.push(*g.at(*a, *b));
        }
    }
    out
}

fn decided(g: &Grid) -> usize {
    cells_of(g).iter().filter(|c| **c != Cell::Empty).count()
}

#[test]
fn test_simple() {
    let mut p = Puzzle::new();
    p.add_category("Name", &["Angela", "Donald", "Leo"]).unwrap();
    p.add_category("Country", &["Germany", "United States", "Ireland"]).unwrap();
    p.add_category("Year", &["1946", "1954", "1979"]).unwrap();
    let year = p.category("Year").unwrap();
    p.add_constraint(clue(ConstraintKind::Yes(label(&p, "Angela"), label(&p, "Germany"))));
    p.add_constraint(clue(ConstraintKind::Yes(label(&p, "Donald"), label(&p, "1946"))));
    p.add_constraint(clue(ConstraintKind::No(label(&p, "Leo"), label(&p, "United States"))));
    p.add_constraint(clue(ConstraintKind::After(label(&p, "Leo"), year, label(&p, "Angela"))));
    let sol = solve(&p).unwrap();
    let s = |x: &str| Some(x.to_string());
    assert_eq!(row_names(&p, &sol, "Angela"), vec![s("Angela"), s("Germany"), s("1954")]);
    assert_eq!(row_names(&p, &sol, "Donald"), vec![s("Donald"), s("United States"), s("1946")]);
    assert_eq!(row_names(&p, &sol, "Leo"), vec![s("Leo"), s("Ireland"), s("1979")]);
}

#[test]
fn forced_single_deduction() {
    let mut p = two_by_two();
    let (alice, bob, red, blue) = (label(&p, "Alice"), label(&p, "Bob"), label(&p, "Red"), label(&p, "Blue"));
    p.add_constraint(clue(ConstraintKind::Yes(alice, red)));
    let mut grid = Grid::new(&p);
    assert_eq!(p.constraints()[0].apply(&mut grid), Some(true));
    assert_eq!(ElimOthers {}.apply(&mut grid), Some(true));
    assert_eq!(*grid.at(alice, blue), Cell::No);
    assert_eq!(*grid.at(bob, red), Cell::No);
    assert_eq!(*grid.at(bob, blue), Cell::Empty);
    assert_eq!(OnlyEmpty {}.apply(&mut grid), Some(true));
    assert_eq!(*grid.at(bob, blue), Cell::Yes);
    let sol = solve(&p).unwrap();
    assert_eq!(sol.labels[0], vec![Some(alice), Some(red)]);
    assert_eq!(sol.labels[1], vec![Some(bob), Some(blue)]);
    assert!(!sol.steps.is_empty());
}

#[test]
fn contradiction_gives_none() {
    let mut p = two_by_two();
    let (alice, red) = (label(&p, "Alice"), label(&p, "Red"));
    p.add_constraint(clue(ConstraintKind::Yes(alice, red)));
    p.add_constraint(clue(ConstraintKind::No(alice, red)));
    assert!(solve(&p).is_none());
}

#[test]
fn ordering_after_at_least() {
    let mut p = Puzzle::new();
    p.add_category("Person", &["X", "Y", "Z"]).unwrap();
    let year = p.add_category("Year", &["1940", "1950", "1960"]).unwrap();
    let (x, y) = (label(&p, "X"), label(&p, "Y"));
    p.add_constraint(clue(ConstraintKind::AfterAtLeast(x, year, y, 2)));
    let sol = solve(&p).unwrap();
    let s = |v: &str| Some(v.to_string());
    assert_eq!(row_names(&p, &sol, "X"), vec![s("X"), s("1960")]);
    assert_eq!(row_names(&p, &sol, "Y"), vec![s("Y"), s("1940")]);
    assert_eq!(row_names(&p, &sol, "Z"), vec![s("Z"), s("1950")]);
}

#[test]
fn transitivity_derives_yes() {
    let mut p = Puzzle::new();
    p.add_category("A", &["x", "x2"]).unwrap();
    p.add_category("B", &["y", "y2"]).unwrap();
    p.add_category("C", &["z", "z2"]).unwrap();
    let (x, y, z) = (label(&p, "x"), label(&p, "y"), label(&p, "z"));
    let mut grid = Grid::new(&p);
    assert_eq!(grid.set(x, y, Cell::Yes), Some(true));
    assert_eq!(grid.set(y, z, Cell::Yes), Some(true));
    assert_eq!(*grid.at(x, z), Cell::Empty);
    assert_eq!(Transitivity {}.apply(&mut grid), Some(true));
    assert_eq!(*grid.at(x, z), Cell::Yes);
    assert_eq!(*grid.at(z, x), Cell::Yes);
    assert_eq!(Transitivity {}.apply(&mut grid), Some(false));
}

#[test]
fn grid_is_symmetric() {
    let mut p = Puzzle::new();
    p.add_category("A", &["a0", "a1", "a2"]).unwrap();
    p.add_category("B", &["b0", "b1", "b2"]).unwrap();
    p.add_category("C", &["c0", "c1", "c2"]).unwrap();
    let mut grid = Grid::new(&p);
    grid.set(label(&p, "c1"), label(&p, "a2"), Cell::Yes).unwrap();
    grid.set(label(&p, "b0"), label(&p, "c2"), Cell::No).unwrap();
    let labels = grid.labels();
    assert_eq!(labels.len(), 9);
    for a in &labels {
        for b in &labels {
            assert_eq!(grid.at(*a, *b), grid.at(*b, *a));
        }
    }
    assert_eq!(*grid.at(label(&p, "a2"), label(&p, "c1")), Cell::Yes);
}

#[test]
fn cells_are_written_once() {
    let p = two_by_two();
    let (alice, red) = (label(&p, "Alice"), label(&p, "Red"));
    let mut grid = Grid::new(&p);
    assert_eq!(grid.set(alice, red, Cell::No), Some(true));
    assert_eq!(grid.set(red, alice, Cell::No), Some(false));
    assert_eq!(grid.set(alice, red, Cell::Yes), None);
    assert_eq!(*grid.at(alice, red), Cell::No);
    assert_eq!(grid.set(alice, alice, Cell::Yes), Some(false));
    assert_eq!(grid.set(alice, label(&p, "Bob"), Cell::Yes), None);
}

#[test]
fn same_category_cells_start_decided() {
    let mut p = Puzzle::new();
    p.add_category("A", &["a0", "a1", "a2"]).unwrap();
    p.add_category("B", &["b0", "b1", "b2"]).unwrap();
    let grid = Grid::new(&p);
    for a in grid.labels() {
        for b in grid.labels() {
            let expected = if a.category != b.category {
                Cell::Empty
            } else if a == b {
                Cell::Yes
            } else {
                Cell::No
            };
            assert_eq!(*grid.at(a, b), expected);
        }
    }
    assert_eq!(grid.cells().len(), 9);
}

#[test]
fn passes_only_decide_more_cells() {
    let mut p = Puzzle::new();
    p.add_category("Name", &["Angela", "Donald", "Leo"]).unwrap();
    p.add_category("Country", &["Germany", "United States", "Ireland"]).unwrap();
    let year = p.add_category("Year", &["1946", "1954", "1979"]).unwrap();
    p.add_constraint(clue(ConstraintKind::Yes(label(&p, "Donald"), label(&p, "1946"))));
    p.add_constraint(clue(ConstraintKind::After(label(&p, "Leo"), year, label(&p, "Angela"))));
    let mut grid = Grid::new(&p);
    let mut count = decided(&grid);
    let mut passes = 0;
    loop {
        let before = cells_of(&grid);
        let changed = run_pass(&mut grid, p.constraints()).unwrap();
        let after = cells_of(&grid);
        for (b, a) in before.iter().zip(after.iter()) {
            if *b != Cell::Empty {
                assert_eq!(a, b);
            }
        }
        let now = decided(&grid);
        assert!(now >= count);
        assert_eq!(changed, now > count);
        count = now;
        passes += 1;
        if !changed {
            break;
        }
    }
    assert!(passes <= 81 + 1);
    assert_eq!(*grid.at(label(&p, "Leo"), label(&p, "1979")), Cell::Yes);
}

#[test]
fn solved_grid_is_a_fixed_point() {
    let mut p = Puzzle::new();
    p.add_category("Person", &["X", "Y", "Z"]).unwrap();
    let year = p.add_category("Year", &["1940", "1950", "1960"]).unwrap();
    p.add_constraint(clue(ConstraintKind::AfterAtLeast(label(&p, "X"), year, label(&p, "Y"), 2)));
    let mut solver = Solver::new(&p);
    assert!(solver.run());
    let first = cells_of(solver.grid());
    assert!(solver.run());
    assert_eq!(cells_of(solver.grid()), first);
    let mut grid = Grid::new(&p);
    while run_pass(&mut grid, p.constraints()).unwrap() {}
    assert_eq!(cells_of(&grid), first);
    assert_eq!(run_pass(&mut grid, p.constraints()), Some(false));
}

#[test]
fn label_count_must_match() {
    let mut p = two_by_two();
    match p.add_category("Pet", &["Cat"]) {
        Err(Error::InvalidLabelCount { category, expected, found }) => {
            assert_eq!(category, "Pet");
            assert_eq!(expected, 2);
            assert_eq!(found, 1);
        },
        _ => panic!("expected InvalidLabelCount"),
    }
    assert_eq!(p.num_categories(), 2);
}

#[test]
fn label_names_must_be_unique() {
    let mut p = two_by_two();
    match p.add_category("Pet", &["Cat", "Red"]) {
        Err(Error::InvalidLabelName { name }) => assert_eq!(name, "Red"),
        _ => panic!("expected InvalidLabelName"),
    }
    match p.add_category("Pet", &["Cat", "Cat"]) {
        Err(Error::InvalidLabelName { name }) => assert_eq!(name, "Cat"),
        _ => panic!("expected InvalidLabelName"),
    }
    assert!(p.label("Cat").is_err());
    match p.add_category("Color", &["Cat", "Dog"]) {
        Err(Error::InvalidCategoryName { name }) => assert_eq!(name, "Color"),
        _ => panic!("expected InvalidCategoryName"),
    }
    let pet = p.add_category("Pet", &["Cat", "Dog"]).unwrap();
    assert_eq!(pet, Category(2));
    assert_eq!(label(&p, "Dog"), Label::new(Category(2), 1));
}

#[test]
fn lookups_by_name_and_index() {
    let p = two_by_two();
    assert_eq!(p.num_categories(), 2);
    assert_eq!(p.labels_per_category(), 2);
    assert_eq!(p.category("Color").unwrap(), Category(1));
    assert_eq!(p.lookup_category(Category(1)), "Color");
    assert_eq!(p.lookup_category(Category(0)), "Person");
    assert_eq!(label(&p, "Blue"), Label::new(Category(1), 1));
    assert_eq!(p.lookup_label(Label::new(Category(0), 1)), "Bob");
    assert_eq!(p.categories(), vec![Category(0), Category(1)]);
    match p.category("Size") {
        Err(Error::CategoryNotFound { name }) => assert_eq!(name, "Size"),
        _ => panic!("expected CategoryNotFound"),
    }
    match p.label("Green") {
        Err(Error::LabelNotFound { name }) => assert_eq!(name, "Green"),
        _ => panic!("expected LabelNotFound"),
    }
}

#[test]
fn constraint_range_is_checked() {
    let p = two_by_two();
    let inside = clue(ConstraintKind::Yes(label(&p, "Alice"), label(&p, "Red")));
    let outside = clue(ConstraintKind::Yes(label(&p, "Alice"), Label::new(Category(2), 0)));
    assert!(p.constraint_in_range(&inside));
    assert!(!p.constraint_in_range(&outside));
}

fn three_by_two() -> Puzzle {
    let mut p = Puzzle::new();
    p.add_category("Person", &["Ann", "Ben", "Cal"]).unwrap();
    p.add_category("Pet", &["Cat", "Dog", "Eel"]).unwrap();
    p
}

#[test]
fn or_forces_the_other_choice() {
    let p = three_by_two();
    let (ann, cat, dog, eel) = (label(&p, "Ann"), label(&p, "Cat"), label(&p, "Dog"), label(&p, "Eel"));
    let c = clue(ConstraintKind::Or(ann, cat, dog));
    let mut grid = Grid::new(&p);
    assert_eq!(c.apply(&mut grid), Some(true));
    assert_eq!(*grid.at(ann, eel), Cell::No);
    grid.set(ann, cat, Cell::No).unwrap();
    assert_eq!(c.apply(&mut grid), Some(true));
    assert_eq!(*grid.at(ann, dog), Cell::Yes);
    assert_eq!(c.apply(&mut grid), Some(false));
}

#[test]
fn xor_excludes_both_and_neither() {
    let mut p = Puzzle::new();
    p.add_category("Person", &["Ann", "Ben", "Cal"]).unwrap();
    p.add_category("Pet", &["Cat", "Dog", "Eel"]).unwrap();
    p.add_category("Town", &["Oslo", "Rome", "Bern"]).unwrap();
    let (ann, cat, oslo, rome) = (label(&p, "Ann"), label(&p, "Cat"), label(&p, "Oslo"), label(&p, "Rome"));
    // Ann has the cat or lives in Oslo, not both.
    let c = clue(ConstraintKind::Xor(ann, cat, oslo));
    let mut grid = Grid::new(&p);
    assert_eq!(c.apply(&mut grid), Some(true));
    assert_eq!(*grid.at(cat, oslo), Cell::No);
    assert_eq!(c.apply(&mut grid), Some(false));
    // Rome goes with neither the cat nor Oslo, so not with Ann.
    grid.set(cat, rome, Cell::No).unwrap();
    assert_eq!(*grid.at(ann, rome), Cell::Empty);
    assert_eq!(c.apply(&mut grid), Some(true));
    assert_eq!(*grid.at(ann, rome), Cell::No);
    grid.set(ann, cat, Cell::Yes).unwrap();
    assert_eq!(c.apply(&mut grid), Some(true));
    assert_eq!(*grid.at(ann, oslo), Cell::No);
    let mut grid = Grid::new(&p);
    grid.set(ann, oslo, Cell::No).unwrap();
    assert_eq!(c.apply(&mut grid), Some(true));
    assert_eq!(*grid.at(ann, cat), Cell::Yes);
}

#[test]
fn two_by_two_pairs_diagonally() {
    let mut p = Puzzle::new();
    p.add_category("Person", &["Ann", "Ben"]).unwrap();
    p.add_category("Pet", &["Cat", "Dog"]).unwrap();
    p.add_category("Town", &["Oslo", "Rome"]).unwrap();
    let (ann, ben, cat, dog) = (label(&p, "Ann"), label(&p, "Ben"), label(&p, "Cat"), label(&p, "Dog"));
    let c = clue(ConstraintKind::TwoByTwo(ann, ben, cat, dog));
    let mut grid = Grid::new(&p);
    assert_eq!(c.apply(&mut grid), Some(false));
    grid.set(ann, cat, Cell::Yes).unwrap();
    assert_eq!(c.apply(&mut grid), Some(true));
    assert_eq!(*grid.at(ann, dog), Cell::No);
    assert_eq!(*grid.at(ben, dog), Cell::Empty);
    assert_eq!(ElimOthers {}.apply(&mut grid), Some(true));
    assert_eq!(*grid.at(ben, cat), Cell::No);
    assert_eq!(c.apply(&mut grid), Some(true));
    assert_eq!(*grid.at(ben, dog), Cell::Yes);
}

#[test]
fn exactly_one_of_the_pairs() {
    let p = three_by_two();
    let (ann, ben, cal, cat) = (label(&p, "Ann"), label(&p, "Ben"), label(&p, "Cal"), label(&p, "Cat"));
    let c = clue(ConstraintKind::ExactlyOne(vec![(ann, cat), (ben, cat), (cal, cat)]));
    let mut grid = Grid::new(&p);
    assert_eq!(c.apply(&mut grid), Some(false));
    grid.set(ann, cat, Cell::No).unwrap();
    assert_eq!(c.apply(&mut grid), Some(false));
    grid.set(ben, cat, Cell::No).unwrap();
    assert_eq!(c.apply(&mut grid), Some(true));
    assert_eq!(*grid.at(cal, cat), Cell::Yes);

    let mut grid = Grid::new(&p);
    grid.set(ben, cat, Cell::Yes).unwrap();
    assert_eq!(c.apply(&mut grid), Some(true));
    assert_eq!(*grid.at(ann, cat), Cell::No);
    assert_eq!(*grid.at(cal, cat), Cell::No);
    assert_eq!(c.apply(&mut grid), Some(false));
}

#[test]
fn after_exactly_fixes_the_gap() {
    let mut p = Puzzle::new();
    p.add_category("Person", &["X", "Y", "Z"]).unwrap();
    let year = p.add_category("Year", &["1940", "1950", "1960"]).unwrap();
    let (x, y) = (label(&p, "X"), label(&p, "Y"));
    let c = clue(ConstraintKind::AfterExactly(x, year, y, 1));
    let mut grid = Grid::new(&p);
    assert_eq!(c.apply(&mut grid), Some(true));
    assert_eq!(*grid.at(x, y), Cell::No);
    assert_eq!(*grid.at(x, label(&p, "1940")), Cell::No);
    assert_eq!(*grid.at(y, label(&p, "1960")), Cell::No);
    grid.set(y, label(&p, "1940"), Cell::No).unwrap();
    assert_eq!(c.apply(&mut grid), Some(true));
    assert_eq!(*grid.at(x, label(&p, "1950")), Cell::No);
}

#[test]
fn after_is_at_least_one() {
    let mut p = Puzzle::new();
    p.add_category("Person", &["X", "Y"]).unwrap();
    let year = p.add_category("Year", &["1940", "1950"]).unwrap();
    let (x, y) = (label(&p, "X"), label(&p, "Y"));
    p.add_constraint(clue(ConstraintKind::After(x, year, y)));
    let sol = solve(&p).unwrap();
    assert_eq!(sol.labels[0], vec![Some(x), Some(label(&p, "1950"))]);
    assert_eq!(sol.labels[1], vec![Some(y), Some(label(&p, "1940"))]);
}

#[test]
fn distance_copies_at_the_edges() {
    let mut p = Puzzle::new();
    p.add_category("Person", &["X", "Y", "Z"]).unwrap();
    let seat = p.add_category("Seat", &["s0", "s1", "s2"]).unwrap();
    let (x, y) = (label(&p, "X"), label(&p, "Y"));
    let c = clue(ConstraintKind::Distance(x, seat, y, 2));
    let mut grid = Grid::new(&p);
    // X and Y are people, so (X, Y) is No from the start.
    assert_eq!(c.apply(&mut grid), Some(false));
    assert_eq!(*grid.at(x, y), Cell::No);
    grid.set(x, label(&p, "s2"), Cell::Yes).unwrap();
    assert_eq!(c.apply(&mut grid), Some(true));
    assert_eq!(*grid.at(y, label(&p, "s0")), Cell::Yes);
    assert_eq!(c.apply(&mut grid), Some(false));
}

#[test]
fn no_by_proxy_blocks_a_pair() {
    let mut p = Puzzle::new();
    p.add_category("Person", &["Ann", "Ben"]).unwrap();
    p.add_category("Pet", &["Cat", "Dog"]).unwrap();
    p.add_category("Town", &["Oslo", "Rome"]).unwrap();
    let (ann, cat, oslo, rome) = (label(&p, "Ann"), label(&p, "Cat"), label(&p, "Oslo"), label(&p, "Rome"));
    let mut grid = Grid::new(&p);
    grid.set(ann, oslo, Cell::No).unwrap();
    grid.set(cat, rome, Cell::No).unwrap();
    assert_eq!(NoByProxy {}.apply(&mut grid), Some(true));
    assert_eq!(*grid.at(ann, cat), Cell::No);
    assert_eq!(NoByProxy {}.apply(&mut grid), Some(false));
}

#[test]
fn elim_others_reports_a_clash() {
    let p = three_by_two();
    let (ann, cat, dog) = (label(&p, "Ann"), label(&p, "Cat"), label(&p, "Dog"));
    let mut grid = Grid::new(&p);
    grid.set(ann, cat, Cell::Yes).unwrap();
    grid.set(ann, dog, Cell::Yes).unwrap();
    assert_eq!(ElimOthers {}.apply(&mut grid), None);
}

#[test]
fn clues_are_decoded() {
    let mut p = Puzzle::new();
    p.add_category("Person", &["X", "Y", "Z"]).unwrap();
    p.add_category("Year", &["1940", "1950", "1960"]).unwrap();
    let year = p.category("Year").unwrap();
    let (x, y) = (label(&p, "X"), label(&p, "Y"));
    let c = p.clue("c1", &["afteratleast", "X", "Year", "Y", "2"], "c1, afteratleast, X, Year, Y, 2").unwrap();
    assert_eq!(c.name, "c1");
    match c.kind {
        ConstraintKind::AfterAtLeast(a, cat, b, n) => {
            assert_eq!((a, cat, b, n), (x, year, y, 2));
        },
        _ => panic!("expected AfterAtLeast"),
    }
    match p.clue("c2", &["exactlyone", "X", "1940", "Y", "1950"], "c2").unwrap().kind {
        ConstraintKind::ExactlyOne(pairs) => {
            assert_eq!(pairs, vec![(x, label(&p, "1940")), (y, label(&p, "1950"))]);
        },
        _ => panic!("expected ExactlyOne"),
    }
    match p.clue("c3", &["afteratleast", "X", "Year", "Y", "3"], "bad distance") {
        Err(Error::InvalidClue { clue }) => assert_eq!(clue, "bad distance"),
        _ => panic!("expected InvalidClue"),
    }
    match p.clue("c4", &["afterexactly", "X", "Year", "Y", "two"], "not a number") {
        Err(Error::InvalidClue { clue }) => assert_eq!(clue, "not a number"),
        _ => panic!("expected InvalidClue"),
    }
    match p.clue("c5", &["maybe", "X", "Y"], "unknown kind") {
        Err(Error::InvalidClue { .. }) => {},
        _ => panic!("expected InvalidClue"),
    }
    match p.clue("c6", &["yes", "X"], "too short") {
        Err(Error::InvalidClue { .. }) => {},
        _ => panic!("expected InvalidClue"),
    }
    match p.clue("c7", &["yes", "X", "W"], "unknown label") {
        Err(Error::LabelNotFound { name }) => assert_eq!(name, "W"),
        _ => panic!("expected LabelNotFound"),
    }
    match p.clue("c8", &["after", "X", "Month", "Y"], "unknown category") {
        Err(Error::CategoryNotFound { name }) => assert_eq!(name, "Month"),
        _ => panic!("expected CategoryNotFound"),
    }
    match p.clue("c9", &["exactlyone", "X", "1940", "Y"], "even fields") {
        Err(Error::InvalidClue { .. }) => {},
        _ => panic!("expected InvalidClue"),
    }
    match p.clue("c10", &["xor", "X", "1940", "1950"], "xor").unwrap().kind {
        ConstraintKind::Xor(a, b, c) => assert_eq!((a, b, c), (x, label(&p, "1940"), label(&p, "1950"))),
        _ => panic!("expected Xor"),
    }
}

#[test]
fn exactly_one_rejects_a_second_yes() {
    let p = three_by_two();
    let (ann, ben, cat, dog) = (label(&p, "Ann"), label(&p, "Ben"), label(&p, "Cat"), label(&p, "Dog"));
    let c = clue(ConstraintKind::ExactlyOne(vec![(ann, cat), (ben, dog)]));
    let mut grid = Grid::new(&p);
    grid.set(ann, cat, Cell::Yes).unwrap();
    grid.set(ben, dog, Cell::Yes).unwrap();
    assert_eq!(c.apply(&mut grid), None);
    // The same cell listed twice, in either order, is one pair.
    let same = clue(ConstraintKind::ExactlyOne(vec![(ann, cat), (cat, ann), (ben, cat)]));
    let mut grid = Grid::new(&p);
    grid.set(ann, cat, Cell::Yes).unwrap();
    assert_eq!(same.apply(&mut grid), Some(true));
    assert_eq!(*grid.at(ben, cat), Cell::No);
}

#[test]
fn steps_record_the_changed_cell() {
    let p = two_by_two();
    let (alice, bob, red, blue) = (label(&p, "Alice"), label(&p, "Bob"), label(&p, "Red"), label(&p, "Blue"));
    let mut grid = Grid::new(&p);
    assert_eq!(grid.set_with_callback(alice, red, Cell::Yes, || String::from("told so")), Some(true));
    assert_eq!(grid.set_with_callback(alice, red, Cell::Yes, || panic!("not called on a no-op")), Some(false));
    assert_eq!(grid.set(bob, blue, Cell::No), Some(true));
    let steps = grid.into_steps();
    assert_eq!(steps.len(), 2);
    assert_eq!(steps[0].description, "told so");
    assert_eq!(steps[0].cell, Some((alice, red, Cell::Yes)));
    assert_eq!(steps[1].description, "");
    assert_eq!(steps[1].cell, Some((bob, blue, Cell::No)));
}

#[test]
fn cells_come_in_position_order() {
    let mut p = Puzzle::new();
    p.add_category("A", &["a0", "a1"]).unwrap();
    p.add_category("B", &["b0", "b1"]).unwrap();
    p.add_category("C", &["c0", "c1"]).unwrap();
    let grid = Grid::new(&p);
    let pos = |l: Label| l.category.0 * 2 + l.label;
    let cells = grid.cells();
    assert_eq!(cells.len(), 2 * 2 * 3 * 2 / 2);
    for w in cells.windows(2) {
        assert!((pos(w[0].0), pos(w[0].1)) < (pos(w[1].0), pos(w[1].1)));
    }
    assert_eq!(cells[0], (label(&p, "a0"), label(&p, "b0")));
}

#[test]
fn solving_records_explained_steps() {
    let mut p = two_by_two();
    p.add_constraint(clue(ConstraintKind::Yes(label(&p, "Alice"), label(&p, "Red"))));
    let sol = solve(&p).unwrap();
    assert_eq!(sol.steps.len(), 4);
    assert!(sol.steps.iter().all(|s| s.cell.is_some() && !s.description.is_empty()));
}
