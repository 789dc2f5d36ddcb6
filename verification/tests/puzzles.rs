use binox::board::Binox;
use binox::grid::BinoxCell;
use binox::presolve::PresolveResult;
use binox::solver::BinoxSolution;

fn symbols(b: &Binox) -> usize {
    b.as_string().chars().filter(|c| *c != '.').count()
}

#[test]
fn a_perfect_puzzle_is_not_full_and_has_one_solution() {
    for size in [4u8, 6] {
        for _ in 0..5 {
            let b = match Binox::generate(size, true, 0) {
                Ok(b) => b,
                Err(e) => {
                    assert_eq!(e, "something went wrong");
                    continue;
                }
            };
            assert_eq!(b.size(), size);
            assert!(!b.is_full());
            assert!(b.is_valid());
            match b.solve(true) {
                BinoxSolution::One(a) => assert!(a.is_solved()),
                _ => panic!("one solution expected"),
            }
        }
    }
}

#[test]
fn no_clue_of_a_perfect_puzzle_can_go() {
    for _ in 0..5 {
        let b = match Binox::generate(4, true, 0) {
            Ok(b) => b,
            Err(_) => continue,
        };
        let text = b.as_string();
        for (index, c) in text.char_indices() {
            if c != '.' {
                let mut fewer: Vec<char> = text.chars().collect();
                fewer[index] = '.';
                let fewer = Binox::new_from_string(fewer.into_iter().collect());
                assert!(matches!(fewer.solve(true), BinoxSolution::Multiple(..)));
            }
        }
    }
}

#[test]
fn every_symbol_of_a_puzzle_is_given() {
    for (perfect, extras) in [(false, 0usize), (true, 0), (false, 3), (true, 2)] {
        let b = match Binox::generate(4, perfect, extras) {
            Ok(b) => b,
            Err(_) => continue,
        };
        for row in 0..4u8 {
            for col in 0..4u8 {
                let filled = b.get_cell(row, col).unwrap() != BinoxCell::EMPTY;
                assert_eq!(b.is_default(row, col).unwrap(), filled);
            }
        }
        let text = b.as_string();
        assert!(text.chars().all(|c| c == 'X' || c == 'O' || c == '.'));
        assert!(matches!(b.solve(true), BinoxSolution::One(_)));
    }
}

#[test]
fn extras_add_clues_of_the_solution() {
    for _ in 0..5 {
        let mut b = match Binox::generate(6, false, 1000) {
            Ok(b) => b,
            Err(_) => continue,
        };
        let solved = match b.solve(true) {
            BinoxSolution::One(a) => a.as_string().to_lowercase(),
            _ => panic!("one solution expected"),
        };
        assert!(matches!(b.presolve_simple(), PresolveResult::Good));
        assert!(b.is_solved());
        assert_eq!(b.as_string().to_lowercase(), solved);
    }
    for _ in 0..5 {
        let b = match Binox::generate(4, true, 3) {
            Ok(b) => b,
            Err(_) => continue,
        };
        assert!(symbols(&b) >= 3);
        assert!(matches!(b.solve(true), BinoxSolution::One(_)));
    }
}

#[test]
fn generate_rejects_bad_sizes() {
    assert_eq!(Binox::generate(18, true, 0).err(), Some("size must be at most 16"));
    assert_eq!(Binox::generate(2, false, 0).err(), Some("size must be at least 4"));
    assert_eq!(Binox::generate(7, false, 4).err(), Some("size must be even"));
}

#[test]
fn place_writes_the_picked_symbol() {
    let mut b = Binox::new(4).unwrap();
    b.place(1, 1, true).unwrap();
    b.place(2, 3, false).unwrap();
    assert_eq!(b.as_string(), ".....x.....o....");
    b.place(1, 1, false).unwrap();
    assert_eq!(b.as_string(), ".....o.....o....");
    assert_eq!(b.place(4, 0, true).unwrap_err(), "attempted to set x out of range");
    assert_eq!(b.place(0, 4, false).unwrap_err(), "attempted to set o out of range");
}

#[test]
fn differences_are_listed_row_by_row() {
    let a = Binox::new_from_string("xxooxoxooxoxooxx".into());
    let b = Binox::new_from_string("xoo.xoxoXxoxooxo".into());
    assert_eq!(a.get_differences(&b).unwrap(), [(0, 1), (0, 3), (2, 0), (3, 3)]);
    assert_eq!(a.get_differences(&a).unwrap(), []);
    let c = Binox::new(6).unwrap();
    assert_eq!(a.get_differences(&c).unwrap_err(), "must be same size");
}

#[test]
fn empties_are_listed_row_by_row() {
    let b = Binox::new_from_string("xo.x.xo.XXOO...o".into());
    assert_eq!(b.get_empties(), [(0, 2), (1, 0), (1, 3), (3, 0), (3, 1), (3, 2)]);
    let b = Binox::new_from_string("xxooxoxooxoxooxx".into());
    assert_eq!(b.get_empties(), []);
    assert_eq!(Binox::new(4).unwrap().get_empties().len(), 16);
}

#[test]
fn marking_makes_every_symbol_given() {
    let mut b = Binox::new_from_string("xo..X..........o".into());
    b.make_cells_unmodifiable();
    assert_eq!(b.as_string(), "XO..X..........O");
    assert_eq!(b.set_cell(0, 0, BinoxCell::O).unwrap_err(), "this cell cannot be modified.");
    b.set_cell(0, 2, BinoxCell::O).unwrap();
    assert_eq!(b.as_string(), "XOo.X..........O");
}

#[test]
fn local_minimization_drops_what_a_sweep_writes_back() {
    let mut b = Binox::new_from_string("xxoo............".into());
    b.minimize_local();
    assert_eq!(b.as_string(), "..oo............");
    let mut b = Binox::new_from_string("XXoo............".into());
    b.minimize_local();
    assert_eq!(b.as_string(), "XX..............");
}

#[test]
fn perfect_minimization_keeps_one_solution() {
    let solved = "xxooxoxooxoxooxx";
    let mut b = Binox::new_from_string(solved.into());
    b.minimize_perfect();
    assert!(!b.is_full());
    match b.solve(true) {
        BinoxSolution::One(a) => assert_eq!(a.as_string(), solved),
        _ => panic!("one solution expected"),
    }
    let text = b.as_string();
    for (index, c) in text.char_indices() {
        if c != '.' {
            let mut fewer: Vec<char> = text.chars().collect();
            fewer[index] = '.';
            let fewer = Binox::new_from_string(fewer.into_iter().collect());
            assert!(matches!(fewer.solve(true), BinoxSolution::Multiple(..)));
        }
    }
    let mut given = Binox::new_from_string("XXOOXOXOOXOXOOXX".into());
    given.minimize_perfect();
    assert_eq!(given.as_string(), "XXOOXOXOOXOXOOXX");
}
