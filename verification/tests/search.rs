use binox::board::Binox;
use binox::grid::BinoxCell;
use binox::presolve::PresolveResult;
use binox::solver::{alternated_range, BinoxSolution};

fn text_of(solution: &BinoxSolution) -> Vec<String> {
    match solution {
        BinoxSolution::Zero => vec![],
        BinoxSolution::One(a) => vec![a.as_string()],
        BinoxSolution::Multiple(a, b) => vec![a.as_string(), b.as_string()],
    }
}

/// Every full valid board that keeps the symbols of `text`, found by trying
/// all fillings.
fn all_solutions(text: &str) -> Vec<String> {
    let start = Binox::new_from_string(text.into()).as_string();
    let free: Vec<usize> =
        start.char_indices().filter(|(_, c)| *c == '.').map(|(i, _)| i).collect();
    let mut found = vec![];
    for pick in 0..(1u32 << free.len()) {
        let mut cells: Vec<char> = start.chars().collect();
        for (bit, index) in free.iter().enumerate() {
            cells[*index] = if pick & (1 << bit) != 0 { 'x' } else { 'o' };
        }
        let candidate: String = cells.into_iter().collect();
        if Binox::new_from_string(candidate.clone()).is_solved() {
            found.push(candidate);
        }
    }
    found
}

#[test]
fn solving_a_solved_board_gives_it_back() {
    let b = Binox::new_from_string("xxooxoxooxoxooxx".into());
    for multiple in [true, false] {
        match b.solve(multiple) {
            BinoxSolution::One(a) => assert_eq!(a.as_string(), "xxooxoxooxoxooxx"),
            _ => panic!("one solution expected"),
        }
    }
    let b = Binox::new_from_string("XxOoxOxOOxoXooXx".into());
    match b.solve(true) {
        BinoxSolution::One(a) => assert_eq!(a.as_string(), "XxOoxOxOOxoXooXx"),
        _ => panic!("one solution expected"),
    }
}

#[test]
fn a_full_invalid_board_has_no_solution() {
    let b = Binox::new_from_string("xxooooxxxxooooxx".into());
    assert!(matches!(b.solve(true), BinoxSolution::Zero));
    assert!(matches!(b.solve(false), BinoxSolution::Zero));
}

#[test]
fn an_invalid_board_has_no_solution() {
    let b = Binox::new_from_string("xx x            ".into());
    assert!(matches!(b.solve(true), BinoxSolution::Zero));
    assert!(matches!(b.solve(false), BinoxSolution::Zero));
}

#[test]
fn a_blank_board_has_more_than_one_solution() {
    let b = Binox::new(4).unwrap();
    match b.solve(true) {
        BinoxSolution::Multiple(a, c) => {
            assert!(a.is_solved());
            assert!(c.is_solved());
            assert_ne!(a.as_string(), c.as_string());
        }
        _ => panic!("two solutions expected"),
    }
    match b.solve(false) {
        BinoxSolution::One(a) => assert!(a.is_solved()),
        _ => panic!("a first solution expected"),
    }
}

#[test]
fn solve_agrees_with_trying_every_filling() {
    let puzzles = [
        "xx  oo          ",
        "x..o............",
        "xo..o...........",
        ".x...x..........",
        "x.o..x.o........",
        "xxo.............",
        "x.x.............",
        "..x.o....x..o...",
        "oo...........x..",
        "xoxo............",
        "x..x.xx.........",
    ];
    for text in puzzles {
        let expected = all_solutions(text);
        let b = Binox::new_from_string(text.into());
        let found = text_of(&b.solve(true));
        match expected.len() {
            0 => assert!(found.is_empty(), "{}", text),
            1 => assert_eq!(found, expected, "{}", text),
            _ => {
                assert_eq!(found.len(), 2, "{}", text);
                assert_ne!(found[0], found[1], "{}", text);
                assert!(expected.contains(&found[0]), "{}", text);
                assert!(expected.contains(&found[1]), "{}", text);
            }
        }
        let first = text_of(&b.solve(false));
        if expected.is_empty() {
            assert!(first.is_empty(), "{}", text);
        } else {
            assert_eq!(first.len(), 1, "{}", text);
            assert!(expected.contains(&first[0]), "{}", text);
        }
    }
}

#[test]
fn solutions_keep_the_given_cells() {
    let b = Binox::new_from_string("X..O....o.......".into());
    match b.solve(false) {
        BinoxSolution::One(a) => {
            assert!(a.is_default(0, 0).unwrap());
            assert!(a.is_default(0, 3).unwrap());
            assert!(!a.is_default(2, 0).unwrap());
            assert!(a.get_cell(0, 0).unwrap() == BinoxCell::X);
            assert!(a.get_cell(0, 3).unwrap() == BinoxCell::O);
            assert!(a.get_cell(2, 0).unwrap() == BinoxCell::O);
        }
        _ => panic!("a solution expected"),
    }
    assert_eq!(b.as_string(), "X..O....o.......");
}

#[test]
fn solve_on_a_larger_board() {
    let b = Binox::new_from_string(
        "x.....\
         ..oo..\
         ...x.x\
         o.....\
         ..x..o\
         .o...."
            .into(),
    );
    match b.solve(false) {
        BinoxSolution::One(a) => {
            assert!(a.is_solved());
            assert!(a.get_cell(0, 0).unwrap() == BinoxCell::X);
            assert!(a.get_cell(1, 2).unwrap() == BinoxCell::O);
            assert!(a.get_cell(4, 5).unwrap() == BinoxCell::O);
        }
        BinoxSolution::Zero => {}
        BinoxSolution::Multiple(..) => panic!("a search for one solution never gives two"),
    }
}

#[test]
fn merging_results() {
    let one = || BinoxSolution::One(Binox::new_from_string("x...............".into()));
    let other = || BinoxSolution::One(Binox::new_from_string("o...............".into()));
    let two = || {
        BinoxSolution::Multiple(
            Binox::new_from_string("X...............".into()),
            Binox::new_from_string("O...............".into()),
        )
    };
    assert!(text_of(&(BinoxSolution::Zero + BinoxSolution::Zero)).is_empty());
    assert_eq!(text_of(&(BinoxSolution::Zero + one())), ["x..............."]);
    assert_eq!(text_of(&(one() + BinoxSolution::Zero)), ["x..............."]);
    assert_eq!(text_of(&(one() + other())), ["x...............", "o..............."]);
    assert_eq!(text_of(&(other() + one())), ["o...............", "x..............."]);
    assert_eq!(text_of(&(one() + two())), ["X...............", "O..............."]);
    assert_eq!(text_of(&(two() + one())), ["X...............", "O..............."]);
    assert_eq!(text_of(&(BinoxSolution::Zero + two())), ["X...............", "O..............."]);
    assert_eq!(text_of(&(two() + BinoxSolution::Zero)), ["X...............", "O..............."]);
    assert_eq!(text_of(&(two() + (one() + other()))), ["X...............", "O..............."]);
    assert_eq!(text_of(&((one() + other()) + two())), ["x...............", "o..............."]);
    assert_eq!(text_of(&((one() + other()) + one())).len(), 2);
    assert_eq!(text_of(&(one() + (other() + one()))).len(), 2);
}

#[test]
fn even_numbers_come_first() {
    assert_eq!(alternated_range(0), Vec::<u8>::new());
    assert_eq!(alternated_range(1), [0]);
    assert_eq!(alternated_range(4), [0, 2, 1, 3]);
    assert_eq!(alternated_range(5), [0, 2, 4, 1, 3]);
    assert_eq!(alternated_range(8), [0, 2, 4, 6, 1, 3, 5, 7]);
    let all = alternated_range(255);
    assert_eq!(all.len(), 255);
    assert_eq!(all[127], 254);
    assert_eq!(all[128], 1);
    assert_eq!(all[254], 253);
}

#[test]
fn the_first_empty_cell_is_looked_for_in_even_rows_first() {
    let b = Binox::new(4).unwrap();
    assert_eq!(b.first_empty(), Some((0, 0)));
    let b = Binox::new_from_string("x...............".into());
    assert_eq!(b.first_empty(), Some((0, 2)));
    let b = Binox::new_from_string("x.o.............".into());
    assert_eq!(b.first_empty(), Some((0, 1)));
    let b = Binox::new_from_string("xoox............".into());
    assert_eq!(b.first_empty(), Some((2, 0)));
    let b = Binox::new_from_string("xoox....oxxo....".into());
    assert_eq!(b.first_empty(), Some((1, 0)));
    let b = Binox::new_from_string("xoox.x.xoxxoxox.".into());
    assert_eq!(b.first_empty(), Some((1, 0)));
    let b = Binox::new_from_string("xooxoxoxoxxoxox.".into());
    assert_eq!(b.first_empty(), Some((3, 3)));
    let b = Binox::new_from_string("xxooxoxooxoxooxx".into());
    assert_eq!(b.first_empty(), None);
}

#[test]
fn presolve_fills_forced_cells() {
    let mut b = Binox::new_from_string("xx..............".into());
    assert!(matches!(b.presolve(), PresolveResult::Good));
    assert_eq!(b.as_string(), "xxoo............");
    let mut b = Binox::new_from_string("x.x.............".into());
    assert!(matches!(b.presolve(), PresolveResult::Good));
    assert_eq!(b.as_string(), "xoxo............");
}

#[test]
fn presolve_leaves_open_cells_and_given_marks() {
    let mut b = Binox::new(4).unwrap();
    assert!(matches!(b.presolve(), PresolveResult::Good));
    assert_eq!(b.as_string(), "................");
    let mut b = Binox::new_from_string("XX..............".into());
    assert!(matches!(b.presolve(), PresolveResult::Good));
    assert_eq!(b.as_string(), "XXoo............");
}

#[test]
fn presolve_stops_at_a_contradiction() {
    let mut b = Binox::new_from_string("xx x            ".into());
    assert!(matches!(b.presolve(), PresolveResult::Bad));
    assert_eq!(b.as_string(), "xx.x............");
    let mut b = Binox::new_from_string("........xxo.oox.".into());
    assert!(matches!(b.presolve_simple(), PresolveResult::Good));
}

#[test]
fn the_simple_sweep_knows_no_twins() {
    let text = "xoxo....x.......";
    let mut strict = Binox::new_from_string(text.into());
    assert!(matches!(strict.presolve(), PresolveResult::Good));
    assert_eq!(&strict.as_string()[8..12], "x.o.");
    let mut simple = Binox::new_from_string(text.into());
    assert!(matches!(simple.presolve_simple(), PresolveResult::Good));
    assert_eq!(&simple.as_string()[8..12], "x...");
    let mut again = Binox::new_from_string(text.into());
    assert!(matches!(again.presolve_with(true), PresolveResult::Good));
    assert_eq!(again.as_string(), strict.as_string());
    let mut again = Binox::new_from_string(text.into());
    assert!(matches!(again.presolve_with(false), PresolveResult::Good));
    assert_eq!(again.as_string(), simple.as_string());
}

#[test]
fn presolve_is_one_pass_only() {
    let mut b = Binox::new_from_string("...x..o...o.....".into());
    assert!(matches!(b.presolve(), PresolveResult::Good));
    let first = b.as_string();
    assert!(matches!(b.presolve(), PresolveResult::Good));
    let second = b.as_string();
    assert_eq!(&first[0..4], "..xx");
    assert_eq!(&second[0..4], "ooxx");
}

#[test]
fn a_second_presolve_changes_nothing_once_nothing_is_forced() {
    for text in ["xx..............", "x.x.............", "................", "xxooxoxooxoxooxx"] {
        let mut b = Binox::new_from_string(text.into());
        assert!(matches!(b.presolve(), PresolveResult::Good));
        assert!(matches!(b.presolve(), PresolveResult::Good));
        let settled = b.as_string();
        assert!(matches!(b.presolve(), PresolveResult::Good));
        assert_eq!(b.as_string(), settled);
    }
}
