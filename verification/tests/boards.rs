use binox::board::Binox;
use binox::grid::BinoxCell;

#[test]
fn full_valid_solved() {
    let b = Binox::new_from_string("xx x            ".into());
    assert!(!b.is_full());
    assert!(!b.is_valid());
    assert!(!b.is_solved());
    let b = Binox::new_from_string("xxooooxxxxooooxx".into());
    assert!(b.is_full());
    assert!(!b.is_valid());
    assert!(!b.is_solved());
    let b = Binox::new_from_string("xx  oo          ".into());
    assert!(!b.is_full());
    assert!(b.is_valid());
    assert!(!b.is_solved());
    let b = Binox::new_from_string("xxooxoxooxoxooxx".into());
    assert!(b.is_full());
    assert!(b.is_valid());
    assert!(b.is_solved());
}

#[test]
fn a_new_board_is_blank_valid_and_not_full() {
    for size in [4u8, 6, 8, 10, 12, 14, 16] {
        let b = Binox::new(size).unwrap();
        assert_eq!(b.size(), size);
        assert!(!b.is_full());
        assert!(b.is_valid());
        assert!(b.is_valid_simple());
        assert!(!b.is_solved());
        for row in 0..size {
            for col in 0..size {
                assert!(b.get_cell(row, col).unwrap() == BinoxCell::EMPTY);
                assert!(!b.is_default(row, col).unwrap());
            }
        }
        assert_eq!(b.as_string(), ".".repeat(size as usize * size as usize));
    }
}

#[test]
fn new_rejects_each_bad_size() {
    for size in 0..=255u8 {
        let made = Binox::new(size);
        if size > 16 {
            assert_eq!(made.err(), Some("size must be at most 16"));
        } else if size < 4 {
            assert_eq!(made.err(), Some("size must be at least 4"));
        } else if size % 2 == 1 {
            assert_eq!(made.err(), Some("size must be even"));
        } else {
            assert!(made.is_ok());
        }
    }
}

#[test]
fn partly_filled_board_is_valid_and_not_full() {
    let b = Binox::new_from_string("xx  oo          ".into());
    assert!(!b.is_full());
    assert!(b.is_valid());
    assert!(b.get_cell(0, 0).unwrap() == BinoxCell::X);
    assert!(b.get_cell(0, 1).unwrap() == BinoxCell::X);
    assert!(b.get_cell(0, 2).unwrap() == BinoxCell::EMPTY);
    assert!(b.get_cell(1, 0).unwrap() == BinoxCell::O);
    assert!(b.get_cell(1, 1).unwrap() == BinoxCell::O);
    assert!(b.get_cell(2, 0).unwrap() == BinoxCell::EMPTY);
    assert!(!b.is_default(0, 0).unwrap());
}

#[test]
fn solved_board_is_full_valid_and_solved() {
    let b = Binox::new_from_string("xxooxoxooxoxooxx".into());
    assert!(b.is_full());
    assert!(b.is_valid());
    assert!(b.is_solved());
}

#[test]
fn board_with_twin_rows_is_full_and_not_valid() {
    let b = Binox::new_from_string("xxooooxxxxooooxx".into());
    assert!(b.is_full());
    assert!(b.is_valid_simple());
    assert!(!b.is_valid());
}

#[test]
fn both_symbols_are_checked_in_every_row() {
    let b = Binox::new_from_string(".....ooo........".into());
    assert!(!b.is_valid_simple());
    assert!(!b.is_valid());
    let b = Binox::new_from_string("o...o...o.......".into());
    assert!(!b.is_valid_simple());
    let b = Binox::new_from_string("ooo.............".into());
    assert!(!b.is_valid());
}

#[test]
fn twin_lines_break_the_full_rule_only() {
    let b = Binox::new_from_string("xx..oo..xx..oo..".into());
    assert!(b.is_valid_simple());
    assert!(!b.is_valid());
    let b = Binox::new_from_string("xo..ox..xo..ox..".into());
    assert!(b.is_valid());
}

#[test]
fn twins_need_half_full_lines() {
    let b = Binox::new_from_string("x...x...........".into());
    assert!(b.is_valid());
    let b = Binox::new_from_string("x.x.x.x.........".into());
    assert!(!b.is_valid());
    assert!(b.is_valid_simple());
}

#[test]
fn text_and_board_go_round() {
    let text = "Xo.xoX..x..OO..x";
    let b = Binox::new_from_string(text.into());
    assert_eq!(b.size(), 4);
    assert_eq!(b.as_string(), text);
    assert!(b.is_default(0, 0).unwrap());
    assert!(!b.is_default(0, 1).unwrap());
    assert!(b.is_default(1, 1).unwrap());
    assert!(b.is_default(2, 3).unwrap());
    assert!(b.is_default(3, 0).unwrap());
    assert!(b.get_cell(2, 3).unwrap() == BinoxCell::O);
    let again = Binox::new_from_string(b.as_string());
    assert_eq!(again.as_string(), text);
    for row in 0..4u8 {
        for col in 0..4u8 {
            assert!(again.get_cell(row, col).unwrap() == b.get_cell(row, col).unwrap());
            assert_eq!(again.is_default(row, col).unwrap(), b.is_default(row, col).unwrap());
        }
    }
}

#[test]
fn boards_made_by_set_cell_go_round() {
    let mut b = Binox::new(6).unwrap();
    b.set_cell(0, 5, BinoxCell::X).unwrap();
    b.set_cell(5, 0, BinoxCell::O).unwrap();
    b.set_cell(3, 3, BinoxCell::X).unwrap();
    b.set_cell(3, 3, BinoxCell::O).unwrap();
    b.set_cell(2, 2, BinoxCell::X).unwrap();
    b.set_cell(2, 2, BinoxCell::EMPTY).unwrap();
    let text = b.as_string();
    let mut expected = vec!['.'; 36];
    expected[5] = 'x';
    expected[21] = 'o';
    expected[30] = 'o';
    assert_eq!(text, expected.iter().collect::<String>());
    let again = Binox::new_from_string(text.clone());
    assert_eq!(again.size(), 6);
    assert_eq!(again.as_string(), text);
}

#[test]
fn other_characters_decode_to_empty() {
    let b = Binox::new_from_string("x-o?Y0 \tXO*_ab#~".into());
    assert_eq!(b.as_string(), "x.o.....XO......");
}

#[test]
fn decoded_size_follows_the_length() {
    assert_eq!(Binox::new_from_string("".into()).size(), 4);
    assert_eq!(Binox::new_from_string("x".repeat(15)).size(), 4);
    assert_eq!(Binox::new_from_string("x".repeat(24)).size(), 4);
    assert_eq!(Binox::new_from_string("x".repeat(25)).size(), 6);
    assert_eq!(Binox::new_from_string("x".repeat(36)).size(), 6);
    assert_eq!(Binox::new_from_string("x".repeat(48)).size(), 6);
    assert_eq!(Binox::new_from_string("x".repeat(49)).size(), 8);
    assert_eq!(Binox::new_from_string("x".repeat(64)).size(), 8);
    assert_eq!(Binox::new_from_string("x".repeat(81)).size(), 10);
    assert_eq!(Binox::new_from_string("x".repeat(224)).size(), 14);
    assert_eq!(Binox::new_from_string("x".repeat(225)).size(), 16);
    assert_eq!(Binox::new_from_string("x".repeat(256)).size(), 16);
    assert_eq!(Binox::new_from_string("x".repeat(1000)).size(), 16);
}

#[test]
fn short_text_leaves_the_rest_empty_and_long_text_is_cut() {
    let b = Binox::new_from_string("xoX".into());
    assert_eq!(b.as_string(), "xoX.............");
    let b = Binox::new_from_string("xo.oxoOx.xoxoxo.XXXX".into());
    assert_eq!(b.size(), 4);
    assert_eq!(b.as_string(), "xo.oxoOx.xoxoxo.");
    let b = Binox::new_from_string("o".repeat(30));
    assert_eq!(b.size(), 6);
    assert_eq!(b.as_string(), format!("{}{}", "o".repeat(30), ".".repeat(6)));
}

#[test]
fn set_cell_writes_and_erases() {
    let mut b = Binox::new(4).unwrap();
    b.set_cell(1, 2, BinoxCell::X).unwrap();
    assert!(b.get_cell(1, 2).unwrap() == BinoxCell::X);
    assert_eq!(b.as_string(), "......x.........");
    b.set_cell(1, 2, BinoxCell::O).unwrap();
    assert!(b.get_cell(1, 2).unwrap() == BinoxCell::O);
    assert_eq!(b.as_string(), "......o.........");
    b.set_cell(1, 2, BinoxCell::EMPTY).unwrap();
    assert!(b.get_cell(1, 2).unwrap() == BinoxCell::EMPTY);
    assert_eq!(b.as_string(), "................");
}

#[test]
fn set_cell_refuses_cells_out_of_range() {
    let mut b = Binox::new(4).unwrap();
    assert_eq!(b.set_cell(4, 0, BinoxCell::X).unwrap_err(), "attempted to set cell out of range");
    assert_eq!(b.set_cell(0, 4, BinoxCell::O).unwrap_err(), "attempted to set cell out of range");
    assert_eq!(
        b.set_cell(200, 200, BinoxCell::EMPTY).unwrap_err(),
        "attempted to set cell out of range"
    );
    assert_eq!(b.as_string(), "................");
}

#[test]
fn set_cell_refuses_given_cells() {
    let mut b = Binox::new_from_string("X..o............".into());
    assert_eq!(b.set_cell(0, 0, BinoxCell::O).unwrap_err(), "this cell cannot be modified.");
    assert_eq!(b.set_cell(0, 0, BinoxCell::EMPTY).unwrap_err(), "this cell cannot be modified.");
    assert_eq!(b.set_cell(0, 0, BinoxCell::X).unwrap_err(), "this cell cannot be modified.");
    b.set_cell(0, 3, BinoxCell::X).unwrap();
    assert_eq!(b.as_string(), "X..x............");
}

#[test]
fn queries_refuse_cells_out_of_range() {
    let b = Binox::new(6).unwrap();
    assert_eq!(b.get_cell(6, 0).err(), Some("attempted to get cell out of range"));
    assert_eq!(b.get_cell(0, 6).err(), Some("attempted to get cell out of range"));
    assert_eq!(b.is_default(6, 0).err(), Some("attempted to get default out of range"));
    assert_eq!(b.is_default(0, 6).err(), Some("attempted to get default out of range"));
}

#[test]
fn reset_empties_what_is_not_given() {
    let mut b = Binox::new_from_string("XoxO.ox.O..xx..X".into());
    b.reset();
    assert_eq!(b.as_string(), "X..O....O......X");
    b.reset();
    assert_eq!(b.as_string(), "X..O....O......X");
}

#[test]
fn a_clone_is_independent() {
    let mut b = Binox::new_from_string("Xo..............".into());
    let kept = b.clone();
    b.set_cell(3, 3, BinoxCell::X).unwrap();
    assert_eq!(kept.as_string(), "Xo..............");
    assert_eq!(b.as_string(), "Xo.............x");
}

#[test]
fn cells_show_as_characters() {
    assert_eq!(char::from(BinoxCell::X), 'X');
    assert_eq!(char::from(BinoxCell::O), 'O');
    assert_eq!(char::from(BinoxCell::EMPTY), ' ');
}

#[test]
fn is_full_counts_both_symbols() {
    let mut b = Binox::new_from_string("xxooxoxooxoxoox.".into());
    assert!(!b.is_full());
    b.set_cell(3, 3, BinoxCell::O).unwrap();
    assert!(b.is_full());
    assert!(!b.is_valid());
    b.set_cell(3, 3, BinoxCell::X).unwrap();
    assert!(b.is_solved());
}

#[test]
fn half_full_lines_of_a_valid_board_differ() {
    let b = Binox::new_from_string("xxooxoxooxoxooxx".into());
    assert!(b.is_valid());
    let text = b.as_string();
    let rows: Vec<&str> = (0..4).map(|r| &text[4 * r..4 * r + 4]).collect();
    for i in 0..4 {
        for j in 0..4 {
            if i != j {
                assert_ne!(rows[i], rows[j]);
            }
        }
    }
    let cols: Vec<String> =
        (0..4).map(|c| rows.iter().map(|row| &row[c..c + 1]).collect::<String>()).collect();
    for i in 0..4 {
        for j in 0..4 {
            if i != j {
                assert_ne!(cols[i], cols[j]);
            }
        }
    }
}
