use sudoku_solver_ed::grid::{Cell, Table};

const SOLVED: [[u8; 9]; 9] = [
    [4, 3, 5, 2, 6, 9, 7, 8, 1],
    [6, 8, 2, 5, 7, 1, 4, 9, 3],
    [1, 9, 7, 8, 3, 4, 5, 6, 2],
    [8, 2, 6, 1, 9, 5, 3, 4, 7],
    [3, 7, 4, 6, 8, 2, 9, 1, 5],
    [9, 5, 1, 7, 4, 3, 6, 2, 8],
    [5, 1, 9, 3, 2, 6, 8, 7, 4],
    [2, 4, 8, 9, 5, 7, 1, 3, 6],
    [7, 6, 3, 4, 1, 8, 2, 5, 9],
];

const PUZZLE: [[u8; 9]; 9] = [
    [0, 0, 0, 2, 6, 0, 7, 0, 1],
    [6, 8, 0, 0, 7, 0, 0, 9, 0],
    [1, 9, 0, 0, 0, 4, 5, 0, 0],
    [8, 2, 0, 1, 0, 0, 0, 4, 0],
    [0, 0, 4, 6, 0, 2, 9, 0, 0],
    [0, 5, 0, 0, 0, 3, 0, 2, 8],
    [0, 0, 9, 3, 0, 0, 0, 7, 4],
    [0, 4, 0, 0, 5, 0, 0, 3, 6],
    [7, 0, 3, 0, 1, 8, 0, 0, 0],
];

#[test]
fn empty_cells_come_in_row_major_order() {
    let t = Table::from_arr(PUZZLE);
    let cells = t.empty_cells();
    let filled = PUZZLE.iter().flatten().filter(|&&v| v != 0).count();
    assert_eq!(cells.len(), 81 - filled);
    assert_eq!(cells.len(), 45);
    for k in 1..cells.len() {
        assert!(9 * cells[k - 1].0 + cells[k - 1].1 < 9 * cells[k].0 + cells[k].1);
    }
    for &(r, c) in &cells {
        assert_eq!(PUZZLE[r][c], 0);
    }
    assert_eq!(&cells[..5], &[(0, 0), (0, 1), (0, 2), (0, 5), (0, 7)]);
}

#[test]
fn empty_cells_of_a_full_board_are_none() {
    assert!(Table::from_arr(SOLVED).empty_cells().is_empty());
}

#[test]
fn unit_with_at_most_one_digit_is_ok() {
    let mut t = Table::default();
    for i in 0..9 {
        assert!(t.row_is_ok(i));
        assert!(t.col_is_ok(i));
        assert!(t.group_is_ok(i / 3, i % 3));
    }
    t.grid[4][4] = Cell::Digit(9);
    assert!(t.row_is_ok(4));
    assert!(t.col_is_ok(4));
    assert!(t.group_is_ok(1, 1));
}

#[test]
fn unit_is_bad_exactly_when_a_digit_repeats() {
    let mut t = Table::default();
    t.grid[2][0] = Cell::Digit(7);
    t.grid[2][8] = Cell::Digit(7);
    assert!(!t.row_is_ok(2));
    assert!(t.col_is_ok(0));
    assert!(t.col_is_ok(8));
    assert!(t.group_is_ok(0, 0));
    assert!(t.group_is_ok(0, 2));
    t.grid[2][8] = Cell::Digit(6);
    assert!(t.row_is_ok(2));

    t.grid[0][5] = Cell::Digit(1);
    t.grid[8][5] = Cell::Digit(1);
    assert!(!t.col_is_ok(5));
    assert!(t.row_is_ok(0));
    assert!(t.row_is_ok(8));

    t.grid[6][6] = Cell::Digit(2);
    t.grid[8][8] = Cell::Digit(2);
    assert!(!t.group_is_ok(2, 2));
    assert!(t.row_is_ok(6));
    assert!(t.col_is_ok(6));
}

#[test]
fn group_covers_its_nine_cells() {
    for gr in 0..3 {
        for gc in 0..3 {
            for a in 0..9 {
                for b in (a + 1)..9 {
                    let mut t = Table::default();
                    t.grid[3 * gr + a / 3][3 * gc + a % 3] = Cell::Digit(5);
                    t.grid[3 * gr + b / 3][3 * gc + b % 3] = Cell::Digit(5);
                    for i in 0..3 {
                        for j in 0..3 {
                            assert_eq!(t.group_is_ok(i, j), (i, j) != (gr, gc));
                        }
                    }
                }
            }
        }
    }
}

#[test]
fn solved_needs_a_full_board_in_order() {
    let full = Table::from_arr(SOLVED);
    assert!(full.solved());

    let mut open = Table::from_arr(SOLVED);
    open.grid[8][8] = Cell::Empty;
    assert!(open.empty_cells().len() == 1);
    assert!(!open.solved());

    assert!(!Table::from_arr(PUZZLE).solved());
    assert!(!Table::default().solved());

    // Rows and columns in order, groups not.
    let mut shifted = [[0u8; 9]; 9];
    for r in 0..9 {
        for c in 0..9 {
            shifted[r][c] = ((r + c) % 9) as u8 + 1;
        }
    }
    let latin = Table::from_arr(shifted);
    for i in 0..9 {
        assert!(latin.row_is_ok(i));
        assert!(latin.col_is_ok(i));
    }
    assert!(!latin.group_is_ok(0, 0));
    assert!(!latin.solved());

    // A clash in one row and one column only.
    let mut swapped = SOLVED;
    swapped[0][0] = SOLVED[0][1];
    let clash = Table::from_arr(swapped);
    assert!(!clash.row_is_ok(0));
    assert!(!clash.solved());
}

#[test]
fn numbers_read_back_as_they_were_written() {
    for arr in [SOLVED, PUZZLE, [[0u8; 9]; 9]] {
        let t = Table::from_arr(arr);
        assert!(t.is_well_formed());
        assert_eq!(t.to_arr(), arr);
        for r in 0..9 {
            for c in 0..9 {
                assert_eq!(t.get(r, c).number(), arr[r][c]);
                let expected = if arr[r][c] == 0 { Cell::Empty } else { Cell::Digit(arr[r][c]) };
                assert_eq!(t.grid[r][c], expected);
            }
        }
        assert_eq!(Table::from_arr(t.to_arr()), t);
    }
}

#[test]
fn writing_to_a_copy_leaves_the_source() {
    let source = Table::from_arr(PUZZLE);
    let mut copy = source.clone();
    let mut other = Table::from(&source);
    assert_eq!(copy, source);
    assert_eq!(other, source);
    copy.set(0, 0, Cell::Digit(4));
    other.grid[8][8] = Cell::Digit(9);
    assert_eq!(source, Table::from_arr(PUZZLE));
    assert_eq!(source.grid[0][0], Cell::Empty);
    assert_eq!(copy.grid[0][0], Cell::Digit(4));
    assert_eq!(source.grid[8][8], Cell::Empty);
    assert_eq!(other.grid[8][8], Cell::Digit(9));
}

#[test]
fn set_and_get_touch_one_cell() {
    let mut t = Table::from_arr(SOLVED);
    t.set(3, 7, Cell::Empty);
    for r in 0..9 {
        for c in 0..9 {
            let expected = if (r, c) == (3, 7) { Cell::Empty } else { Cell::Digit(SOLVED[r][c]) };
            assert_eq!(t.get(r, c), expected);
        }
    }
}

#[test]
fn well_formedness_is_told() {
    assert!(Table::default().is_well_formed());
    let mut t = Table::from_arr(SOLVED);
    assert!(t.is_well_formed());
    t.grid[5][5] = Cell::Digit(0);
    assert!(!t.is_well_formed());
    t.grid[5][5] = Cell::Digit(10);
    assert!(!t.is_well_formed());
    t.grid[5][5] = Cell::Digit(9);
    assert!(t.is_well_formed());
}

#[test]
fn default_cell_is_empty() {
    assert_eq!(Cell::default(), Cell::Empty);
    assert_eq!(Cell::Empty.number(), 0);
    assert_eq!(Cell::Digit(7).number(), 7);
}
