use sudoku_solver_ed::grid::Table;
use sudoku_solver_ed::text::parse_row;

const FORMAT: &str = "Please follow input format.";

#[test]
fn row_of_nine_numbers_is_read() {
    assert_eq!(parse_row(b"4 3 5 2 6 9 7 8 1\n"), Ok([4, 3, 5, 2, 6, 9, 7, 8, 1]));
    assert_eq!(parse_row(b"0 0 0 0 0 0 0 0 0"), Ok([0; 9]));
}

#[test]
fn ascii_white_space_separates() {
    assert_eq!(
        parse_row(b"  1\t2\r\n3 \x0b4\x0c5   6 7 8 9 \r\n"),
        Ok([1, 2, 3, 4, 5, 6, 7, 8, 9])
    );
}

#[test]
fn unicode_white_space_separates() {
    let line = "1\u{a0}2\u{2003}3\u{3000}4 5\u{85}6\u{1680}7\u{2028}8\u{205f}9\u{2029}\u{202f}\u{2000}\u{200a}";
    assert_eq!(parse_row(line.as_bytes()), Ok([1, 2, 3, 4, 5, 6, 7, 8, 9]));
    let nbsp = "4\u{a0}3\u{a0}5\u{a0}2\u{a0}6\u{a0}9\u{a0}7\u{a0}8\u{a0}1";
    assert_eq!(parse_row(nbsp.as_bytes()), Ok([4, 3, 5, 2, 6, 9, 7, 8, 1]));
    for c in '\u{0}'..='\u{3100}' {
        let text = format!("1 2 3 4 5 6 7 8{}9", c);
        let split: Vec<&str> = text.split_whitespace().collect();
        let expected = split.len() == 9 && split[8] == "9" && split[7] == "8";
        assert_eq!(parse_row(text.as_bytes()).is_ok(), expected, "{:?}", c);
    }
}

#[test]
fn bytes_that_only_begin_white_space_are_no_separator() {
    assert_eq!(parse_row(b"1 2 3 4 5 6 7 8\xc2\x859"), Ok([1, 2, 3, 4, 5, 6, 7, 8, 9]));
    assert_eq!(parse_row(b"1 2 3 4 5 6 7 8\xc2\x869"), Err(FORMAT));
    assert_eq!(parse_row(b"1 2 3 4 5 6 7 8 9\xc2"), Err(FORMAT));
    assert_eq!(parse_row(b"1 2 3 4 5 6 7 8 9\xe2\x80"), Err(FORMAT));
    assert_eq!(parse_row(b"1 2 3 4 5 6 7 8 9\xe2\x80\x8b"), Err(FORMAT));
    assert_eq!(parse_row(b"1 2 3 4 5 6 7 8 9\xe2\x80\x8a"), Ok([1, 2, 3, 4, 5, 6, 7, 8, 9]));
}

#[test]
fn plus_sign_and_leading_zeros_are_read() {
    assert_eq!(parse_row(b"+1 02 003 +04 5 6 7 8 +0"), Ok([1, 2, 3, 4, 5, 6, 7, 8, 0]));
}

#[test]
fn wrong_count_is_refused() {
    assert_eq!(parse_row(b""), Err(FORMAT));
    assert_eq!(parse_row(b"\n"), Err(FORMAT));
    assert_eq!(parse_row(b"1 2 3 4 5 6 7 8"), Err(FORMAT));
    assert_eq!(parse_row(b"1 2 3 4 5 6 7 8 9 1"), Err(FORMAT));
    assert_eq!(parse_row(b"123456789"), Err(FORMAT));
}

#[test]
fn token_that_is_no_number_is_refused() {
    assert_eq!(parse_row(b"1 2 x 4 5 6 7 8 9"), Err(FORMAT));
    assert_eq!(parse_row(b"1 2 x 3 4 5 6 7 8 9"), Err(FORMAT));
    assert_eq!(parse_row(b"1 2 3 4 5 6 7 8 +"), Err(FORMAT));
    assert_eq!(parse_row(b"1 2 3 4 5 6 7 8 -9"), Err(FORMAT));
    assert_eq!(parse_row(b"1 2 3 4 5 6 7 8 9."), Err(FORMAT));
    assert_eq!(parse_row(b"1 2 3 4 5 6 7 8 ++9"), Err(FORMAT));
    assert_eq!(parse_row(b"1,2 3 4 5 6 7 8 9 1"), Err(FORMAT));
}

#[test]
fn number_above_nine_is_refused() {
    assert_eq!(parse_row(b"1 2 3 4 5 6 7 8 10"), Err(FORMAT));
    assert_eq!(parse_row(b"1 2 3 4 5 6 7 8 256"), Err(FORMAT));
    assert_eq!(parse_row(b"1 2 3 4 5 6 7 8 090"), Err(FORMAT));
    assert_eq!(parse_row(b"1 2 3 4 5 6 7 8 99999999999999999999999"), Err(FORMAT));
}

#[test]
fn board_is_drawn_row_by_row() {
    let mut arr = [[0u8; 9]; 9];
    arr[0] = [4, 3, 5, 2, 6, 9, 7, 8, 1];
    arr[8][8] = 9;
    let text = String::from_utf8(Table::from_arr(arr).render()).unwrap();
    let rule = "-----------------------------------\n";
    let empty = " 0 | 0 | 0 | 0 | 0 | 0 | 0 | 0 | 0 \n";
    let mut expected = String::new();
    expected += " 4 | 3 | 5 | 2 | 6 | 9 | 7 | 8 | 1 \n";
    expected += rule;
    for _ in 1..8 {
        expected += empty;
        expected += rule;
    }
    expected += " 0 | 0 | 0 | 0 | 0 | 0 | 0 | 0 | 9 \n";
    expected += rule;
    assert_eq!(text, expected);
    assert_eq!(text.len(), 648);
}

#[test]
fn drawn_numbers_are_read_back() {
    let arr = [
        [0, 0, 0, 2, 6, 0, 7, 0, 1],
        [6, 8, 0, 0, 7, 0, 0, 9, 0],
        [1, 9, 0, 0, 0, 4, 5, 0, 0],
        [8, 2, 0, 1, 0, 0, 0, 4, 0],
        [0, 0, 4, 6, 0, 2, 9, 0, 0],
        [0, 5, 0, 0, 0, 3, 0, 2, 8],
        [0, 0, 9, 3, 0, 0, 0, 7, 4],
        [0, 4, 0, 0, 5, 0, 0, 3, 6],
        [7, 0, 3, 0, 1, 8, 0, 0, 0],
    ];
    let text = String::from_utf8(Table::from_arr(arr).render()).unwrap();
    let mut rows = Vec::new();
    for line in text.lines().step_by(2) {
        rows.push(parse_row(line.replace('|', " ").as_bytes()).unwrap());
    }
    assert_eq!(rows.len(), 9);
    for r in 0..9 {
        assert_eq!(rows[r], arr[r]);
    }
}
