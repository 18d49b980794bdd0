//! The 9x9 board and its constraint checks.

use vstd::prelude::*;
use crate::rules::{
    col_cells, col_ok, distinct_digits, empty_at, empty_positions, filled_count, group_cells,
    group_ok, lemma_complete_iff_no_empty_positions, lemma_empty_positions, lemma_filter_nothing,
    on_board, positions, rank, row_cells, row_ok, solved, well_formed, with_cell,
};

verus! {

/// One position of the board: a digit from 1 to 9, or nothing yet.
#[derive(Clone, Copy, PartialEq, Eq, Structural, Debug)]
pub enum Cell {
    Digit(u8),
    Empty,
}

impl Cell {
    /// A digit lies between 1 and 9.
    pub open spec fn wf(self) -> bool {
        match self {
            Cell::Digit(d) => 1 <= d <= 9,
            Cell::Empty => true,
        }
    }

    /// The number a cell is written as: its digit, or 0 when it is empty.
    pub open spec fn value(self) -> u8 {
        match self {
            Cell::Digit(d) => d,
            Cell::Empty => 0,
        }
    }

    /// The cell that the number `v` is read as: empty for 0, else the digit.
    pub open spec fn of_value(v: u8) -> Cell {
        if v == 0 {
            Cell::Empty
        } else {
            Cell::Digit(v)
        }
    }

    /// The number the cell is written as: its digit, or 0 when it is empty.
    pub fn number(self) -> (v: u8)
        ensures
            v == self.value(),
    {
        match self {
            Cell::Digit(d) => d,
            Cell::Empty => 0,
        }
    }
}

impl Default for Cell {
    fn default() -> (cell: Cell)
        ensures
            cell == Cell::Empty,
    {
        Cell::Empty
    }
}

/// Reading a number as a cell and writing the cell as a number gives the
/// number back.
pub proof fn lemma_number_round_trip(v: u8)
    ensures
        Cell::of_value(v).value() == v,
        v <= 9 ==> Cell::of_value(v).wf(),
{
}

/// Writing a well-formed cell as a number and reading the number as a
/// cell gives the cell back.
pub proof fn lemma_cell_round_trip(cell: Cell)
    requires
        cell.wf(),
    ensures
        Cell::of_value(cell.value()) == cell,
        cell.value() <= 9,
{
}

/// A 9x9 board, row-major, rows and columns numbered from 0.
///
/// The board is a plain container: it may hold clashing digits. Whether it
/// does is asked with [`Table::row_is_ok`], [`Table::col_is_ok`],
/// [`Table::group_is_ok`] and [`Table::solved`].
#[derive(Debug, PartialEq, Eq)]
pub struct Table {
    pub grid: [[Cell; 9]; 9],
}

impl View for Table {
    type V = Seq<Seq<Cell>>;

    open spec fn view(&self) -> Seq<Seq<Cell>> {
        Seq::new(9, |r: int| self.grid[r]@)
    }
}

/// Whether digit `k` is in the presence set.
spec fn has_bit(mask: u16, k: u8) -> bool {
    mask & (1u16 << (k as u16)) != 0
}

/// The presence set holds exactly the digits that `cells` show.
spec fn records(mask: u16, cells: Seq<Cell>) -> bool {
    forall|k: u8| 1 <= k <= 9 ==> (#[trigger] has_bit(mask, k) <==> cells.contains(Cell::Digit(k)))
}

proof fn lemma_raise_bit(mask: u16, d: u16, k: u16)
    by (bit_vector)
    requires
        d < 16,
        k < 16,
    ensures
        ((mask | (1u16 << d)) & (1u16 << k) != 0) == (k == d || (mask & (1u16 << k)) != 0),
{
}

proof fn lemma_no_bit(k: u16)
    by (bit_vector)
    requires
        k < 16,
    ensures
        0u16 & (1u16 << k) == 0,
{
}

proof fn lemma_records_nothing()
    ensures
        records(0, Seq::empty()),
{
    assert forall|k: u8| 1 <= k <= 9 implies (#[trigger] has_bit(0, k) <==> Seq::<Cell>::empty().contains(
        Cell::Digit(k),
    )) by {
        lemma_no_bit(k as u16);
    }
}

/// Adds `cell` to the digits seen so far. `None` when its digit was seen
/// before.
fn mark(seen: u16, cell: Cell, Ghost(before): Ghost<Seq<Cell>>) -> (next: Option<u16>)
    requires
        cell.wf(),
        records(seen, before),
        distinct_digits(before),
    ensures
        match next {
            Some(mask) => records(mask, before.push(cell)) && distinct_digits(before.push(cell)),
            None => !distinct_digits(before.push(cell)),
        },
{
    let ghost after = before.push(cell);
    match cell {
        Cell::Empty => {
            proof {
                assert forall|k: u8| 1 <= k <= 9 implies (#[trigger] has_bit(seen, k)
                    <==> after.contains(Cell::Digit(k))) by {
                    if after.contains(Cell::Digit(k)) {
                        let i = choose|i: int| 0 <= i < after.len() && after[i] == Cell::Digit(k);
                        assert(before[i] == Cell::Digit(k));
                    }
                    if before.contains(Cell::Digit(k)) {
                        let i = choose|i: int| 0 <= i < before.len() && before[i] == Cell::Digit(k);
                        assert(after[i] == Cell::Digit(k));
                    }
                }
            }
            Some(seen)
        },
        Cell::Digit(d) => {
            let bit: u16 = 1u16 << (d as u16);
            if seen & bit != 0 {
                proof {
                    assert(has_bit(seen, d));
                    let i = choose|i: int| 0 <= i < before.len() && before[i] == Cell::Digit(d);
                    assert(after[i] == after[before.len() as int]);
                }
                None
            } else {
                proof {
                    assert(!has_bit(seen, d));
                    assert forall|k: u8| 1 <= k <= 9 implies (#[trigger] has_bit(seen | bit, k)
                        <==> after.contains(Cell::Digit(k))) by {
                        lemma_raise_bit(seen, d as u16, k as u16);
                        assert(bit == 1u16 << (d as u16));
                        assert(has_bit(seen | bit, k) == (k == d || has_bit(seen, k)));
                        assert(has_bit(seen, k) <==> before.contains(Cell::Digit(k)));
                        if after.contains(Cell::Digit(k)) {
                            let i = choose|i: int| 0 <= i < after.len() && after[i] == Cell::Digit(k);
                            if i < before.len() {
                                assert(before[i] == Cell::Digit(k));
                            }
                        }
                        if before.contains(Cell::Digit(k)) {
                            let i = choose|i: int|
                                0 <= i < before.len() && before[i] == Cell::Digit(k);
                            assert(after[i] == Cell::Digit(k));
                        }
                        if k == d {
                            assert(after[before.len() as int] == Cell::Digit(k));
                        }
                    }
                    assert forall|i: int, j: int|
                        0 <= i < j < after.len() && after[i] is Digit implies after[i] != after[j] by {
                        if j == before.len() {
                            assert(before[i] == after[i]);
                            if before[i] == Cell::Digit(d) {
                                assert(before.contains(Cell::Digit(d)));
                            }
                        } else {
                            assert(before[i] == after[i] && before[j] == after[j]);
                        }
                    }
                }
                Some(seen | bit)
            }
        },
    }
}

impl Table {
    /// Every digit on the board lies between 1 and 9.
    pub open spec fn wf(&self) -> bool {
        well_formed(self@)
    }

    /// Whether every digit on the board lies between 1 and 9.
    pub fn is_well_formed(&self) -> (ok: bool)
        ensures
            ok == self.wf(),
    {
        for r in 0..9usize
            invariant
                forall|i: int, j: int| 0 <= i < r && 0 <= j < 9 ==> (#[trigger] self@[i][j]).wf(),
        {
            for c in 0..9usize
                invariant
                    r < 9,
                    forall|i: int, j: int|
                        0 <= i < r && 0 <= j < 9 ==> (#[trigger] self@[i][j]).wf(),
                    forall|j: int| 0 <= j < c ==> (#[trigger] self@[r as int][j]).wf(),
            {
                match self.grid[r][c] {
                    Cell::Empty => {},
                    Cell::Digit(d) => {
                        if d < 1 || d > 9 {
                            assert(!self@[r as int][c as int].wf());
                            return false;
                        }
                    },
                }
            }
        }
        true
    }

    /// A board with the given cells.
    pub fn new(grid: [[Cell; 9]; 9]) -> (t: Table)
        ensures
            t.grid == grid,
    {
        Table { grid }
    }

    /// A copy of `other` with a life of its own.
    pub fn from(other: &Table) -> (t: Table)
        ensures
            t == *other,
    {
        other.clone()
    }

    /// Reads a board from numbers: 0 is an empty cell, 1 to 9 a digit.
    pub fn from_arr(arr: [[u8; 9]; 9]) -> (t: Table)
        requires
            forall|r: int, c: int| 0 <= r < 9 && 0 <= c < 9 ==> #[trigger] arr[r][c] <= 9,
        ensures
            t.wf(),
            forall|r: int, c: int|
                0 <= r < 9 && 0 <= c < 9 ==> #[trigger] t@[r][c] == Cell::of_value(arr[r][c]),
    {
        let mut grid: [[Cell; 9]; 9] = [[Cell::Empty; 9]; 9];
        for i in 0..9usize
            invariant
                forall|r: int, c: int| 0 <= r < 9 && 0 <= c < 9 ==> #[trigger] arr[r][c] <= 9,
                forall|r: int, c: int|
                    0 <= r < i && 0 <= c < 9 ==> #[trigger] grid[r][c] == Cell::of_value(arr[r][c]),
        {
            for j in 0..9usize
                invariant
                    i < 9,
                    forall|r: int, c: int| 0 <= r < 9 && 0 <= c < 9 ==> #[trigger] arr[r][c] <= 9,
                    forall|r: int, c: int|
                        0 <= r < i && 0 <= c < 9 ==> #[trigger] grid[r][c] == Cell::of_value(
                            arr[r][c],
                        ),
                    forall|c: int|
                        0 <= c < j ==> #[trigger] grid[i as int][c] == Cell::of_value(
                            arr[i as int][c],
                        ),
            {
                if arr[i][j] == 0 {
                    grid[i][j] = Cell::Empty;
                } else {
                    grid[i][j] = Cell::Digit(arr[i][j]);
                }
            }
        }
        Table { grid }
    }

    /// Writes the board as numbers: 0 for an empty cell, else the digit.
    pub fn to_arr(&self) -> (arr: [[u8; 9]; 9])
        ensures
            forall|r: int, c: int|
                0 <= r < 9 && 0 <= c < 9 ==> #[trigger] arr[r][c] == self@[r][c].value(),
    {
        let mut arr: [[u8; 9]; 9] = [[0u8; 9]; 9];
        for i in 0..9usize
            invariant
                forall|r: int, c: int|
                    0 <= r < i && 0 <= c < 9 ==> #[trigger] arr[r][c] == self@[r][c].value(),
        {
            for j in 0..9usize
                invariant
                    i < 9,
                    forall|r: int, c: int|
                        0 <= r < i && 0 <= c < 9 ==> #[trigger] arr[r][c] == self@[r][c].value(),
                    forall|c: int|
                        0 <= c < j ==> #[trigger] arr[i as int][c] == self@[i as int][c].value(),
            {
                arr[i][j] = self.grid[i][j].number();
            }
        }
        arr
    }

    /// The cell at row `r`, column `c`.
    pub fn get(&self, r: usize, c: usize) -> (cell: Cell)
        requires
            r < 9,
            c < 9,
        ensures
            cell == self@[r as int][c as int],
    {
        self.grid[r][c]
    }

    /// Writes `cell` at row `r`, column `c`.
    pub fn set(&mut self, r: usize, c: usize, cell: Cell)
        requires
            r < 9,
            c < 9,
        ensures
            final(self)@ == with_cell(old(self)@, r as int, c as int, cell),
    {
        self.grid[r][c] = cell;
    }

    /// Whether no digit shows twice in row `r`.
    pub fn row_is_ok(&self, r: usize) -> (ok: bool)
        requires
            self.wf(),
            r < 9,
        ensures
            ok == row_ok(self@, r as int),
    {
        let ghost unit = row_cells(self@, r as int);
        let mut seen: u16 = 0;
        proof {
            lemma_records_nothing();
            assert(unit.take(0) =~= Seq::empty());
        }
        for c in 0..9usize
            invariant
                self.wf(),
                r < 9,
                unit == row_cells(self@, r as int),
                records(seen, unit.take(c as int)),
                distinct_digits(unit.take(c as int)),
        {
            proof {
                assert(unit.take(c + 1) =~= unit.take(c as int).push(unit[c as int]));
            }
            match mark(seen, self.grid[r][c], Ghost(unit.take(c as int))) {
                None => {
                    proof {
                        lemma_repeat_in_prefix(unit, c + 1);
                    }
                    return false;
                },
                Some(mask) => {
                    seen = mask;
                },
            }
        }
        proof {
            assert(unit.take(9) =~= unit);
        }
        true
    }

    /// Whether no digit shows twice in column `c`.
    pub fn col_is_ok(&self, c: usize) -> (ok: bool)
        requires
            self.wf(),
            c < 9,
        ensures
            ok == col_ok(self@, c as int),
    {
        let ghost unit = col_cells(self@, c as int);
        let mut seen: u16 = 0;
        proof {
            lemma_records_nothing();
            assert(unit.take(0) =~= Seq::empty());
        }
        for r in 0..9usize
            invariant
                self.wf(),
                c < 9,
                unit == col_cells(self@, c as int),
                records(seen, unit.take(r as int)),
                distinct_digits(unit.take(r as int)),
        {
            proof {
                assert(unit.take(r + 1) =~= unit.take(r as int).push(unit[r as int]));
            }
            match mark(seen, self.grid[r][c], Ghost(unit.take(r as int))) {
                None => {
                    proof {
                        lemma_repeat_in_prefix(unit, r + 1);
                    }
                    return false;
                },
                Some(mask) => {
                    seen = mask;
                },
            }
        }
        proof {
            assert(unit.take(9) =~= unit);
        }
        true
    }

    /// Whether no digit shows twice in the 3x3 group at group-row `gr`,
    /// group-column `gc`:
    ///
    /// ```text
    /// (0,0) | (0,1) | (0,2)
    /// ------|-------|------
    /// (1,0) | (1,1) | (1,2)
    /// ------|-------|------
    /// (2,0) | (2,1) | (2,2)
    /// ```
    pub fn group_is_ok(&self, gr: usize, gc: usize) -> (ok: bool)
        requires
            self.wf(),
            gr <= 2,
            gc <= 2,
        ensures
            ok == group_ok(self@, gr as int, gc as int),
    {
        let ghost unit = group_cells(self@, gr as int, gc as int);
        let mut seen: u16 = 0;
        proof {
            lemma_records_nothing();
            assert(unit.take(0) =~= Seq::empty());
        }
        for i in 0..3usize
            invariant
                self.wf(),
                gr <= 2,
                gc <= 2,
                unit == group_cells(self@, gr as int, gc as int),
                records(seen, unit.take(3 * i)),
                distinct_digits(unit.take(3 * i)),
        {
            for j in 0..3usize
                invariant
                    self.wf(),
                    gr <= 2,
                    gc <= 2,
                    i < 3,
                    unit == group_cells(self@, gr as int, gc as int),
                    records(seen, unit.take(3 * i + j)),
                    distinct_digits(unit.take(3 * i + j)),
            {
                let ghost k = 3 * i + j;
                proof {
                    assert(k / 3 == i && k % 3 == j);
                    assert(unit.take(k + 1) =~= unit.take(k).push(unit[k]));
                }
                match mark(seen, self.grid[3 * gr + i][3 * gc + j], Ghost(unit.take(k))) {
                    None => {
                        proof {
                            lemma_repeat_in_prefix(unit, k + 1);
                        }
                        return false;
                    },
                    Some(mask) => {
                        seen = mask;
                    },
                }
            }
        }
        proof {
            assert(unit.take(9) =~= unit);
        }
        true
    }

    /// The positions of the empty cells, row by row, each row left to
    /// right.
    pub fn empty_cells(&self) -> (cells: Vec<(usize, usize)>)
        ensures
            cells@ == empty_positions(self@),
            cells@.len() == 81 - filled_count(self@),
            forall|k: int|
                0 <= k < cells@.len() ==> on_board(#[trigger] cells@[k])
                    && self@[cells@[k].0 as int][cells@[k].1 as int] is Empty,
            forall|r: int, c: int|
                0 <= r < 9 && 0 <= c < 9 && #[trigger] self@[r][c] is Empty ==> cells@.contains(
                    (r as usize, c as usize),
                ),
            forall|j: int, k: int|
                0 <= j < k < cells@.len() ==> rank(#[trigger] cells@[j]) < rank(#[trigger] cells@[k]),
    {
        let mut res: Vec<(usize, usize)> = Vec::new();
        proof {
            assert(positions().take(0) =~= Seq::empty());
            lemma_filter_nothing(empty_at(self@));
        }
        for r in 0..9usize
            invariant
                res@ == positions().take(9 * r).filter(empty_at(self@)),
        {
            for c in 0..9usize
                invariant
                    r < 9,
                    res@ == positions().take(9 * r + c).filter(empty_at(self@)),
            {
                let ghost k = 9 * r + c;
                proof {
                    assert(positions()[k] == (r, c));
                    assert(positions().take(k + 1) =~= positions().take(k).push((r, c)));
                    positions().take(k).lemma_filter_push((r, c), empty_at(self@));
                }
                if self.grid[r][c] == Cell::Empty {
                    res.push((r, c));
                }
            }
        }
        proof {
            assert(positions().take(81) =~= positions());
            lemma_empty_positions(self@);
        }
        res
    }

    /// Whether the puzzle is finished: no unit repeats a digit and no cell
    /// is empty.
    pub fn solved(&self) -> (done: bool)
        requires
            self.wf(),
        ensures
            done == solved(self@),
    {
        for i in 0..9usize
            invariant
                self.wf(),
                forall|k: int| 0 <= k < i ==> row_ok(self@, k) && col_ok(self@, k),
        {
            if !self.row_is_ok(i) || !self.col_is_ok(i) {
                return false;
            }
        }
        for gr in 0..3usize
            invariant
                self.wf(),
                forall|k: int| 0 <= k < 9 ==> row_ok(self@, k) && col_ok(self@, k),
                forall|a: int, b: int| 0 <= a < gr && 0 <= b < 3 ==> group_ok(self@, a, b),
        {
            for gc in 0..3usize
                invariant
                    self.wf(),
                    gr < 3,
                    forall|k: int| 0 <= k < 9 ==> row_ok(self@, k) && col_ok(self@, k),
                    forall|a: int, b: int| 0 <= a < gr && 0 <= b < 3 ==> group_ok(self@, a, b),
                    forall|b: int| 0 <= b < gc ==> group_ok(self@, gr as int, b),
            {
                if !self.group_is_ok(gr, gc) {
                    return false;
                }
            }
        }
        let empties = self.empty_cells();
        proof {
            lemma_complete_iff_no_empty_positions(self@);
        }
        empties.is_empty()
    }
}

/// A repeat among the first `n` cells is a repeat of the whole unit.
proof fn lemma_repeat_in_prefix(unit: Seq<Cell>, n: int)
    requires
        0 <= n <= unit.len(),
        !distinct_digits(unit.take(n)),
    ensures
        !distinct_digits(unit),
{
    let p = unit.take(n);
    let (i, j) = choose|i: int, j: int| 0 <= i < j < p.len() && p[i] is Digit && p[i] == p[j];
    assert(unit[i] == p[i] && unit[j] == p[j]);
}

/// A board read from numbers and written back as numbers gives the
/// numbers it was read from.
pub proof fn lemma_from_arr_round_trip(arr: [[u8; 9]; 9], t: Table, back: [[u8; 9]; 9])
    requires
        forall|r: int, c: int|
            0 <= r < 9 && 0 <= c < 9 ==> #[trigger] t@[r][c] == Cell::of_value(arr[r][c]),
        forall|r: int, c: int|
            0 <= r < 9 && 0 <= c < 9 ==> #[trigger] back[r][c] == t@[r][c].value(),
    ensures
        back == arr,
{
    assert forall|r: int| 0 <= r < 9 implies back[r] == arr[r] by {
        assert forall|c: int| 0 <= c < 9 implies back[r][c] == arr[r][c] by {
            assert(t@[r][c] == Cell::of_value(arr[r][c]));
            lemma_number_round_trip(arr[r][c]);
        }
        assert(back[r] =~= arr[r]);
    }
    assert(back =~= arr);
}

/// A well-formed board written as numbers and read back gives the same
/// board.
pub proof fn lemma_to_arr_round_trip(t: Table, arr: [[u8; 9]; 9], back: Table)
    requires
        t.wf(),
        forall|r: int, c: int|
            0 <= r < 9 && 0 <= c < 9 ==> #[trigger] arr[r][c] == t@[r][c].value(),
        forall|r: int, c: int|
            0 <= r < 9 && 0 <= c < 9 ==> #[trigger] back@[r][c] == Cell::of_value(arr[r][c]),
    ensures
        back@ == t@,
        back == t,
{
    assert forall|r: int| 0 <= r < 9 implies back.grid[r] == t.grid[r] by {
        assert forall|c: int| 0 <= c < 9 implies back.grid[r][c] == t.grid[r][c] by {
            assert(back@[r][c] == Cell::of_value(arr[r][c]));
            assert(t@[r][c].wf());
            lemma_cell_round_trip(t@[r][c]);
        }
        assert(back.grid[r] =~= t.grid[r]);
    }
    assert(back.grid =~= t.grid);
    assert(back@ =~~= t@);
}

impl Default for Table {
    /// The board with every cell empty.
    fn default() -> (t: Table)
        ensures
            t.wf(),
            forall|r: int, c: int| 0 <= r < 9 && 0 <= c < 9 ==> #[trigger] t@[r][c] == Cell::Empty,
    {
        Table { grid: [[Cell::Empty; 9]; 9] }
    }
}

impl Clone for Table {
    fn clone(&self) -> (t: Table)
        ensures
            t == *self,
    {
        Table { grid: self.grid }
    }
}

} // verus!
