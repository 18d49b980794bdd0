//! The cost that annealing drives down: how many units repeat a digit.

use vstd::prelude::*;
use crate::grid::Cell;
use crate::rules::{
    col_cells, col_ok, complete, consistent, group_cells, group_ok, is_board, on_board, row_cells,
    row_ok, solved, well_formed, with_cell,
};
use crate::search::{at, extends, lists_empties};

verus! {

/// 1 for a unit that repeats a digit, 0 for one in order.
pub open spec fn penalty(ok: bool) -> int {
    if ok {
        0
    } else {
        1
    }
}

/// How many of the rows `0..n` repeat a digit.
pub open spec fn bad_rows(g: Seq<Seq<Cell>>, n: int) -> int
    decreases n,
{
    if n <= 0 {
        0
    } else {
        bad_rows(g, n - 1) + penalty(row_ok(g, n - 1))
    }
}

/// How many of the columns `0..n` repeat a digit.
pub open spec fn bad_cols(g: Seq<Seq<Cell>>, n: int) -> int
    decreases n,
{
    if n <= 0 {
        0
    } else {
        bad_cols(g, n - 1) + penalty(col_ok(g, n - 1))
    }
}

/// Whether group number `k` is in order, the groups counted row by row.
pub open spec fn nth_group_ok(g: Seq<Seq<Cell>>, k: int) -> bool {
    group_ok(g, k / 3, k % 3)
}

/// How many of the first `n` groups repeat a digit, the groups counted row
/// by row.
pub open spec fn bad_groups(g: Seq<Seq<Cell>>, n: int) -> int
    decreases n,
{
    if n <= 0 {
        0
    } else {
        bad_groups(g, n - 1) + penalty(nth_group_ok(g, n - 1))
    }
}

/// How many of the 27 units repeat a digit.
pub open spec fn invalid_units(g: Seq<Seq<Cell>>) -> int {
    bad_rows(g, 9) + bad_cols(g, 9) + bad_groups(g, 9)
}

/// How many of the three units through `(r, c)` repeat a digit.
pub open spec fn invalid_around(g: Seq<Seq<Cell>>, r: int, c: int) -> int {
    penalty(row_ok(g, r)) + penalty(col_ok(g, c)) + penalty(group_ok(g, r / 3, c / 3))
}

/// What writing `cell` at `(r, c)` adds to the cost.
pub open spec fn change(g: Seq<Seq<Cell>>, r: int, c: int, cell: Cell) -> int {
    invalid_units(with_cell(g, r, c, cell)) - invalid_units(g)
}

proof fn lemma_bad_rows(g: Seq<Seq<Cell>>, n: int)
    requires
        0 <= n <= 9,
    ensures
        0 <= bad_rows(g, n) <= n,
        bad_rows(g, n) == 0 <==> forall|r: int| 0 <= r < n ==> row_ok(g, r),
    decreases n,
{
    if n > 0 {
        lemma_bad_rows(g, n - 1);
    }
}

proof fn lemma_bad_cols(g: Seq<Seq<Cell>>, n: int)
    requires
        0 <= n <= 9,
    ensures
        0 <= bad_cols(g, n) <= n,
        bad_cols(g, n) == 0 <==> forall|c: int| 0 <= c < n ==> col_ok(g, c),
    decreases n,
{
    if n > 0 {
        lemma_bad_cols(g, n - 1);
    }
}

proof fn lemma_bad_groups(g: Seq<Seq<Cell>>, n: int)
    requires
        0 <= n <= 9,
    ensures
        0 <= bad_groups(g, n) <= n,
        bad_groups(g, n) == 0 <==> forall|k: int| 0 <= k < n ==> nth_group_ok(g, k),
    decreases n,
{
    if n > 0 {
        lemma_bad_groups(g, n - 1);
    }
}

/// The cost lies between 0 and 27, and it is 0 exactly on the boards on
/// which no unit repeats a digit.
pub proof fn lemma_cost_zero_iff_consistent(g: Seq<Seq<Cell>>)
    ensures
        0 <= invalid_units(g) <= 27,
        invalid_units(g) == 0 <==> consistent(g),
{
    lemma_bad_rows(g, 9);
    lemma_bad_cols(g, 9);
    lemma_bad_groups(g, 9);
    if invalid_units(g) == 0 {
        assert forall|gr: int, gc: int| 0 <= gr < 3 && 0 <= gc < 3 implies group_ok(g, gr, gc) by {
            let k = 3 * gr + gc;
            assert(k / 3 == gr && k % 3 == gc);
            assert(nth_group_ok(g, k));
        }
    }
    if consistent(g) {
        assert forall|k: int| 0 <= k < 9 implies nth_group_ok(g, k) by {
            assert(0 <= k / 3 < 3 && 0 <= k % 3 < 3);
        }
    }
}

proof fn lemma_bad_rows_change(g: Seq<Seq<Cell>>, r: int, c: int, cell: Cell, n: int)
    requires
        is_board(g),
        0 <= r < 9,
        0 <= c < 9,
        0 <= n <= 9,
    ensures
        bad_rows(with_cell(g, r, c, cell), n) - bad_rows(g, n) == if r < n {
            penalty(row_ok(with_cell(g, r, c, cell), r)) - penalty(row_ok(g, r))
        } else {
            0
        },
    decreases n,
{
    if n > 0 {
        lemma_bad_rows_change(g, r, c, cell, n - 1);
        let h = with_cell(g, r, c, cell);
        if n - 1 != r {
            assert(row_cells(h, n - 1) =~= row_cells(g, n - 1));
        }
    }
}

proof fn lemma_bad_cols_change(g: Seq<Seq<Cell>>, r: int, c: int, cell: Cell, n: int)
    requires
        is_board(g),
        0 <= r < 9,
        0 <= c < 9,
        0 <= n <= 9,
    ensures
        bad_cols(with_cell(g, r, c, cell), n) - bad_cols(g, n) == if c < n {
            penalty(col_ok(with_cell(g, r, c, cell), c)) - penalty(col_ok(g, c))
        } else {
            0
        },
    decreases n,
{
    if n > 0 {
        lemma_bad_cols_change(g, r, c, cell, n - 1);
        let h = with_cell(g, r, c, cell);
        if n - 1 != c {
            assert(col_cells(h, n - 1) =~= col_cells(g, n - 1));
        }
    }
}

proof fn lemma_bad_groups_change(g: Seq<Seq<Cell>>, r: int, c: int, cell: Cell, n: int)
    requires
        is_board(g),
        0 <= r < 9,
        0 <= c < 9,
        0 <= n <= 9,
    ensures
        bad_groups(with_cell(g, r, c, cell), n) - bad_groups(g, n) == if 3 * (r / 3) + c / 3 < n {
            penalty(group_ok(with_cell(g, r, c, cell), r / 3, c / 3)) - penalty(
                group_ok(g, r / 3, c / 3),
            )
        } else {
            0
        },
    decreases n,
{
    if n > 0 {
        lemma_bad_groups_change(g, r, c, cell, n - 1);
        let h = with_cell(g, r, c, cell);
        let k = n - 1;
        if k != 3 * (r / 3) + c / 3 {
            assert(k / 3 != r / 3 || k % 3 != c / 3);
            assert(group_cells(h, k / 3, k % 3) =~= group_cells(g, k / 3, k % 3));
        } else {
            assert(k / 3 == r / 3 && k % 3 == c / 3);
        }
    }
}

/// Writing a cell changes the cost by what it changes in the row, the
/// column and the group through that cell: no other unit is touched.
pub proof fn lemma_change_is_local(g: Seq<Seq<Cell>>, r: int, c: int, cell: Cell)
    requires
        is_board(g),
        0 <= r < 9,
        0 <= c < 9,
    ensures
        change(g, r, c, cell) == invalid_around(with_cell(g, r, c, cell), r, c) - invalid_around(
            g,
            r,
            c,
        ),
{
    lemma_bad_rows_change(g, r, c, cell, 9);
    lemma_bad_cols_change(g, r, c, cell, 9);
    lemma_bad_groups_change(g, r, c, cell, 9);
}

/// A move that finishes the puzzle never raises the cost, and leaves a
/// board of cost 0: such a move is always taken, and the run ends on it.
pub proof fn lemma_finishing_move_is_taken(g: Seq<Seq<Cell>>, r: int, c: int, cell: Cell)
    requires
        solved(with_cell(g, r, c, cell)),
    ensures
        change(g, r, c, cell) <= 0,
        invalid_units(with_cell(g, r, c, cell)) == 0,
{
    lemma_cost_zero_iff_consistent(g);
    lemma_cost_zero_iff_consistent(with_cell(g, r, c, cell));
}

/// The board `g` after `values[0]`, ..., `values[n - 1]` were written, in
/// this order, at `cells[0]`, ..., `cells[n - 1]`.
pub open spec fn filled_in(
    g: Seq<Seq<Cell>>,
    cells: Seq<(usize, usize)>,
    values: Seq<u8>,
    n: int,
) -> Seq<Seq<Cell>>
    decreases n,
{
    if n <= 0 {
        g
    } else {
        with_cell(
            filled_in(g, cells, values, n - 1),
            cells[n - 1].0 as int,
            cells[n - 1].1 as int,
            Cell::Digit(values[n - 1]),
        )
    }
}

/// Writing a well-formed cell keeps a board well formed.
pub(crate) proof fn lemma_with_cell_well_formed(g: Seq<Seq<Cell>>, r: int, c: int, cell: Cell)
    requires
        well_formed(g),
        0 <= r < 9,
        0 <= c < 9,
        cell.wf(),
    ensures
        well_formed(with_cell(g, r, c, cell)),
{
    let h = with_cell(g, r, c, cell);
    assert forall|r2: int, c2: int| 0 <= r2 < 9 && 0 <= c2 < 9 implies (#[trigger] h[r2][c2]).wf() by {
        if r2 != r || c2 != c {
            assert(h[r2][c2] == g[r2][c2]);
        }
    }
}

/// Writing a digit at a cell that the puzzle `g` leaves empty keeps a
/// board an extension of `g`.
pub(crate) proof fn lemma_with_cell_extends(
    s: Seq<Seq<Cell>>,
    g: Seq<Seq<Cell>>,
    r: int,
    c: int,
    cell: Cell,
)
    requires
        is_board(s),
        0 <= r < 9,
        0 <= c < 9,
        extends(s, g),
        g[r][c] is Empty,
    ensures
        extends(with_cell(s, r, c, cell), g),
{
    let h = with_cell(s, r, c, cell);
    assert forall|r2: int, c2: int| 0 <= r2 < 9 && 0 <= c2 < 9 && #[trigger] g[r2][c2] is Digit implies h[r2][c2]
        == g[r2][c2] by {
        assert(h[r2][c2] == s[r2][c2]);
    }
}

/// What the first `n` writes of [`filled_in`] leave behind when the cells
/// are on the board and the values are digits: a well-formed board that
/// shows a digit at each cell written to and is unchanged elsewhere.
pub(crate) proof fn lemma_filled_in_upto(
    g: Seq<Seq<Cell>>,
    cells: Seq<(usize, usize)>,
    values: Seq<u8>,
    n: int,
)
    requires
        well_formed(g),
        0 <= n <= cells.len(),
        cells.len() == values.len(),
        forall|k: int| 0 <= k < cells.len() ==> on_board(#[trigger] cells[k]),
        forall|k: int| 0 <= k < values.len() ==> 1 <= #[trigger] values[k] <= 9,
    ensures
        well_formed(filled_in(g, cells, values, n)),
        forall|k: int| 0 <= k < n ==> at(filled_in(g, cells, values, n), #[trigger] cells[k]) is Digit,
        forall|r: int, c: int|
            0 <= r < 9 && 0 <= c < 9 && !cells.take(n).contains((r as usize, c as usize))
                ==> #[trigger] filled_in(g, cells, values, n)[r][c] == g[r][c],
    decreases n,
{
    if n > 0 {
        lemma_filled_in_upto(g, cells, values, n - 1);
        let before = filled_in(g, cells, values, n - 1);
        let p = cells[n - 1];
        let cell = Cell::Digit(values[n - 1]);
        let after = filled_in(g, cells, values, n);
        assert(on_board(p));
        lemma_with_cell_well_formed(before, p.0 as int, p.1 as int, cell);
        assert forall|k: int| 0 <= k < n implies at(after, #[trigger] cells[k]) is Digit by {
            assert(on_board(cells[k]));
            if k < n - 1 && cells[k] != p {
                assert(at(after, cells[k]) == at(before, cells[k]));
            }
        }
        assert forall|r: int, c: int|
            0 <= r < 9 && 0 <= c < 9 && !cells.take(n).contains((r as usize, c as usize)) implies #[trigger] after[r][c]
            == g[r][c] by {
            let q = (r as usize, c as usize);
            assert(cells.take(n)[n - 1] == p);
            assert(q != p);
            let shorter = cells.take(n - 1);
            if shorter.contains(q) {
                let k = choose|k: int| 0 <= k < shorter.len() && shorter[k] == q;
                assert(cells.take(n)[k] == q);
            }
            assert(after[r][c] == before[r][c]);
        }
    }
}

/// Filling every empty cell of a puzzle with a digit gives a full,
/// well-formed board that keeps the puzzle's digits.
pub proof fn lemma_filled_in(g: Seq<Seq<Cell>>, cells: Seq<(usize, usize)>, values: Seq<u8>)
    requires
        well_formed(g),
        lists_empties(g, cells, 0),
        cells.len() == values.len(),
        forall|k: int| 0 <= k < values.len() ==> 1 <= #[trigger] values[k] <= 9,
    ensures
        well_formed(filled_in(g, cells, values, cells.len() as int)),
        complete(filled_in(g, cells, values, cells.len() as int)),
        extends(filled_in(g, cells, values, cells.len() as int), g),
{
    let n = cells.len() as int;
    let h = filled_in(g, cells, values, n);
    lemma_filled_in_upto(g, cells, values, n);
    assert(cells.take(n) =~= cells);
    assert forall|r: int, c: int| 0 <= r < 9 && 0 <= c < 9 implies #[trigger] h[r][c] is Digit by {
        let q = (r as usize, c as usize);
        if cells.contains(q) {
            let k = choose|k: int| 0 <= k < cells.len() && cells[k] == q;
            assert(at(h, cells[k]) is Digit);
        } else {
            assert(h[r][c] == g[r][c]);
            if g[r][c] is Empty {
                let k = choose|k: int| 0 <= k < cells.len() && cells[k] == q;
            }
        }
    }
    assert forall|r: int, c: int| 0 <= r < 9 && 0 <= c < 9 && #[trigger] g[r][c] is Digit implies h[r][c]
        == g[r][c] by {
        let q = (r as usize, c as usize);
        if cells.contains(q) {
            let k = choose|k: int| 0 <= k < cells.len() && cells[k] == q;
            assert(at(g, cells[k]) is Empty);
        }
    }
}

} // verus!
