//! The board as a mathematical value, and the rules of the game stated on it.
//!
//! A board is a `Seq<Seq<Cell>>` of nine rows of nine cells. Everything the
//! executable code promises is phrased with the functions of this module.

use vstd::prelude::*;
use crate::grid::Cell;

verus! {

/// Nine rows of nine cells.
pub open spec fn is_board(g: Seq<Seq<Cell>>) -> bool {
    &&& g.len() == 9
    &&& forall|r: int| 0 <= r < 9 ==> (#[trigger] g[r]).len() == 9
}

/// A board whose digits all lie between 1 and 9.
pub open spec fn well_formed(g: Seq<Seq<Cell>>) -> bool {
    &&& is_board(g)
    &&& forall|r: int, c: int| 0 <= r < 9 && 0 <= c < 9 ==> (#[trigger] g[r][c]).wf()
}

/// The cells of row `r`, left to right.
pub open spec fn row_cells(g: Seq<Seq<Cell>>, r: int) -> Seq<Cell> {
    Seq::new(9, |k: int| g[r][k])
}

/// The cells of column `c`, top to bottom.
pub open spec fn col_cells(g: Seq<Seq<Cell>>, c: int) -> Seq<Cell> {
    Seq::new(9, |k: int| g[k][c])
}

/// The cells of the 3x3 group in group-row `gr` and group-column `gc`,
/// row by row.
pub open spec fn group_cells(g: Seq<Seq<Cell>>, gr: int, gc: int) -> Seq<Cell> {
    Seq::new(9, |k: int| g[3 * gr + k / 3][3 * gc + k % 3])
}

/// No digit shows at two places of the unit. Empty cells never clash.
pub open spec fn distinct_digits(unit: Seq<Cell>) -> bool {
    forall|i: int, j: int|
        0 <= i < j < unit.len() && unit[i] is Digit ==> unit[i] != unit[j]
}

/// Some digit shows at two places of the unit.
pub open spec fn has_repeat(unit: Seq<Cell>) -> bool {
    exists|i: int, j: int|
        0 <= i < j < unit.len() && unit[i] is Digit && unit[i] == unit[j]
}

/// How many cells of the unit hold a digit.
pub open spec fn digits_in(unit: Seq<Cell>) -> nat
    decreases unit.len(),
{
    if unit.len() == 0 {
        0
    } else if unit.last() is Digit {
        digits_in(unit.drop_last()) + 1
    } else {
        digits_in(unit.drop_last())
    }
}

pub open spec fn row_ok(g: Seq<Seq<Cell>>, r: int) -> bool {
    distinct_digits(row_cells(g, r))
}

pub open spec fn col_ok(g: Seq<Seq<Cell>>, c: int) -> bool {
    distinct_digits(col_cells(g, c))
}

pub open spec fn group_ok(g: Seq<Seq<Cell>>, gr: int, gc: int) -> bool {
    distinct_digits(group_cells(g, gr, gc))
}

/// All 27 units are free of repeated digits.
pub open spec fn consistent(g: Seq<Seq<Cell>>) -> bool {
    &&& forall|r: int| 0 <= r < 9 ==> row_ok(g, r)
    &&& forall|c: int| 0 <= c < 9 ==> col_ok(g, c)
    &&& forall|gr: int, gc: int| 0 <= gr < 3 && 0 <= gc < 3 ==> group_ok(g, gr, gc)
}

/// Every cell holds a digit.
pub open spec fn complete(g: Seq<Seq<Cell>>) -> bool {
    forall|r: int, c: int| 0 <= r < 9 && 0 <= c < 9 ==> #[trigger] g[r][c] is Digit
}

/// A finished puzzle: full, and no unit repeats a digit.
pub open spec fn solved(g: Seq<Seq<Cell>>) -> bool {
    complete(g) && consistent(g)
}

/// The 81 positions `(row, column)` in row-major order.
pub open spec fn positions() -> Seq<(usize, usize)> {
    Seq::new(81, |k: int| ((k / 9) as usize, (k % 9) as usize))
}

/// Where a position stands in row-major order.
pub open spec fn rank(p: (usize, usize)) -> int {
    9 * p.0 + p.1
}

pub open spec fn on_board(p: (usize, usize)) -> bool {
    p.0 < 9 && p.1 < 9
}

pub open spec fn empty_at(g: Seq<Seq<Cell>>) -> spec_fn((usize, usize)) -> bool {
    |p: (usize, usize)| g[p.0 as int][p.1 as int] is Empty
}

pub open spec fn digit_at(g: Seq<Seq<Cell>>) -> spec_fn((usize, usize)) -> bool {
    |p: (usize, usize)| g[p.0 as int][p.1 as int] is Digit
}

/// The positions of the empty cells, in row-major order.
pub open spec fn empty_positions(g: Seq<Seq<Cell>>) -> Seq<(usize, usize)> {
    positions().filter(empty_at(g))
}

/// How many cells of the board hold a digit.
pub open spec fn filled_count(g: Seq<Seq<Cell>>) -> nat {
    positions().filter(digit_at(g)).len()
}

/// The board `g` with `cell` written at row `r`, column `c`.
pub open spec fn with_cell(g: Seq<Seq<Cell>>, r: int, c: int, cell: Cell) -> Seq<Seq<Cell>> {
    g.update(r, g[r].update(c, cell))
}

/// A unit is in order exactly when no digit shows at two of its places.
pub proof fn lemma_repeat_iff_not_distinct(unit: Seq<Cell>)
    ensures
        has_repeat(unit) <==> !distinct_digits(unit),
{
    if !distinct_digits(unit) {
        let (i, j) = choose|i: int, j: int|
            0 <= i < j < unit.len() && unit[i] is Digit && unit[i] == unit[j];
        assert(has_repeat(unit));
    }
}

/// The digits among the first `n + 1` cells are those among the first `n`
/// and the one that cell `n` may hold; no start of a unit holds more
/// digits than the unit.
proof fn lemma_digits_in_take(unit: Seq<Cell>, n: int)
    requires
        0 <= n < unit.len(),
    ensures
        digits_in(unit.take(n + 1)) == digits_in(unit.take(n)) + if unit[n] is Digit {
            1nat
        } else {
            0nat
        },
        digits_in(unit.take(n + 1)) <= digits_in(unit),
    decreases unit.len() - n,
{
    assert(unit.take(n + 1).drop_last() =~= unit.take(n));
    if n + 1 == unit.len() {
        assert(unit.take(n + 1) =~= unit);
    } else {
        lemma_digits_in_take(unit, n + 1);
    }
}

proof fn lemma_digits_in_grows(unit: Seq<Cell>, m: int, n: int)
    requires
        0 <= m <= n <= unit.len(),
    ensures
        digits_in(unit.take(m)) <= digits_in(unit.take(n)),
    decreases n - m,
{
    if m < n {
        lemma_digits_in_grows(unit, m, n - 1);
        lemma_digits_in_take(unit, n - 1);
    }
}

/// A unit with no digit or with a single one is in order.
pub proof fn lemma_sparse_unit_is_ok(unit: Seq<Cell>)
    requires
        digits_in(unit) <= 1,
    ensures
        distinct_digits(unit),
{
    assert forall|i: int, j: int| 0 <= i < j < unit.len() && unit[i] is Digit implies unit[i]
        != unit[j] by {
        if unit[j] is Digit {
            lemma_digits_in_take(unit, i);
            lemma_digits_in_grows(unit, i + 1, j);
            lemma_digits_in_take(unit, j);
        }
    }
}

/// A board is finished exactly when it has no empty position and each of
/// its 9 rows, 9 columns and 9 groups is in order.
pub proof fn lemma_solved_iff(g: Seq<Seq<Cell>>)
    ensures
        solved(g) <==> {
            &&& empty_positions(g).len() == 0
            &&& forall|r: int| 0 <= r < 9 ==> distinct_digits(#[trigger] row_cells(g, r))
            &&& forall|c: int| 0 <= c < 9 ==> distinct_digits(#[trigger] col_cells(g, c))
            &&& forall|gr: int, gc: int|
                0 <= gr < 3 && 0 <= gc < 3 ==> distinct_digits(#[trigger] group_cells(g, gr, gc))
        },
{
    lemma_complete_iff_no_empty_positions(g);
    if solved(g) {
        assert forall|r: int| 0 <= r < 9 implies distinct_digits(#[trigger] row_cells(g, r)) by {
            assert(row_ok(g, r));
        }
        assert forall|c: int| 0 <= c < 9 implies distinct_digits(#[trigger] col_cells(g, c)) by {
            assert(col_ok(g, c));
        }
        assert forall|gr: int, gc: int| 0 <= gr < 3 && 0 <= gc < 3 implies distinct_digits(
            #[trigger] group_cells(g, gr, gc),
        ) by {
            assert(group_ok(g, gr, gc));
        }
    }
}

/// Filtering nothing leaves nothing.
pub(crate) proof fn lemma_filter_nothing<A>(pred: spec_fn(A) -> bool)
    ensures
        Seq::<A>::empty().filter(pred) == Seq::<A>::empty(),
{
    reveal(Seq::filter);
}

/// What the empty positions of the first `n` cells are: each is an empty
/// cell among those `n`, each such cell is listed, they come in row-major
/// order, and with the filled cells they make up all `n`.
pub(crate) proof fn lemma_empty_positions_upto(g: Seq<Seq<Cell>>, n: int)
    requires
        0 <= n <= 81,
    ensures
        ({
            let e = positions().take(n).filter(empty_at(g));
            let d = positions().take(n).filter(digit_at(g));
            &&& forall|k: int|
                0 <= k < e.len() ==> on_board(#[trigger] e[k]) && rank(e[k]) < n
                    && g[e[k].0 as int][e[k].1 as int] is Empty
            &&& forall|r: int, c: int|
                0 <= r < 9 && 0 <= c < 9 && 9 * r + c < n && #[trigger] g[r][c] is Empty
                    ==> e.contains((r as usize, c as usize))
            &&& forall|j: int, k: int|
                0 <= j < k < e.len() ==> rank(#[trigger] e[j]) < rank(#[trigger] e[k])
            &&& e.len() + d.len() == n
        }),
    decreases n,
{
    let e = positions().take(n).filter(empty_at(g));
    let d = positions().take(n).filter(digit_at(g));
    if n == 0 {
        assert(positions().take(0) =~= Seq::empty());
        lemma_filter_nothing(empty_at(g));
        lemma_filter_nothing(digit_at(g));
    } else {
        lemma_empty_positions_upto(g, n - 1);
        let m = n - 1;
        let p = positions()[m];
        let e0 = positions().take(m).filter(empty_at(g));
        let d0 = positions().take(m).filter(digit_at(g));
        assert(positions().take(n) =~= positions().take(m).push(p));
        positions().take(m).lemma_filter_push(p, empty_at(g));
        positions().take(m).lemma_filter_push(p, digit_at(g));
        assert(p.0 == m / 9 && p.1 == m % 9);
        assert(rank(p) == m);
        assert forall|r: int, c: int|
            0 <= r < 9 && 0 <= c < 9 && 9 * r + c < n && #[trigger] g[r][c] is Empty implies e.contains(
            (r as usize, c as usize),
        ) by {
            if 9 * r + c < m {
                assert(e0.contains((r as usize, c as usize)));
                let k = choose|k: int| 0 <= k < e0.len() && e0[k] == (r as usize, c as usize);
                assert(e[k] == (r as usize, c as usize));
            } else {
                assert(r == m / 9 && c == m % 9);
                assert(e[e.len() - 1] == p);
            }
        }
    }
}

/// The empty positions of a board: each is on the board and empty, every
/// empty cell is among them, they come in strictly increasing row-major
/// order, and their number is 81 less the number of filled cells.
pub proof fn lemma_empty_positions(g: Seq<Seq<Cell>>)
    ensures
        forall|k: int|
            0 <= k < empty_positions(g).len() ==> on_board(#[trigger] empty_positions(g)[k])
                && g[empty_positions(g)[k].0 as int][empty_positions(g)[k].1 as int] is Empty,
        forall|r: int, c: int|
            0 <= r < 9 && 0 <= c < 9 && #[trigger] g[r][c] is Empty ==> empty_positions(g).contains(
                (r as usize, c as usize),
            ),
        forall|j: int, k: int|
            0 <= j < k < empty_positions(g).len() ==> rank(#[trigger] empty_positions(g)[j]) < rank(
                #[trigger] empty_positions(g)[k],
            ),
        empty_positions(g).len() == 81 - filled_count(g),
{
    lemma_empty_positions_upto(g, 81);
    assert(positions().take(81) =~= positions());
}

/// A board is full exactly when it has no empty positions.
pub proof fn lemma_complete_iff_no_empty_positions(g: Seq<Seq<Cell>>)
    ensures
        complete(g) <==> empty_positions(g).len() == 0,
{
    lemma_empty_positions(g);
    let e = empty_positions(g);
    if e.len() == 0 {
        assert forall|r: int, c: int| 0 <= r < 9 && 0 <= c < 9 implies #[trigger] g[r][c] is Digit by {
            if g[r][c] is Empty {
                assert(e.contains((r as usize, c as usize)));
            }
        }
    } else {
        let p = e[0];
        assert(g[p.0 as int][p.1 as int] is Empty);
    }
}

} // verus!
