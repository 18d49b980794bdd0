//! What it means to complete a puzzle, and in which order completions are
//! found.

use vstd::prelude::*;
use crate::grid::Cell;
use crate::rules::{
    col_cells, col_ok, complete, consistent, empty_positions, group_cells, group_ok, is_board,
    lemma_empty_positions, on_board, positions, rank, row_cells, row_ok, solved, well_formed,
    with_cell,
};

verus! {

/// The cell of `g` at position `p`.
pub open spec fn at(g: Seq<Seq<Cell>>, p: (usize, usize)) -> Cell {
    g[p.0 as int][p.1 as int]
}

/// `s` keeps every digit that `g` shows.
pub open spec fn extends(s: Seq<Seq<Cell>>, g: Seq<Seq<Cell>>) -> bool {
    forall|r: int, c: int| 0 <= r < 9 && 0 <= c < 9 && #[trigger] g[r][c] is Digit ==> s[r][c] == g[r][c]
}

/// `s` is a solution of the puzzle `g`: a finished board that keeps the
/// digits of `g`.
pub open spec fn completes(s: Seq<Seq<Cell>>, g: Seq<Seq<Cell>>) -> bool {
    well_formed(s) && extends(s, g) && solved(s)
}

/// The puzzle has a solution.
pub open spec fn solvable(g: Seq<Seq<Cell>>) -> bool {
    exists|s: Seq<Seq<Cell>>| completes(s, g)
}

/// `a` and `b` hold the same at `cells[from]`, ..., `cells[to - 1]`.
pub open spec fn agree_on(
    a: Seq<Seq<Cell>>,
    b: Seq<Seq<Cell>>,
    cells: Seq<(usize, usize)>,
    from: int,
    to: int,
) -> bool {
    forall|j: int| from <= j < to ==> at(a, #[trigger] cells[j]) == at(b, cells[j])
}

/// Read along `cells[from..]`, board `a` comes no later than `b` in
/// dictionary order: where the two first differ, `a` has the smaller digit.
pub open spec fn no_later_than(
    a: Seq<Seq<Cell>>,
    b: Seq<Seq<Cell>>,
    cells: Seq<(usize, usize)>,
    from: int,
) -> bool {
    forall|k: int|
        from <= k < cells.len() && #[trigger] agree_on(a, b, cells, from, k) ==> at(
            a,
            cells[k],
        ).value() <= at(b, cells[k]).value()
}

/// `s` is the solution of `g` that comes first when boards are read along
/// `cells[from..]`.
pub open spec fn first_completion(
    s: Seq<Seq<Cell>>,
    g: Seq<Seq<Cell>>,
    cells: Seq<(usize, usize)>,
    from: int,
) -> bool {
    &&& completes(s, g)
    &&& forall|other: Seq<Seq<Cell>>| #[trigger]
        completes(other, g) ==> no_later_than(s, other, cells, from)
}

/// `cells[from..]` names each empty cell of `g` once, and nothing else.
pub open spec fn lists_empties(g: Seq<Seq<Cell>>, cells: Seq<(usize, usize)>, from: int) -> bool {
    &&& 0 <= from <= cells.len()
    &&& forall|k: int|
        from <= k < cells.len() ==> on_board(#[trigger] cells[k]) && at(g, cells[k]) is Empty
    &&& forall|j: int, k: int| from <= j < k < cells.len() ==> cells[j] != cells[k]
    &&& forall|r: int, c: int|
        0 <= r < 9 && 0 <= c < 9 && #[trigger] g[r][c] is Empty ==> exists|k: int|
            from <= k < cells.len() && cells[k] == (r as usize, c as usize)
}

/// Writing a cell disturbs only the row, the column and the group it lies
/// in: if those three are in order afterwards, the whole board still is.
pub proof fn lemma_place_keeps_consistent(g: Seq<Seq<Cell>>, r: int, c: int, cell: Cell)
    requires
        is_board(g),
        0 <= r < 9,
        0 <= c < 9,
        consistent(g),
        row_ok(with_cell(g, r, c, cell), r),
        col_ok(with_cell(g, r, c, cell), c),
        group_ok(with_cell(g, r, c, cell), r / 3, c / 3),
    ensures
        consistent(with_cell(g, r, c, cell)),
{
    let h = with_cell(g, r, c, cell);
    assert forall|r2: int| 0 <= r2 < 9 implies row_ok(h, r2) by {
        if r2 != r {
            assert(row_ok(g, r2));
            assert(row_cells(h, r2) =~= row_cells(g, r2));
        }
    }
    assert forall|c2: int| 0 <= c2 < 9 implies col_ok(h, c2) by {
        if c2 != c {
            assert(col_ok(g, c2));
            assert(col_cells(h, c2) =~= col_cells(g, c2));
        }
    }
    assert forall|gr: int, gc: int| 0 <= gr < 3 && 0 <= gc < 3 implies group_ok(h, gr, gc) by {
        if gr != r / 3 || gc != c / 3 {
            assert(group_ok(g, gr, gc));
            assert(group_cells(h, gr, gc) =~= group_cells(g, gr, gc));
        }
    }
}

/// A board that a consistent board extends is consistent itself.
pub proof fn lemma_extended_is_consistent(s: Seq<Seq<Cell>>, g: Seq<Seq<Cell>>)
    requires
        is_board(g),
        is_board(s),
        extends(s, g),
        consistent(s),
    ensures
        consistent(g),
{
    assert forall|r: int| 0 <= r < 9 implies row_ok(g, r) by {
        assert(row_ok(s, r));
        let u = row_cells(g, r);
        let v = row_cells(s, r);
        assert forall|i: int, j: int| 0 <= i < j < u.len() && u[i] is Digit implies u[i] != u[j] by {
            if u[i] == u[j] {
                assert(g[r][i] is Digit && g[r][j] is Digit);
                assert(v[i] == u[i] && v[j] == u[j]);
            }
        }
    }
    assert forall|c: int| 0 <= c < 9 implies col_ok(g, c) by {
        assert(col_ok(s, c));
        let u = col_cells(g, c);
        let v = col_cells(s, c);
        assert forall|i: int, j: int| 0 <= i < j < u.len() && u[i] is Digit implies u[i] != u[j] by {
            if u[i] == u[j] {
                assert(g[i][c] is Digit && g[j][c] is Digit);
                assert(v[i] == u[i] && v[j] == u[j]);
            }
        }
    }
    assert forall|gr: int, gc: int| 0 <= gr < 3 && 0 <= gc < 3 implies group_ok(g, gr, gc) by {
        assert(group_ok(s, gr, gc));
        let u = group_cells(g, gr, gc);
        let v = group_cells(s, gr, gc);
        assert forall|i: int, j: int| 0 <= i < j < u.len() && u[i] is Digit implies u[i] != u[j] by {
            if u[i] == u[j] {
                assert(g[3 * gr + i / 3][3 * gc + i % 3] is Digit);
                assert(g[3 * gr + j / 3][3 * gc + j % 3] is Digit);
                assert(v[i] == u[i] && v[j] == u[j]);
            }
        }
    }
}

/// A puzzle that has a solution shows no clash.
pub proof fn lemma_solvable_is_consistent(g: Seq<Seq<Cell>>)
    requires
        is_board(g),
        solvable(g),
    ensures
        consistent(g),
{
    let s = choose|s: Seq<Seq<Cell>>| completes(s, g);
    lemma_extended_is_consistent(s, g);
}

/// The empty positions of a board, taken from the start, name each of its
/// empty cells once.
pub proof fn lemma_empty_positions_list_empties(g: Seq<Seq<Cell>>)
    ensures
        lists_empties(g, empty_positions(g), 0),
{
    lemma_empty_positions(g);
    let e = empty_positions(g);
    assert forall|j: int, k: int| 0 <= j < k < e.len() implies e[j] != e[k] by {
        assert(rank(e[j]) < rank(e[k]));
    }
    assert forall|r: int, c: int| 0 <= r < 9 && 0 <= c < 9 && #[trigger] g[r][c] is Empty implies exists|
        k: int,
    |
        0 <= k < e.len() && e[k] == (r as usize, c as usize) by {
        assert(e.contains((r as usize, c as usize)));
    }
}

/// Among the solutions of a puzzle, the one that comes first along the
/// empty cells in row-major order comes first along the whole board.
pub proof fn lemma_first_along_empties_is_first(s: Seq<Seq<Cell>>, g: Seq<Seq<Cell>>)
    requires
        first_completion(s, g, empty_positions(g), 0),
    ensures
        first_completion(s, g, positions(), 0),
{
    let e = empty_positions(g);
    let all = positions();
    lemma_empty_positions(g);
    assert forall|other: Seq<Seq<Cell>>| #[trigger] completes(other, g) implies no_later_than(
        s,
        other,
        all,
        0,
    ) by {
        assert(no_later_than(s, other, e, 0));
        assert forall|k: int| 0 <= k < all.len() && #[trigger] agree_on(s, other, all, 0, k) implies at(
            s,
            all[k],
        ).value() <= at(other, all[k]).value() by {
            let p = all[k];
            let r = k / 9;
            let c = k % 9;
            assert(p == (r as usize, c as usize));
            if g[r][c] is Digit {
                assert(s[r][c] == g[r][c] && other[r][c] == g[r][c]);
            } else {
                assert(e.contains(p));
                let m = choose|m: int| 0 <= m < e.len() && e[m] == p;
                assert forall|j: int| 0 <= j < m implies at(s, #[trigger] e[j]) == at(other, e[j]) by {
                    let q = e[j];
                    assert(rank(q) < rank(e[m]));
                    assert(on_board(q));
                    assert(all[rank(q)] == q);
                }
                assert(agree_on(s, other, e, 0, m));
            }
        }
    }
}

/// Where a puzzle has a single solution, any solution found is that one.
pub proof fn lemma_single_solution(found: Seq<Seq<Cell>>, only: Seq<Seq<Cell>>, g: Seq<Seq<Cell>>)
    requires
        completes(found, g),
        forall|other: Seq<Seq<Cell>>| #[trigger] completes(other, g) ==> other == only,
    ensures
        found == only,
{
}

/// Two solutions that each come no later than the other along the whole
/// board are the same board.
pub proof fn lemma_first_completion_is_unique(
    a: Seq<Seq<Cell>>,
    b: Seq<Seq<Cell>>,
    g: Seq<Seq<Cell>>,
)
    requires
        first_completion(a, g, positions(), 0),
        first_completion(b, g, positions(), 0),
    ensures
        a == b,
{
    let all = positions();
    assert(no_later_than(a, b, all, 0));
    assert(no_later_than(b, a, all, 0));
    lemma_agree_upto(a, b, 81);
    assert forall|r: int| 0 <= r < 9 implies a[r] =~= b[r] by {
        assert forall|c: int| 0 <= c < 9 implies a[r][c] == b[r][c] by {
            let p = all[9 * r + c];
            assert(at(a, p) == at(b, p));
        }
    }
    assert(a =~= b);
}

proof fn lemma_agree_upto(a: Seq<Seq<Cell>>, b: Seq<Seq<Cell>>, n: int)
    requires
        0 <= n <= 81,
        well_formed(a),
        well_formed(b),
        complete(a),
        complete(b),
        no_later_than(a, b, positions(), 0),
        no_later_than(b, a, positions(), 0),
    ensures
        agree_on(a, b, positions(), 0, n),
    decreases n,
{
    if n > 0 {
        lemma_agree_upto(a, b, n - 1);
        let all = positions();
        let k = n - 1;
        assert(agree_on(a, b, all, 0, k));
        assert(agree_on(b, a, all, 0, k));
        let r = k / 9;
        let c = k % 9;
        assert(a[r][c] is Digit && b[r][c] is Digit);
        assert(a[r][c].wf() && b[r][c].wf());
        assert(at(a, all[k]).value() == at(b, all[k]).value());
    }
}

/// A well-formed, consistent board without empty cells is its own and only
/// solution.
pub(crate) proof fn lemma_full_board_is_first(g: Seq<Seq<Cell>>, cells: Seq<(usize, usize)>)
    requires
        well_formed(g),
        consistent(g),
        lists_empties(g, cells, cells.len() as int),
    ensures
        first_completion(g, g, cells, cells.len() as int),
{
    assert forall|r: int, c: int| 0 <= r < 9 && 0 <= c < 9 implies #[trigger] g[r][c] is Digit by {
        if g[r][c] is Empty {
            let k = choose|k: int|
                cells.len() <= k < cells.len() && cells[k] == (r as usize, c as usize);
        }
    }
}

/// A solution of `g` that shows `d` at `(r, c)` is a solution of `g` with
/// `d` written there.
pub(crate) proof fn lemma_completion_through(s: Seq<Seq<Cell>>, g: Seq<Seq<Cell>>, r: int, c: int, d: u8)
    requires
        is_board(g),
        0 <= r < 9,
        0 <= c < 9,
        completes(s, g),
        s[r][c] == Cell::Digit(d),
    ensures
        completes(s, with_cell(g, r, c, Cell::Digit(d))),
{
    let h = with_cell(g, r, c, Cell::Digit(d));
    assert forall|r2: int, c2: int| 0 <= r2 < 9 && 0 <= c2 < 9 && #[trigger] h[r2][c2] is Digit implies s[r2][c2]
        == h[r2][c2] by {
        if r2 != r || c2 != c {
            assert(h[r2][c2] == g[r2][c2]);
        }
    }
}

/// Filling the first listed empty cell leaves the rest of the list to name
/// the empty cells.
pub(crate) proof fn lemma_next_frontier(g: Seq<Seq<Cell>>, cells: Seq<(usize, usize)>, i: int, d: u8)
    requires
        well_formed(g),
        lists_empties(g, cells, i),
        i < cells.len(),
        1 <= d <= 9,
    ensures
        well_formed(with_cell(g, cells[i].0 as int, cells[i].1 as int, Cell::Digit(d))),
        lists_empties(
            with_cell(g, cells[i].0 as int, cells[i].1 as int, Cell::Digit(d)),
            cells,
            i + 1,
        ),
{
    let p = cells[i];
    let r = p.0 as int;
    let c = p.1 as int;
    let h = with_cell(g, r, c, Cell::Digit(d));
    assert(on_board(p));
    assert forall|r2: int, c2: int| 0 <= r2 < 9 && 0 <= c2 < 9 implies (#[trigger] h[r2][c2]).wf() by {
        if r2 != r || c2 != c {
            assert(h[r2][c2] == g[r2][c2]);
        }
    }
    assert forall|k: int| i + 1 <= k < cells.len() implies on_board(#[trigger] cells[k]) && at(
        h,
        cells[k],
    ) is Empty by {
        assert(cells[i] != cells[k]);
        assert(at(g, cells[k]) is Empty);
    }
    assert forall|r2: int, c2: int| 0 <= r2 < 9 && 0 <= c2 < 9 && #[trigger] h[r2][c2] is Empty implies exists|
        k: int,
    |
        i + 1 <= k < cells.len() && cells[k] == (r2 as usize, c2 as usize) by {
        assert(r2 != r || c2 != c);
        assert(h[r2][c2] == g[r2][c2]);
        assert(g[r2][c2] is Empty);
        let k = choose|k: int| i <= k < cells.len() && cells[k] == (r2 as usize, c2 as usize);
        assert(k != i);
    }
}

/// A solution of `g` with a digit written at an empty cell is a solution
/// of `g`.
pub(crate) proof fn lemma_completes_below(s: Seq<Seq<Cell>>, g: Seq<Seq<Cell>>, r: int, c: int, d: u8)
    requires
        is_board(g),
        0 <= r < 9,
        0 <= c < 9,
        g[r][c] is Empty,
        completes(s, with_cell(g, r, c, Cell::Digit(d))),
    ensures
        completes(s, g),
{
    let h = with_cell(g, r, c, Cell::Digit(d));
    assert forall|r2: int, c2: int| 0 <= r2 < 9 && 0 <= c2 < 9 && #[trigger] g[r2][c2] is Digit implies s[r2][c2]
        == g[r2][c2] by {
        assert(h[r2][c2] == g[r2][c2]);
    }
}

/// The first solution below a branch is the first solution of the puzzle
/// when no solution lies in an earlier branch.
pub(crate) proof fn lemma_branch_found(
    s: Seq<Seq<Cell>>,
    g: Seq<Seq<Cell>>,
    cells: Seq<(usize, usize)>,
    i: int,
    d: u8,
)
    requires
        well_formed(g),
        lists_empties(g, cells, i),
        i < cells.len(),
        1 <= d <= 9,
        first_completion(
            s,
            with_cell(g, cells[i].0 as int, cells[i].1 as int, Cell::Digit(d)),
            cells,
            i + 1,
        ),
        forall|other: Seq<Seq<Cell>>| #[trigger]
            completes(other, g) ==> at(other, cells[i]).value() >= d,
    ensures
        first_completion(s, g, cells, i),
{
    let p = cells[i];
    let r = p.0 as int;
    let c = p.1 as int;
    let h = with_cell(g, r, c, Cell::Digit(d));
    assert(on_board(p));
    assert(h[r][c] is Digit);
    assert(s[r][c] == Cell::Digit(d));
    assert forall|r2: int, c2: int| 0 <= r2 < 9 && 0 <= c2 < 9 && #[trigger] g[r2][c2] is Digit implies s[r2][c2]
        == g[r2][c2] by {
        assert(r2 != r || c2 != c);
        assert(h[r2][c2] == g[r2][c2]);
    }
    assert(completes(s, g));
    assert forall|other: Seq<Seq<Cell>>| #[trigger] completes(other, g) implies no_later_than(
        s,
        other,
        cells,
        i,
    ) by {
        assert(at(other, p).value() >= d);
        assert forall|k: int| i <= k < cells.len() && #[trigger] agree_on(s, other, cells, i, k) implies at(
            s,
            cells[k],
        ).value() <= at(other, cells[k]).value() by {
            if k > i {
                assert(at(s, cells[i]) == at(other, cells[i]));
                lemma_completion_through(other, g, r, c, d);
                assert(no_later_than(s, other, cells, i + 1));
                assert(agree_on(s, other, cells, i + 1, k));
            }
        }
    }
}

/// A puzzle none of whose solutions shows a digit below 10 at some cell has
/// no solution.
pub(crate) proof fn lemma_exhausted(g: Seq<Seq<Cell>>, p: (usize, usize))
    requires
        on_board(p),
        forall|other: Seq<Seq<Cell>>| #[trigger] completes(other, g) ==> at(other, p).value() >= 10,
    ensures
        !solvable(g),
{
    if solvable(g) {
        let s = choose|s: Seq<Seq<Cell>>| completes(s, g);
        assert(s[p.0 as int][p.1 as int].wf());
    }
}

/// The digits 1 to 9 in rising order.
pub open spec fn digits() -> Seq<u8> {
    seq![1u8, 2u8, 3u8, 4u8, 5u8, 6u8, 7u8, 8u8, 9u8]
}

/// However the digits 1 to 9 are rearranged, each entry is one of them and
/// each of them is an entry.
pub(crate) proof fn lemma_rearranged_digits(order: Seq<u8>)
    requires
        order.to_multiset() == digits().to_multiset(),
    ensures
        order.len() == 9,
        forall|k: int| 0 <= k < order.len() ==> 1 <= #[trigger] order[k] <= 9,
        forall|d: u8| 1 <= d <= 9 ==> order.contains(d),
{
    broadcast use vstd::seq_lib::to_multiset_len, vstd::seq_lib::to_multiset_contains;

    assert(order.len() == order.to_multiset().len());
    assert(digits().len() == digits().to_multiset().len());
    assert forall|k: int| 0 <= k < order.len() implies 1 <= #[trigger] order[k] <= 9 by {
        assert(order.contains(order[k]));
        assert(order.to_multiset().count(order[k]) > 0);
        assert(digits().contains(order[k]));
    }
    assert forall|d: u8| 1 <= d <= 9 implies order.contains(d) by {
        assert(digits()[d - 1] == d);
        assert(digits().contains(d));
        assert(digits().to_multiset().count(d) > 0);
    }
}

/// A list that names each empty cell once still does so after its entries
/// are rearranged.
pub proof fn lemma_rearranged_lists_empties(
    g: Seq<Seq<Cell>>,
    cells: Seq<(usize, usize)>,
    mixed: Seq<(usize, usize)>,
)
    requires
        lists_empties(g, cells, 0),
        mixed.to_multiset() == cells.to_multiset(),
    ensures
        lists_empties(g, mixed, 0),
{
    broadcast use vstd::seq_lib::to_multiset_contains;

    assert forall|k: int| 0 <= k < mixed.len() implies on_board(#[trigger] mixed[k]) && at(
        g,
        mixed[k],
    ) is Empty by {
        assert(mixed.contains(mixed[k]));
        assert(mixed.to_multiset().count(mixed[k]) > 0);
        assert(cells.contains(mixed[k]));
        let j = choose|j: int| 0 <= j < cells.len() && cells[j] == mixed[k];
        assert(on_board(cells[j]));
    }
    assert(cells.no_duplicates()) by {
        assert forall|i: int, j: int|
            0 <= i < cells.len() && 0 <= j < cells.len() && i != j implies cells[i] != cells[j] by {
            if i < j {
                assert(cells[i] != cells[j]);
            } else {
                assert(cells[j] != cells[i]);
            }
        }
    }
    cells.lemma_multiset_has_no_duplicates();
    mixed.lemma_multiset_has_no_duplicates_conv();
    assert forall|r: int, c: int| 0 <= r < 9 && 0 <= c < 9 && #[trigger] g[r][c] is Empty implies exists|
        k: int,
    |
        0 <= k < mixed.len() && mixed[k] == (r as usize, c as usize) by {
        let p = (r as usize, c as usize);
        let j = choose|j: int| 0 <= j < cells.len() && cells[j] == p;
        assert(cells.contains(p));
        assert(cells.to_multiset().count(p) > 0);
        assert(mixed.contains(p));
    }
}

} // verus!
