//! The solvers: backtracking search, its randomized variant, and simulated
//! annealing.

use vstd::prelude::*;
use crate::cost::{
    bad_cols, bad_groups, bad_rows, change, filled_in, invalid_around, invalid_units,
    lemma_change_is_local, lemma_cost_zero_iff_consistent, lemma_filled_in,
    lemma_with_cell_extends, lemma_with_cell_well_formed, nth_group_ok,
};
use crate::grid::{Cell, Table};
use crate::rules::{
    complete, consistent, group_ok, lemma_complete_iff_no_empty_positions, on_board, positions,
    solved, with_cell,
};
use crate::random::{shuffle, uniform};
use crate::search::{
    at, completes, digits, extends, first_completion, lemma_branch_found, lemma_completes_below,
    lemma_completion_through, lemma_empty_positions_list_empties, lemma_exhausted,
    lemma_extended_is_consistent, lemma_first_along_empties_is_first, lemma_full_board_is_first,
    lemma_next_frontier, lemma_place_keeps_consistent, lemma_rearranged_digits,
    lemma_rearranged_lists_empties, lemma_solvable_is_consistent, lists_empties, solvable,
};
use rand::rngs::StdRng;

verus! {

/// How many of the 27 units repeat a digit.
pub fn inversions(t: &Table) -> (cost: i16)
    requires
        t.wf(),
    ensures
        cost == invalid_units(t@),
        0 <= cost <= 27,
{
    let mut res: i16 = 0;
    for i in 0..9usize
        invariant
            t.wf(),
            res == bad_rows(t@, i as int) + bad_cols(t@, i as int),
            0 <= res <= 2 * i,
    {
        if !t.row_is_ok(i) {
            res += 1;
        }
        if !t.col_is_ok(i) {
            res += 1;
        }
    }
    for gr in 0..3usize
        invariant
            t.wf(),
            res == bad_rows(t@, 9) + bad_cols(t@, 9) + bad_groups(t@, 3 * gr),
            0 <= res <= 18 + 3 * gr,
    {
        for gc in 0..3usize
            invariant
                t.wf(),
                gr < 3,
                res == bad_rows(t@, 9) + bad_cols(t@, 9) + bad_groups(t@, 3 * gr + gc),
                0 <= res <= 18 + 3 * gr + gc,
        {
            proof {
                let k = 3 * gr + gc;
                assert(k / 3 == gr && k % 3 == gc);
                assert(nth_group_ok(t@, k) == group_ok(t@, gr as int, gc as int));
            }
            if !t.group_is_ok(gr, gc) {
                res += 1;
            }
        }
    }
    res
}

/// Backtracking over `emptys[i..]`, the empty cells of `t`: tries the
/// digits 1 to 9 in turn at `emptys[i]` and goes on to the next cell
/// wherever the row, the column and the group of the cell stay in order.
///
/// `true` leaves in `t` the solution that comes first along `emptys[i..]`;
/// `false` says there is none and leaves `t` as it was.
pub fn dfs(t: &mut Table, i: usize, emptys: &Vec<(usize, usize)>) -> (found: bool)
    requires
        old(t).wf(),
        consistent(old(t)@),
        lists_empties(old(t)@, emptys@, i as int),
    ensures
        final(t).wf(),
        found ==> first_completion(final(t)@, old(t)@, emptys@, i as int),
        !found ==> final(t)@ == old(t)@ && !solvable(old(t)@),
    decreases emptys.len() - i,
{
    if emptys.len() <= i {
        proof {
            lemma_full_board_is_first(t@, emptys@);
        }
        return true;
    }
    let (row, col) = emptys[i];
    let ghost g0 = t@;
    proof {
        assert(on_board(emptys@[i as int]));
        assert(g0 =~~= with_cell(g0, row as int, col as int, g0[row as int][col as int]));
    }
    for d in 1..10u8
        invariant
            1 <= d <= 10,
            row < 9,
            col < 9,
            i < emptys.len(),
            (row, col) == emptys@[i as int],
            g0 == old(t)@,
            old(t).wf(),
            consistent(g0),
            lists_empties(g0, emptys@, i as int),
            t.wf(),
            t@ == with_cell(g0, row as int, col as int, t@[row as int][col as int]),
            forall|other: Seq<Seq<Cell>>| #[trigger]
                completes(other, g0) ==> at(other, (row, col)).value() >= d,
    {
        let ghost gd = with_cell(g0, row as int, col as int, Cell::Digit(d));
        t.set(row, col, Cell::Digit(d));
        proof {
            lemma_next_frontier(g0, emptys@, i as int, d);
            assert(t@ =~~= gd);
        }
        let fits = t.row_is_ok(row) && t.col_is_ok(col) && t.group_is_ok(row / 3, col / 3);
        if fits {
            proof {
                lemma_place_keeps_consistent(g0, row as int, col as int, Cell::Digit(d));
            }
            if dfs(t, i + 1, emptys) {
                proof {
                    lemma_branch_found(t@, g0, emptys@, i as int, d);
                }
                return true;
            }
        }
        proof {
            assert(t@ == gd);
            assert forall|other: Seq<Seq<Cell>>| #[trigger] completes(other, g0) implies at(
                other,
                (row, col),
            ).value() >= d + 1 by {
                if at(other, (row, col)).value() == d {
                    assert(other[row as int][col as int].wf());
                    assert(other[row as int][col as int] == Cell::Digit(d));
                    lemma_completion_through(other, g0, row as int, col as int, d);
                    if fits {
                        assert(solvable(gd));
                    } else {
                        lemma_extended_is_consistent(other, gd);
                    }
                }
            }
            assert(t@ =~~= with_cell(g0, row as int, col as int, t@[row as int][col as int]));
        }
    }
    proof {
        lemma_exhausted(g0, (row, col));
    }
    t.set(row, col, Cell::Empty);
    proof {
        assert(g0[row as int][col as int] == Cell::Empty);
        assert(t@ =~~= g0);
    }
    false
}

/// Solves the puzzle by backtracking over its empty cells in row-major
/// order, the digits tried from 1 to 9.
///
/// The answer is the solution that comes first when boards are read row
/// by row, or `Err("No solution found")` when the puzzle has none. A board
/// that shows a clash to begin with has none and is answered without a
/// search.
pub fn solve_dfs_single(t: Table) -> (res: Result<Table, &'static str>)
    requires
        t.wf(),
    ensures
        res is Ok <==> solvable(t@),
        match res {
            Ok(s) => first_completion(s@, t@, positions(), 0),
            Err(e) => !solvable(t@) && e@ == "No solution found"@,
        },
{
    let mut t = t;
    let ghost g0 = t@;
    if inversions(&t) != 0 {
        proof {
            lemma_cost_zero_iff_consistent(g0);
            if solvable(g0) {
                lemma_solvable_is_consistent(g0);
            }
        }
        return Err("No solution found");
    }
    let emptys = t.empty_cells();
    proof {
        lemma_cost_zero_iff_consistent(g0);
        lemma_empty_positions_list_empties(g0);
    }
    if dfs(&mut t, 0, &emptys) {
        proof {
            lemma_first_along_empties_is_first(t@, g0);
        }
        Ok(t)
    } else {
        Err("No solution found")
    }
}

/// Backtracking over `emptys[i..]` as [`dfs`] does it, but with the nine
/// digits tried in an order drawn afresh from `rng` at every cell.
///
/// `true` leaves a solution in `t`; `false` says there is none and leaves
/// `t` as it was. Which solution is found depends on the draws.
pub fn dfs_rand(t: &mut Table, i: usize, emptys: &Vec<(usize, usize)>, rng: &mut StdRng) -> (found:
    bool)
    requires
        old(t).wf(),
        consistent(old(t)@),
        lists_empties(old(t)@, emptys@, i as int),
    ensures
        final(t).wf(),
        found ==> completes(final(t)@, old(t)@),
        !found ==> final(t)@ == old(t)@ && !solvable(old(t)@),
    decreases emptys.len() - i,
{
    if emptys.len() <= i {
        proof {
            lemma_full_board_is_first(t@, emptys@);
        }
        return true;
    }
    let mut order: Vec<u8> = vec![1, 2, 3, 4, 5, 6, 7, 8, 9];
    assert(order@ =~= digits());
    shuffle(rng, &mut order);
    let (row, col) = emptys[i];
    let ghost g0 = t@;
    proof {
        lemma_rearranged_digits(order@);
        assert(on_board(emptys@[i as int]));
        assert(g0 =~~= with_cell(g0, row as int, col as int, g0[row as int][col as int]));
    }
    for k in 0..9usize
        invariant
            row < 9,
            col < 9,
            i < emptys.len(),
            (row, col) == emptys@[i as int],
            g0 == old(t)@,
            old(t).wf(),
            consistent(g0),
            lists_empties(g0, emptys@, i as int),
            order@.len() == 9,
            forall|j: int| 0 <= j < 9 ==> 1 <= #[trigger] order@[j] <= 9,
            t.wf(),
            t@ == with_cell(g0, row as int, col as int, t@[row as int][col as int]),
            forall|other: Seq<Seq<Cell>>, j: int|
                #![trigger completes(other, g0), order@[j]]
                completes(other, g0) && 0 <= j < k ==> at(other, (row, col)) != Cell::Digit(
                    order@[j],
                ),
    {
        let d = order[k];
        let ghost gd = with_cell(g0, row as int, col as int, Cell::Digit(d));
        t.set(row, col, Cell::Digit(d));
        proof {
            lemma_next_frontier(g0, emptys@, i as int, d);
            assert(t@ =~~= gd);
        }
        let fits = t.row_is_ok(row) && t.col_is_ok(col) && t.group_is_ok(row / 3, col / 3);
        if fits {
            proof {
                lemma_place_keeps_consistent(g0, row as int, col as int, Cell::Digit(d));
            }
            if dfs_rand(t, i + 1, emptys, rng) {
                proof {
                    lemma_completes_below(t@, g0, row as int, col as int, d);
                }
                return true;
            }
        }
        proof {
            assert(t@ == gd);
            assert forall|other: Seq<Seq<Cell>>| #[trigger] completes(other, g0) implies at(
                other,
                (row, col),
            ) != Cell::Digit(d) by {
                if at(other, (row, col)) == Cell::Digit(d) {
                    lemma_completion_through(other, g0, row as int, col as int, d);
                    if fits {
                        assert(solvable(gd));
                    } else {
                        lemma_extended_is_consistent(other, gd);
                    }
                }
            }
            assert(t@ =~~= with_cell(g0, row as int, col as int, t@[row as int][col as int]));
        }
    }
    proof {
        if solvable(g0) {
            let s = choose|s: Seq<Seq<Cell>>| completes(s, g0);
            let cell = s[row as int][col as int];
            assert(cell.wf() && cell is Digit);
            let d = cell.value();
            assert(order@.contains(d));
            let j = choose|j: int| 0 <= j < order@.len() && order@[j] == d;
            assert(at(s, (row, col)) != Cell::Digit(order@[j]));
        }
    }
    t.set(row, col, Cell::Empty);
    proof {
        assert(g0[row as int][col as int] == Cell::Empty);
        assert(t@ =~~= g0);
    }
    false
}

/// Solves the puzzle by backtracking with the empty cells visited in an
/// order drawn from `rng`, and the digits tried in an order drawn afresh
/// at every cell.
///
/// Whatever the draws, the answer is a solution when the puzzle has one
/// and `Err("No solution found")` when it has none. Which solution it is
/// depends on the draws.
pub fn solve_randomized_dfs_single(t: Table, rng: &mut StdRng) -> (res: Result<Table, &'static str>)
    requires
        t.wf(),
    ensures
        res is Ok <==> solvable(t@),
        match res {
            Ok(s) => completes(s@, t@),
            Err(e) => !solvable(t@) && e@ == "No solution found"@,
        },
{
    let mut t = t;
    let ghost g0 = t@;
    if inversions(&t) != 0 {
        proof {
            lemma_cost_zero_iff_consistent(g0);
            if solvable(g0) {
                lemma_solvable_is_consistent(g0);
            }
        }
        return Err("No solution found");
    }
    let mut emptys = t.empty_cells();
    let ghost listed = emptys@;
    shuffle(rng, &mut emptys);
    proof {
        lemma_cost_zero_iff_consistent(g0);
        lemma_empty_positions_list_empties(g0);
        lemma_rearranged_lists_empties(g0, listed, emptys@);
    }
    if dfs_rand(&mut t, 0, &emptys, rng) {
        Ok(t)
    } else {
        Err("No solution found")
    }
}

/// The number of moves that one run of annealing is given by default.
pub const ANNEALING_ITERS: u32 = 130000;

/// `sz` digits, each drawn from 1 to 9 with `rng`. Where none is asked
/// for, nothing is drawn.
pub fn generate_digits(sz: usize, rng: &mut StdRng) -> (values: Vec<u8>)
    ensures
        values@.len() == sz,
        forall|k: int| 0 <= k < sz ==> 1 <= #[trigger] values@[k] <= 9,
        sz == 0 ==> *final(rng) == *old(rng),
{
    let mut res: Vec<u8> = Vec::with_capacity(sz);
    for i in 0..sz
        invariant
            res@.len() == i,
            forall|k: int| 0 <= k < i ==> 1 <= #[trigger] res@[k] <= 9,
            sz == 0 ==> *rng == *old(rng),
    {
        let digit = uniform(rng, 1, 9);
        res.push(digit as u8);
    }
    res
}

/// Writes `values[k]` at `emptys[k]`, for each `k` in turn.
pub fn apply(t: &mut Table, emptys: &Vec<(usize, usize)>, values: &Vec<u8>)
    requires
        emptys@.len() == values@.len(),
        forall|k: int| 0 <= k < emptys@.len() ==> on_board(#[trigger] emptys@[k]),
    ensures
        final(t)@ == filled_in(old(t)@, emptys@, values@, emptys@.len() as int),
{
    for i in 0..emptys.len()
        invariant
            emptys@.len() == values@.len(),
            forall|k: int| 0 <= k < emptys@.len() ==> on_board(#[trigger] emptys@[k]),
            t@ == filled_in(old(t)@, emptys@, values@, i as int),
    {
        assert(on_board(emptys@[i as int]));
        t.set(emptys[i].0, emptys[i].1, Cell::Digit(values[i]));
    }
}

/// How many of the three units through `(r, c)` repeat a digit.
fn invalid_near(t: &Table, r: usize, c: usize) -> (count: i16)
    requires
        t.wf(),
        r < 9,
        c < 9,
    ensures
        count == invalid_around(t@, r as int, c as int),
        0 <= count <= 3,
{
    let mut count: i16 = 0;
    if !t.row_is_ok(r) {
        count += 1;
    }
    if !t.col_is_ok(c) {
        count += 1;
    }
    if !t.group_is_ok(r / 3, c / 3) {
        count += 1;
    }
    count
}

/// What writing digit `d` at `(r, c)` would add to the number of units
/// that repeat a digit. Only the row, the column and the group through the
/// cell are looked at; the board is left as it was.
pub fn calc_change(t: &mut Table, r: usize, c: usize, d: u8) -> (delta: i16)
    requires
        old(t).wf(),
        r < 9,
        c < 9,
        1 <= d <= 9,
    ensures
        final(t)@ == old(t)@,
        delta == change(old(t)@, r as int, c as int, Cell::Digit(d)),
        -3 <= delta <= 3,
{
    let ghost g0 = t@;
    let old_cell = t.get(r, c);
    let had = invalid_near(t, r, c);
    t.set(r, c, Cell::Digit(d));
    proof {
        lemma_with_cell_well_formed(g0, r as int, c as int, Cell::Digit(d));
        lemma_change_is_local(g0, r as int, c as int, Cell::Digit(d));
    }
    let got = invalid_near(t, r, c);
    t.set(r, c, old_cell);
    proof {
        assert(t@ =~~= g0);
    }
    got - had
}

/// Whether a move that changes the cost by `delta` is taken: always when
/// it does not raise the cost, else only when `lenient` says so.
pub fn takes_move(delta: i16, lenient: bool) -> (taken: bool)
    ensures
        taken == (delta <= 0 || lenient),
{
    delta <= 0 || lenient
}

/// Decides a proposed move: writes digit `d` at `(row, col)` if that does
/// not raise the cost or if `lenient` allows the rise, and leaves the board
/// as it is otherwise. `cost` is the cost of the board and `delta` what the
/// move would add to it; the answer is the cost of the board afterwards.
pub fn commit_move(
    t: &mut Table,
    cost: i16,
    row: usize,
    col: usize,
    d: u8,
    delta: i16,
    lenient: bool,
) -> (next: i16)
    requires
        old(t).wf(),
        row < 9,
        col < 9,
        1 <= d <= 9,
        cost == invalid_units(old(t)@),
        delta == change(old(t)@, row as int, col as int, Cell::Digit(d)),
    ensures
        final(t).wf(),
        final(t)@ == (if delta <= 0 || lenient {
            with_cell(old(t)@, row as int, col as int, Cell::Digit(d))
        } else {
            old(t)@
        }),
        next == invalid_units(final(t)@),
        next == (if delta <= 0 || lenient {
            cost + delta
        } else {
            cost as int
        }),
{
    if takes_move(delta, lenient) {
        proof {
            lemma_with_cell_well_formed(t@, row as int, col as int, Cell::Digit(d));
            lemma_cost_zero_iff_consistent(t@);
            lemma_cost_zero_iff_consistent(with_cell(t@, row as int, col as int, Cell::Digit(d)));
        }
        t.set(row, col, Cell::Digit(d));
        cost + delta
    } else {
        cost
    }
}

/// The answer for the board a run ends with: the board itself if it is a
/// finished puzzle, `Err("No solution found")` if it is not.
pub fn verdict(t: Table) -> (res: Result<Table, &'static str>)
    requires
        t.wf(),
    ensures
        res is Ok <==> solved(t@),
        match res {
            Ok(s) => s == t,
            Err(e) => e@ == "No solution found"@,
        },
{
    if t.solved() {
        Ok(t)
    } else {
        Err("No solution found")
    }
}

/// Tries to solve the puzzle by simulated annealing.
///
/// Every empty cell gets a digit drawn with `rng`. Then, up to
/// `iterations` times and while some unit repeats a digit, an empty cell
/// of the puzzle and a digit are drawn, and [`commit_move`] decides the
/// move: the digit is written if that does not raise the number of units
/// that repeat a digit, or if `accept_worse`, asked with the rise and the
/// number of the move, allows it. [`verdict`] answers for the board that
/// is left.
///
/// Whatever is drawn and allowed, `Ok` holds a solution of the puzzle. A
/// puzzle without empty cells is answered by [`verdict`] alone, and
/// nothing is drawn for it.
pub fn solve_simulated_annealing_single<F: Fn(i16, u32) -> bool>(
    t: Table,
    rng: &mut StdRng,
    iterations: u32,
    accept_worse: F,
) -> (res: Result<Table, &'static str>)
    requires
        t.wf(),
        forall|delta: i16, step: u32|
            1 <= delta <= 3 && step < iterations ==> call_requires(accept_worse, (delta, step)),
    ensures
        match res {
            Ok(s) => completes(s@, t@),
            Err(e) => e@ == "No solution found"@,
        },
        complete(t@) ==> (res is Ok <==> consistent(t@)),
        complete(t@) && res is Ok ==> res->Ok_0 == t,
        complete(t@) ==> *final(rng) == *old(rng),
{
    let mut t = t;
    let ghost g0 = t@;
    let emptys = t.empty_cells();
    proof {
        lemma_empty_positions_list_empties(g0);
        lemma_complete_iff_no_empty_positions(g0);
    }
    if emptys.len() == 0 {
        return verdict(t);
    }
    let values = generate_digits(emptys.len(), rng);
    apply(&mut t, &emptys, &values);
    proof {
        lemma_filled_in(g0, emptys@, values@);
    }
    let mut opt: i16 = inversions(&t);
    let mut iters: u32 = 0;
    while opt != 0 && iters < iterations
        invariant
            emptys@.len() > 0,
            lists_empties(g0, emptys@, 0),
            forall|delta: i16, step: u32|
                1 <= delta <= 3 && step < iterations ==> call_requires(accept_worse, (delta, step)),
            t.wf(),
            extends(t@, g0),
            opt == invalid_units(t@),
            0 <= opt <= 27,
        decreases iterations - iters,
    {
        let i = uniform(rng, 0, emptys.len() - 1);
        let d = uniform(rng, 1, 9) as u8;
        let (row, col) = emptys[i];
        proof {
            assert(on_board(emptys@[i as int]));
            assert(at(g0, emptys@[i as int]) is Empty);
            lemma_with_cell_extends(t@, g0, row as int, col as int, Cell::Digit(d));
        }
        let delta = calc_change(&mut t, row, col, d);
        let lenient = delta > 0 && accept_worse(delta, iters);
        opt = commit_move(&mut t, opt, row, col, d, delta, lenient);
        proof {
            lemma_cost_zero_iff_consistent(t@);
        }
        iters += 1;
    }
    verdict(t)
}

} // verus!
