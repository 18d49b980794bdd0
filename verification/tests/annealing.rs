use std::cell::RefCell;

use rand::rngs::StdRng;
use rand::{Rng, SeedableRng};
use sudoku_solver_ed::grid::{Cell, Table};
use sudoku_solver_ed::solver::{
    apply, calc_change, commit_move, generate_digits, inversions,
    solve_simulated_annealing_single, takes_move, verdict, ANNEALING_ITERS,
};

const SOLVED: [[u8; 9]; 9] = [
    [4, 3, 5, 2, 6, 9, 7, 8, 1],
    [6, 8, 2, 5, 7, 1, 4, 9, 3],
    [1, 9, 7, 8, 3, 4, 5, 6, 2],
    [8, 2, 6, 1, 9, 5, 3, 4, 7],
    [3, 7, 4, 6, 8, 2, 9, 1, 5],
    [9, 5, 1, 7, 4, 3, 6, 2, 8],
    [5, 1, 9, 3, 2, 6, 8, 7, 4],
    [2, 4, 8, 9, 5, 7, 1, 3, 6],
    [7, 6, 3, 4, 1, 8, 2, 5, 9],
];

fn easy_puzzle() -> [[u8; 9]; 9] {
    let mut arr = SOLVED;
    for (r, c) in [(0, 0), (1, 3), (2, 6), (3, 1), (4, 4)] {
        arr[r][c] = 0;
    }
    arr
}

fn metropolis(delta: i16, step: u32, draw: f32) -> bool {
    let temperature = 0.99f32.powi(step as i32);
    draw < (-(delta as f32) / temperature).exp()
}

#[test]
fn annealing_solves_an_easy_puzzle() {
    for seed in 0..5u64 {
        let mut rng = StdRng::seed_from_u64(seed);
        let draws = RefCell::new(StdRng::seed_from_u64(seed + 1000));
        let res = solve_simulated_annealing_single(
            Table::from_arr(easy_puzzle()),
            &mut rng,
            ANNEALING_ITERS,
            |delta, step| metropolis(delta, step, draws.borrow_mut().gen_range(0.0..1.0)),
        );
        let solved = res.unwrap();
        assert!(solved.solved());
        assert_eq!(solved, Table::from_arr(SOLVED));
    }
}

#[test]
fn annealing_success_is_always_a_solution() {
    let mut arr = SOLVED;
    for r in 0..9 {
        arr[r][(2 * r) % 9] = 0;
        arr[r][(2 * r + 4) % 9] = 0;
    }
    let puzzle = Table::from_arr(arr);
    for seed in 0..20u64 {
        let mut rng = StdRng::seed_from_u64(seed);
        let draws = RefCell::new(StdRng::seed_from_u64(!seed));
        let res = solve_simulated_annealing_single(puzzle.clone(), &mut rng, 300, |delta, step| {
            metropolis(delta, step, draws.borrow_mut().gen_range(0.0..1.0))
        });
        match res {
            Ok(s) => {
                assert!(s.solved());
                for r in 0..9 {
                    for c in 0..9 {
                        if arr[r][c] != 0 {
                            assert_eq!(s.grid[r][c], Cell::Digit(arr[r][c]));
                        }
                    }
                }
            }
            Err(e) => assert_eq!(e, "No solution found"),
        }
    }
}

#[test]
fn annealing_without_moves_fails_on_an_open_puzzle_it_cannot_guess() {
    // No move is allowed, so only the first random filling could solve it.
    let mut failures = 0;
    for seed in 0..10u64 {
        let mut rng = StdRng::seed_from_u64(seed);
        let res = solve_simulated_annealing_single(
            Table::default(),
            &mut rng,
            0,
            |_delta, _step| false,
        );
        if res == Err("No solution found") {
            failures += 1;
        }
    }
    assert_eq!(failures, 10);
}

#[test]
fn annealing_on_a_full_board_is_the_check() {
    let mut rng = StdRng::seed_from_u64(7);
    let solved = Table::from_arr(SOLVED);
    assert_eq!(
        solve_simulated_annealing_single(solved.clone(), &mut rng, 10, |_d, _s| true),
        Ok(solved)
    );
    let mut arr = SOLVED;
    arr[0][0] = 3;
    assert_eq!(
        solve_simulated_annealing_single(Table::from_arr(arr), &mut rng, 10, |_d, _s| true),
        Err("No solution found")
    );
}

#[test]
fn annealing_on_an_unsolvable_puzzle_fails() {
    let mut arr = SOLVED;
    arr[0][8] = 0;
    arr[1][8] = 1;
    arr[1][5] = 0;
    let mut rng = StdRng::seed_from_u64(3);
    let res = solve_simulated_annealing_single(Table::from_arr(arr), &mut rng, 2000, |_d, _s| {
        false
    });
    assert_eq!(res, Err("No solution found"));
}

#[test]
fn generated_digits_are_digits() {
    let mut rng = StdRng::seed_from_u64(11);
    let values = generate_digits(500, &mut rng);
    assert_eq!(values.len(), 500);
    assert!(values.iter().all(|&v| (1..=9).contains(&v)));
    for d in 1..=9u8 {
        assert!(values.contains(&d));
    }
    assert!(generate_digits(0, &mut rng).is_empty());
}

#[test]
fn apply_writes_each_value_at_its_cell() {
    let mut t = Table::from_arr(easy_puzzle());
    let emptys = t.empty_cells();
    assert_eq!(emptys, vec![(0, 0), (1, 3), (2, 6), (3, 1), (4, 4)]);
    apply(&mut t, &emptys, &vec![9, 8, 7, 6, 5]);
    let mut expected = easy_puzzle();
    expected[0][0] = 9;
    expected[1][3] = 8;
    expected[2][6] = 7;
    expected[3][1] = 6;
    expected[4][4] = 5;
    assert_eq!(t, Table::from_arr(expected));
}

#[test]
fn inversions_counts_the_bad_units() {
    assert_eq!(inversions(&Table::default()), 0);
    assert_eq!(inversions(&Table::from_arr(SOLVED)), 0);
    assert_eq!(inversions(&Table::new([[Cell::Digit(3); 9]; 9])), 27);

    let mut t = Table::default();
    t.grid[0][0] = Cell::Digit(1);
    t.grid[0][1] = Cell::Digit(1);
    assert_eq!(inversions(&t), 2);
    t.grid[1][0] = Cell::Digit(1);
    assert_eq!(inversions(&t), 3);
    t.grid[8][8] = Cell::Digit(1);
    assert_eq!(inversions(&t), 3);
    t.grid[8][0] = Cell::Digit(1);
    assert_eq!(inversions(&t), 4);
}

#[test]
fn calc_change_is_the_change_of_inversions() {
    let mut t = Table::default();
    t.grid[0][0] = Cell::Digit(1);
    let before = Table::from(&t);
    assert_eq!(calc_change(&mut t, 0, 1, 1), 2);
    assert_eq!(calc_change(&mut t, 0, 8, 1), 1);
    assert_eq!(calc_change(&mut t, 8, 0, 1), 1);
    assert_eq!(calc_change(&mut t, 1, 1, 1), 1);
    assert_eq!(calc_change(&mut t, 4, 4, 1), 0);
    assert_eq!(calc_change(&mut t, 0, 1, 2), 0);
    assert_eq!(calc_change(&mut t, 0, 0, 5), 0);
    assert_eq!(t, before);

    t.grid[0][1] = Cell::Digit(1);
    t.grid[1][0] = Cell::Digit(1);
    assert_eq!(inversions(&t), 3);
    assert_eq!(calc_change(&mut t, 0, 0, 2), -2);
    assert_eq!(calc_change(&mut t, 0, 1, 2), -1);
    assert_eq!(calc_change(&mut t, 0, 1, 1), 0);
    t.grid[1][0] = Cell::Empty;
    assert_eq!(inversions(&t), 2);
    assert_eq!(calc_change(&mut t, 0, 0, 2), -2);

    let mut s = Table::from_arr(SOLVED);
    for r in 0..9 {
        for c in 0..9 {
            for d in 1..=9u8 {
                let delta = calc_change(&mut s, r, c, d);
                let mut moved = Table::from_arr(SOLVED);
                moved.grid[r][c] = Cell::Digit(d);
                assert_eq!(delta, inversions(&moved));
                assert_eq!(delta, if d == SOLVED[r][c] { 0 } else { 3 });
            }
        }
    }
    assert_eq!(s, Table::from_arr(SOLVED));
}

#[test]
fn moves_that_do_not_hurt_are_taken() {
    assert!(takes_move(-3, false));
    assert!(takes_move(0, false));
    assert!(!takes_move(1, false));
    assert!(takes_move(1, true));
    assert!(takes_move(3, true));
}

#[test]
fn one_open_cell_is_filled_once_its_digit_is_drawn() {
    for (r, c) in [(0, 0), (4, 4), (8, 8), (2, 7)] {
        let mut arr = SOLVED;
        arr[r][c] = 0;
        for seed in 0..5u64 {
            let mut rng = StdRng::seed_from_u64(seed);
            let res = solve_simulated_annealing_single(
                Table::from_arr(arr),
                &mut rng,
                ANNEALING_ITERS,
                |_delta, _step| false,
            );
            assert_eq!(res, Ok(Table::from_arr(SOLVED)));
        }
    }
}

#[test]
fn full_board_draws_nothing() {
    let mut rng = StdRng::seed_from_u64(21);
    let untouched = rng.clone();
    let solved = Table::from_arr(SOLVED);
    assert_eq!(
        solve_simulated_annealing_single(solved.clone(), &mut rng, ANNEALING_ITERS, |_d, _s| true),
        Ok(solved)
    );
    assert_eq!(rng, untouched);
    let mut arr = SOLVED;
    arr[8][8] = 1;
    assert_eq!(
        solve_simulated_annealing_single(
            Table::from_arr(arr),
            &mut rng,
            ANNEALING_ITERS,
            |_d, _s| true
        ),
        Err("No solution found")
    );
    assert_eq!(rng, untouched);
    assert!(generate_digits(0, &mut rng).is_empty());
    assert_eq!(rng, untouched);
    assert_eq!(generate_digits(1, &mut rng).len(), 1);
    assert_ne!(rng, untouched);
}

#[test]
fn commit_move_writes_what_is_taken() {
    let mut arr = SOLVED;
    arr[0][0] = 0;
    let open = Table::from_arr(arr);

    // A move that lowers nothing and raises nothing is taken.
    let mut t = Table::from(&open);
    let cost = inversions(&t);
    assert_eq!(cost, 0);
    let delta = calc_change(&mut t, 0, 0, 4);
    assert_eq!(delta, 0);
    assert_eq!(commit_move(&mut t, cost, 0, 0, 4, delta, false), 0);
    assert_eq!(t, Table::from_arr(SOLVED));

    // A move that raises the cost is refused unless it is allowed.
    let mut t = Table::from(&open);
    let delta = calc_change(&mut t, 0, 0, 3);
    assert_eq!(delta, 3);
    assert_eq!(commit_move(&mut t, cost, 0, 0, 3, delta, false), 0);
    assert_eq!(t, open);
    assert_eq!(commit_move(&mut t, cost, 0, 0, 3, delta, true), 3);
    arr[0][0] = 3;
    assert_eq!(t, Table::from_arr(arr));
    assert_eq!(inversions(&t), 3);

    // A move that lowers the cost is taken.
    let cost = inversions(&t);
    let delta = calc_change(&mut t, 0, 0, 4);
    assert_eq!(delta, -3);
    assert_eq!(commit_move(&mut t, cost, 0, 0, 4, delta, false), 0);
    assert_eq!(t, Table::from_arr(SOLVED));
}

#[test]
fn verdict_answers_for_the_board() {
    let solved = Table::from_arr(SOLVED);
    assert_eq!(verdict(solved.clone()), Ok(solved));
    let mut arr = SOLVED;
    arr[3][3] = 0;
    assert_eq!(verdict(Table::from_arr(arr)), Err("No solution found"));
    arr[3][3] = 2;
    assert_eq!(verdict(Table::from_arr(arr)), Err("No solution found"));
    assert_eq!(verdict(Table::default()), Err("No solution found"));
}
