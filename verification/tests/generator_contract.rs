use map_loader_wasm::generator::{
    adjacent_obstacle_pairs, chebyshev, count_turns, hint_legs, manhattan, obstacle_count,
    obstacle_spread_totals, Generation, GeneratedPuzzle,
};
use map_loader_wasm::grid::Grid;
use map_loader_wasm::rng::Rng;
use map_loader_wasm::solver::{
    count_covering_paths, count_covering_paths_with_waypoints,
    find_up_to_solutions_with_waypoints, is_valid_covering_path,
};
use map_loader_wasm::{GenerateRequest, Waypoint};

fn request_with_budget(seed: u64, target_ms: u32, max_ms: u32, sizes: Vec<usize>) -> GenerateRequest {
    GenerateRequest {
        seed,
        target_ms,
        max_ms,
        sizes,
        quality: "balanced".to_string(),
    }
}

/// Runs a generation to the end, scoring every candidate the same.
fn run_generation(request: &GenerateRequest) -> GeneratedPuzzle {
    let mut generation = Generation::new(request);
    while generation.wants_attempt() {
        if generation.attempt() {
            generation.offer_pending(0);
        }
    }
    generation.finish()
}

fn constraints(puzzle: &GeneratedPuzzle) -> Vec<(usize, usize)> {
    puzzle
        .waypoints
        .iter()
        .map(|w| (w.step, w.pos[0] * puzzle.size + w.pos[1]))
        .collect()
}

#[test]
fn rng_is_deterministic() {
    let mut a = Rng::new(123);
    let mut b = Rng::new(123);
    let first: Vec<u32> = (0..5).map(|_| a.next_u32()).collect();
    let second: Vec<u32> = (0..5).map(|_| b.next_u32()).collect();
    assert_eq!(first, second);
}

#[test]
fn grid_precomputes_cardinal_neighbors() {
    let grid = Grid::new(3, 3);
    assert_eq!(grid.neighbors(4), &[7, 1, 5, 3]);
    assert_eq!(grid.neighbors(0), &[3, 1]);
}

#[test]
fn solver_accepts_covering_snake_path() {
    let grid = Grid::new(3, 3);
    let path = vec![0, 1, 2, 5, 4, 3, 6, 7, 8];
    let obstacles = vec![0; 9];
    assert!(is_valid_covering_path(&grid, &obstacles, &path));
}

#[test]
fn solver_rejects_revisited_cell() {
    let grid = Grid::new(3, 3);
    let path = vec![0, 1, 1, 2, 5, 4, 3, 6, 7];
    let obstacles = vec![0; 9];
    assert!(!is_valid_covering_path(&grid, &obstacles, &path));
}

#[test]
fn rng_first_output_is_the_xorshift_upper_half() {
    // 1 -> 1 ^ (1 << 13) = 0x2001; ^ (>> 7) = 0x2001 ^ 0x40 = 0x2041;
    // ^ (<< 17) = 0x2041 ^ 0x4082_0000 = 0x4082_2041; upper half is 0.
    let mut rng = Rng::new(1);
    assert_eq!(rng.next_u32(), 0);
    let mut seeded = Rng::new(123);
    let outputs: Vec<u32> = (0..5).map(|_| seeded.next_u32()).collect();
    assert_eq!(outputs, vec![30, 2954803736, 1750129727, 2052991048, 2556311868]);
    let mut zero_seed = Rng::new(0);
    let mut one_seed = Rng::new(1);
    assert_eq!(zero_seed.next_u32(), one_seed.next_u32());
    assert_eq!(zero_seed.next_u32(), one_seed.next_u32());
}

#[test]
fn rng_range_stays_below_upper_and_is_zero_for_small_upper() {
    let mut rng = Rng::new(99);
    for upper in 2..50usize {
        assert!(rng.range(upper) < upper);
    }
    assert_eq!(rng.range(0), 0);
    assert_eq!(rng.range(1), 0);
}

#[test]
fn rng_shuffle_keeps_the_elements() {
    let mut rng = Rng::new(7);
    let mut values: Vec<usize> = (0..20).collect();
    rng.shuffle(&mut values);
    assert_eq!(
        values,
        vec![17, 19, 2, 9, 13, 11, 5, 15, 3, 8, 4, 7, 12, 18, 6, 10, 16, 0, 14, 1]
    );
    let mut sorted = values.clone();
    sorted.sort();
    assert_eq!(sorted, (0..20).collect::<Vec<usize>>());
    let mut other = Rng::new(7);
    let mut again: Vec<usize> = (0..20).collect();
    other.shuffle(&mut again);
    assert_eq!(values, again);
}

#[test]
fn grid_numbers_cells_row_by_row() {
    let grid = Grid::new(4, 5);
    assert_eq!(grid.rows(), 4);
    assert_eq!(grid.cols(), 5);
    assert_eq!(grid.idx(2, 3), 13);
    assert_eq!(grid.row_col(13), [2, 3]);
    assert_eq!(grid.neighbors(19), &[14, 18]);
    assert_eq!(grid.neighbors(10), &[15, 5, 11]);
}

#[test]
fn solver_rejects_wrong_map_size_obstacle_cells_and_jumps() {
    let grid = Grid::new(2, 2);
    assert!(!is_valid_covering_path(&grid, &[0, 0, 0], &[0, 1, 3]));
    assert!(!is_valid_covering_path(&grid, &[0, 0, 0, 1], &[0, 1, 3]));
    assert!(!is_valid_covering_path(&grid, &[0, 0, 0, 0], &[0, 3, 1, 2]));
    assert!(!is_valid_covering_path(&grid, &[0, 0, 0, 0], &[0, 1, 3]));
    assert!(is_valid_covering_path(&grid, &[0, 0, 0, 0], &[0, 1, 3, 2]));
    assert!(is_valid_covering_path(&grid, &[0, 0, 1, 0], &[0, 1, 3]));
}

#[test]
fn counting_paths_between_endpoints() {
    // On an open 2x2 board the only covering path from 0 to 1 is 0-2-3-1.
    let grid = Grid::new(2, 2);
    let count = count_covering_paths(&grid, &[0, 0, 0, 0], 0, 1, 2, 1000);
    assert_eq!(count.solutions, 1);
    assert!(count.solver_calls >= 1);
    // A 3x3 open board has no covering path between two edge midpoints.
    let grid = Grid::new(3, 3);
    let none = count_covering_paths(&grid, &[0; 9], 1, 3, 2, 10_000);
    assert_eq!(none.solutions, 0);
    // A map of the wrong size counts nothing and spends nothing.
    let wrong = count_covering_paths(&grid, &[0; 8], 0, 8, 2, 10_000);
    assert_eq!(wrong.solutions, 0);
    assert_eq!(wrong.solver_calls, 0);
}

#[test]
fn search_finds_every_solution_below_the_cap() {
    // Covering paths of an open 2x2 board that start at 0: 0-1-3-2 and 0-2-3-1.
    let grid = Grid::new(2, 2);
    let result = find_up_to_solutions_with_waypoints(&grid, &[0; 4], &[(1, 0)], 5, 1000);
    assert!(!result.exhausted);
    let mut solutions = result.solutions.clone();
    solutions.sort();
    assert_eq!(solutions, vec![vec![0, 1, 3, 2], vec![0, 2, 3, 1]]);
    // With a cap of one, one of them.
    let capped = find_up_to_solutions_with_waypoints(&grid, &[0; 4], &[(1, 0)], 1, 1000);
    assert_eq!(capped.solutions.len(), 1);
}

#[test]
fn search_reports_exhaustion_and_unusable_waypoints() {
    let grid = Grid::new(3, 3);
    let exhausted = find_up_to_solutions_with_waypoints(&grid, &[0; 9], &[(1, 0)], 50, 3);
    assert!(exhausted.exhausted);
    assert_eq!(exhausted.solver_calls, 3);
    // No waypoint fixes the first step.
    let no_start = find_up_to_solutions_with_waypoints(&grid, &[0; 9], &[(2, 1)], 2, 100);
    assert!(no_start.solutions.is_empty());
    assert_eq!(no_start.solver_calls, 0);
    assert!(!no_start.exhausted);
    // One step given two cells.
    let clash = find_up_to_solutions_with_waypoints(&grid, &[0; 9], &[(1, 0), (1, 2)], 2, 100);
    assert!(clash.solutions.is_empty());
    // A waypoint on an obstacle.
    let mut blocked = vec![0u8; 9];
    blocked[4] = 1;
    let on_obstacle = find_up_to_solutions_with_waypoints(&grid, &blocked, &[(1, 4)], 2, 100);
    assert!(on_obstacle.solutions.is_empty());
    // An exhausted count reports the cap.
    let count = count_covering_paths_with_waypoints(&grid, &[0; 9], &[(1, 0)], 2, 3);
    assert_eq!(count.solutions, 2);
    assert_eq!(count.solver_calls, 3);
}

#[test]
fn waypoints_pin_down_a_single_solution() {
    // 0-1-3-2 and 0-2-3-1 both start at 0; fixing step 2 at cell 1 leaves one.
    let grid = Grid::new(2, 2);
    let count = count_covering_paths_with_waypoints(&grid, &[0; 4], &[(1, 0), (2, 1)], 2, 1000);
    assert_eq!(count.solutions, 1);
    let result = find_up_to_solutions_with_waypoints(&grid, &[0; 4], &[(1, 0), (2, 1)], 2, 1000);
    assert_eq!(result.solutions, vec![vec![0, 1, 3, 2]]);
}

#[test]
fn distances_between_positions() {
    assert_eq!(manhattan([1, 5], [4, 2]), 6);
    assert_eq!(chebyshev([1, 5], [4, 2]), 3);
    assert_eq!(chebyshev([0, 0], [0, 7]), 7);
    assert_eq!(manhattan([3, 3], [3, 3]), 0);
}

#[test]
fn turns_count_changes_of_direction() {
    // On a 3-column board: 0-1-2 is straight, 2-5 turns down, 5-4 turns left.
    assert_eq!(count_turns(&[0, 1, 2, 5, 4, 3], 3), 2);
    assert_eq!(count_turns(&[0, 1, 2], 3), 0);
    assert_eq!(count_turns(&[0, 3], 3), 0);
}

#[test]
fn adjacent_obstacles_are_counted_once_per_pair() {
    let grid = Grid::new(3, 3);
    // Obstacles at 0, 1 and 3: pairs 0-1 and 0-3.
    let obstacles = vec![1, 1, 0, 1, 0, 0, 0, 0, 0];
    assert_eq!(adjacent_obstacle_pairs(&grid, &obstacles), 2);
    assert_eq!(adjacent_obstacle_pairs(&grid, &[0; 9]), 0);
}

fn check_puzzle(puzzle: &GeneratedPuzzle) {
    let grid = Grid::new(puzzle.size, puzzle.size);
    assert_eq!(puzzle.obstacles.len(), puzzle.size * puzzle.size);
    assert!(is_valid_covering_path(&grid, &puzzle.obstacles, &puzzle.path));
    assert_eq!(puzzle.solution.len(), puzzle.path.len());
    for (cell, idx) in puzzle.solution.iter().zip(puzzle.path.iter()) {
        assert_eq!(cell[0] * puzzle.size + cell[1], *idx);
        assert_eq!(puzzle.obstacles[*idx], 0);
    }
    assert!(puzzle.waypoints.len() >= 2);
    assert_eq!(puzzle.waypoints.first().unwrap().step, 1);
    assert_eq!(puzzle.waypoints.last().unwrap().step, puzzle.path.len());
    for pair in puzzle.waypoints.windows(2) {
        assert!(pair[1].step - pair[0].step >= 2);
    }
    for w in &puzzle.waypoints {
        assert_eq!(w.pos, grid.row_col(puzzle.path[w.step - 1]));
    }
    for pair in puzzle.waypoints.windows(2) {
        assert!(manhattan(pair[0].pos, pair[1].pos) <= pair[1].step - pair[0].step);
    }
    let obstacle_count = puzzle.obstacles.iter().filter(|v| **v == 1).count();
    let total = puzzle.size * puzzle.size;
    assert_eq!(obstacle_count, total - puzzle.path.len());
    assert!(obstacle_count >= (total / 5).max(3));
    assert!(puzzle.candidate_attempts >= 1);
    assert!(puzzle.solver_calls >= 1);
    assert!(puzzle.unique_checks >= 1);
    assert_eq!(puzzle.degradation_level, if puzzle.degraded { 1 } else { 0 });
    if !puzzle.fallback {
        let count = count_covering_paths_with_waypoints(
            &grid,
            &puzzle.obstacles,
            &constraints(puzzle),
            2,
            60_000,
        );
        assert_eq!(count.solutions, 1);
    }
}

#[test]
fn generation_keeps_the_requested_size_and_a_sound_puzzle() {
    for (size, seed) in [(8usize, 3u64), (9, 42), (10, 99), (11, 12)] {
        let puzzle = run_generation(&request_with_budget(seed, 5_000, 10_000, vec![size]));
        assert_eq!(puzzle.size, size);
        check_puzzle(&puzzle);
    }
}

#[test]
fn generation_takes_the_first_supported_size() {
    let puzzle = run_generation(&request_with_budget(7, 1, 1, vec![5, 12, 10, 9]));
    assert_eq!(puzzle.size, 10);
    let puzzle = run_generation(&request_with_budget(7, 1, 1, vec![4, 20]));
    assert_eq!(puzzle.size, 9);
}

#[test]
fn tiny_budget_takes_the_fallback_layout_at_full_size() {
    let puzzle = run_generation(&request_with_budget(12, 0, 0, vec![11, 10, 9]));
    assert_eq!(puzzle.size, 11);
    assert!(puzzle.fallback);
    assert!(puzzle.degraded);
    assert_eq!(puzzle.degradation_level, 1);
    assert_eq!(puzzle.candidate_attempts, 1);
    // A fifth of the 121 cells become obstacles.
    assert_eq!(puzzle.obstacles.iter().filter(|v| **v == 1).count(), 24);
    check_puzzle(&puzzle);
}

#[test]
fn generation_is_seed_deterministic() {
    let request = request_with_budget(99, 5_000, 10_000, vec![9]);
    let a = run_generation(&request);
    let b = run_generation(&request);
    assert_eq!(a.path, b.path);
    assert_eq!(a.obstacles, b.obstacles);
    assert_eq!(a.waypoints, b.waypoints);
    assert_eq!(a.fallback, b.fallback);
}

#[test]
fn attempts_stop_at_the_budget() {
    // A 1,000 ms target allows 8 attempts.
    let request = request_with_budget(5, 1_000, 10_000, vec![8]);
    let mut generation = Generation::new(&request);
    let mut attempts = 0;
    while generation.wants_attempt() {
        attempts += 1;
        if generation.attempt() {
            assert!(generation.pending_candidate().is_some());
            generation.offer_pending(attempts);
            assert!(generation.pending_candidate().is_none());
        }
    }
    assert_eq!(attempts, 8);
    assert!(!generation.attempt());
    let puzzle = generation.finish();
    assert_eq!(puzzle.candidate_attempts, 8);
    check_puzzle(&puzzle);
}

#[test]
fn waypoint_equality_compares_step_and_position() {
    let a = Waypoint { step: 3, pos: [1, 2] };
    assert_eq!(a, Waypoint { step: 3, pos: [1, 2] });
    assert_ne!(a, Waypoint { step: 3, pos: [2, 1] });
}

#[test]
fn a_covering_path_visits_exactly_the_open_cells() {
    let grid = Grid::new(3, 3);
    let obstacles = vec![0, 0, 0, 1, 1, 0, 0, 0, 0];
    let path = vec![6, 7, 8, 5, 2, 1, 0];
    assert!(is_valid_covering_path(&grid, &obstacles, &path));
    for cell in 0..9 {
        assert_eq!(path.contains(&cell), obstacles[cell] == 0);
    }
    // Walked backwards it is still a covering path.
    let reversed: Vec<usize> = path.iter().rev().copied().collect();
    assert!(is_valid_covering_path(&grid, &obstacles, &reversed));
}

#[test]
fn neighbours_are_mutual() {
    let grid = Grid::new(3, 4);
    for a in 0..12 {
        for b in grid.neighbors(a) {
            assert!(grid.neighbors(*b).contains(&a));
        }
    }
}

#[test]
fn obstacle_spread_adds_king_distances_over_pairs() {
    let grid = Grid::new(3, 3);
    let diagonal = [1, 0, 0, 0, 1, 0, 0, 0, 1];
    assert_eq!(obstacle_count(&diagonal), 3);
    assert_eq!(obstacle_spread_totals(&grid, &diagonal), (4, 3));
    let single = [0, 0, 0, 0, 1, 0, 0, 0, 0];
    assert_eq!(obstacle_count(&single), 1);
    assert_eq!(obstacle_spread_totals(&grid, &single), (0, 0));
    assert_eq!(obstacle_spread_totals(&grid, &[0; 9]), (0, 0));
    let corners = [1, 0, 1, 0, 0, 0, 1, 0, 1];
    assert_eq!(obstacle_spread_totals(&grid, &corners), (12, 6));
}

#[test]
fn hint_legs_skip_hints_on_the_same_cell() {
    let hints = [
        Waypoint { step: 1, pos: [0, 0] },
        Waypoint { step: 3, pos: [0, 2] },
        Waypoint { step: 4, pos: [0, 2] },
        Waypoint { step: 9, pos: [2, 2] },
    ];
    assert_eq!(hint_legs(&hints), vec![(2, 2), (5, 2)]);
    assert_eq!(hint_legs(&hints[..1]), Vec::<(usize, usize)>::new());
    assert_eq!(hint_legs(&[]), Vec::<(usize, usize)>::new());
}

#[test]
fn search_reports_solutions_in_search_order() {
    let grid = Grid::new(2, 2);
    let open = [0u8; 4];
    let both = find_up_to_solutions_with_waypoints(&grid, &open, &[(1, 0)], 2, 100);
    assert!(!both.exhausted);
    assert_eq!(both.solutions, vec![vec![0, 2, 3, 1], vec![0, 1, 3, 2]]);
    let first = find_up_to_solutions_with_waypoints(&grid, &open, &[(1, 0)], 1, 100);
    assert_eq!(first.solutions, vec![vec![0, 2, 3, 1]]);
}

#[test]
fn complete_search_visits_each_walk_once() {
    let grid = Grid::new(2, 2);
    let open = [0u8; 4];
    let all = find_up_to_solutions_with_waypoints(&grid, &open, &[(1, 0)], 3, 100);
    assert!(!all.exhausted);
    assert_eq!(all.solutions.len(), 2);
    assert_eq!(all.solver_calls, 7);
    let count = count_covering_paths_with_waypoints(&grid, &open, &[(1, 0)], 3, 100);
    assert_eq!(count.solutions, 2);
    assert_eq!(count.solver_calls, 7);
}

#[test]
fn search_stops_at_the_cap_it_reaches_first() {
    let grid = Grid::new(2, 2);
    let open = [0u8; 4];
    let first = find_up_to_solutions_with_waypoints(&grid, &open, &[(1, 0)], 1, 100);
    assert!(!first.exhausted);
    assert_eq!(first.solver_calls, 4);
    let short = find_up_to_solutions_with_waypoints(&grid, &open, &[(1, 0)], 2, 3);
    assert!(short.exhausted);
    assert_eq!(short.solver_calls, 3);
    assert!(short.solutions.is_empty());
    let last_visit = find_up_to_solutions_with_waypoints(&grid, &open, &[(1, 0)], 2, 4);
    assert!(last_visit.exhausted);
    assert!(last_visit.solutions.is_empty());
    let one_more = find_up_to_solutions_with_waypoints(&grid, &open, &[(1, 0)], 2, 5);
    assert!(one_more.exhausted);
    assert_eq!(one_more.solutions, vec![vec![0, 2, 3, 1]]);
}
