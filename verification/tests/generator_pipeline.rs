//! The whole generation pipeline, driven the way the browser build drives it:
//! the wall clock bounds the attempts and each candidate is scored with the
//! floating-point complexity statistics.
use std::time::Instant;

use map_loader_wasm::generator::{
    adjacent_obstacle_pairs, count_turns, hint_legs, obstacle_count, obstacle_spread_totals, Generation,
};
use map_loader_wasm::grid::Grid;
use map_loader_wasm::solver::{count_covering_paths_with_waypoints, is_valid_covering_path};
use map_loader_wasm::{GenerateRequest, Waypoint};

struct GeneratePhaseTimings {
    candidate_ms: f64,
    quality_ms: f64,
    total_ms: f64,
}

struct GenerateMetrics {
    status: String,
    seed: u64,
    size: usize,
    quality: String,
    quality_score: f64,
    phase_timings: GeneratePhaseTimings,
    total_ms: f64,
    target_ms: u32,
    max_ms: u32,
    degradation_level: u8,
    candidate_attempts: u32,
    solver_calls: u32,
    unique_checks: u32,
    cancelled: bool,
    fallback: bool,
}

struct PuzzleResponse {
    r: usize,
    c: usize,
    obstacles: Vec<u8>,
    solution: Vec<[usize; 2]>,
    waypoints: Vec<Waypoint>,
    difficulty: String,
    metrics: GenerateMetrics,
}

struct ComplexityStats {
    turn_ratio: f64,
    obstacle_spread: f64,
    tort_avg: f64,
    tort_min: f64,
    waypoint_density: f64,
    adjacent_obstacle_ratio: f64,
    obstacle_ratio: f64,
    waypoint_count: usize,
    size: usize,
}

fn elapsed_ms(started: &Instant) -> f64 {
    started.elapsed().as_secs_f64() * 1000.0
}

fn generate_puzzle_for_test(request: GenerateRequest) -> PuzzleResponse {
    let started = Instant::now();
    let max_ms = request.max_ms as f64;
    let mut generation = Generation::new(&request);
    while generation.wants_attempt() {
        if elapsed_ms(&started) >= max_ms {
            break;
        }
        if generation.attempt() {
            let score = match generation.pending_candidate() {
                Some(candidate) => candidate_score(&complexity_stats(
                    generation.grid(),
                    &candidate.path,
                    &candidate.obstacles,
                    &candidate.waypoints,
                )),
                None => 0,
            };
            generation.offer_pending(score);
        }
    }
    let puzzle = generation.finish();
    let elapsed_before_quality = elapsed_ms(&started);
    let grid = Grid::new(puzzle.size, puzzle.size);
    let stats = complexity_stats(&grid, &puzzle.path, &puzzle.obstacles, &puzzle.waypoints);
    let difficulty = difficulty_for(puzzle.fallback, &stats).to_string();
    let total_ms = elapsed_ms(&started);
    let quality_ms = (total_ms - elapsed_before_quality).max(0.0);
    PuzzleResponse {
        r: puzzle.size,
        c: puzzle.size,
        obstacles: puzzle.obstacles,
        solution: puzzle.solution,
        waypoints: puzzle.waypoints,
        difficulty,
        metrics: GenerateMetrics {
            status: "success".to_string(),
            seed: request.seed,
            size: puzzle.size,
            quality: request.quality,
            quality_score: quality_score(puzzle.degraded, puzzle.fallback, &stats),
            phase_timings: GeneratePhaseTimings {
                candidate_ms: elapsed_before_quality,
                quality_ms,
                total_ms,
            },
            total_ms,
            target_ms: request.target_ms,
            max_ms: request.max_ms,
            degradation_level: puzzle.degradation_level,
            candidate_attempts: puzzle.candidate_attempts,
            solver_calls: puzzle.solver_calls,
            unique_checks: puzzle.unique_checks,
            cancelled: false,
            fallback: puzzle.fallback,
        },
    }
}

fn quality_score(degraded: bool, fallback: bool, stats: &ComplexityStats) -> f64 {
    if fallback {
        return 0.5;
    }
    if degraded {
        return 0.75;
    }
    let spread_floor = stats.size as f64 * 0.25;
    let spread_score = (stats.obstacle_spread / spread_floor.max(1.0)).min(1.0);
    let tort_avg_score = (stats.tort_avg / 1.20).min(1.0);
    let tort_min_score = (stats.tort_min / 1.00).min(1.0);
    let adjacency_score = (1.0 - (stats.adjacent_obstacle_ratio / 0.20).min(1.0)).max(0.0);
    let waypoint_score = (1.0 - (stats.waypoint_density / 0.30).min(1.0)).max(0.0);
    let turn_score = (stats.turn_ratio / 0.25).min(1.0);
    let complexity_score = spread_score * 0.18
        + tort_avg_score * 0.24
        + tort_min_score * 0.18
        + adjacency_score * 0.14
        + waypoint_score * 0.10
        + turn_score * 0.16;
    (0.85 + complexity_score * 0.14).clamp(0.0, 0.99)
}

fn difficulty_for(fallback: bool, stats: &ComplexityStats) -> &'static str {
    if fallback {
        return "Easy";
    }
    let score = stats.size as f64
        + stats.turn_ratio * 24.0
        + stats.waypoint_count as f64 * 1.15
        + stats.obstacle_ratio * 20.0
        + stats.tort_avg * 3.0
        + stats.tort_min * 2.0;
    if score >= 42.0 {
        "Expert"
    } else if score >= 30.0 {
        "Hard"
    } else {
        "Medium"
    }
}

fn candidate_score(stats: &ComplexityStats) -> i64 {
    (stats.turn_ratio * 500.0
        + stats.obstacle_spread * 20.0
        + stats.tort_avg * 140.0
        + stats.tort_min * 100.0
        + (1.0 - stats.adjacent_obstacle_ratio).max(0.0) * 50.0
        - stats.waypoint_density * 450.0
        + stats.obstacle_ratio * 80.0) as i64
}

fn complexity_stats(grid: &Grid, path: &[usize], obstacles: &[u8], waypoints: &[Waypoint]) -> ComplexityStats {
    assert_eq!(obstacles.len(), grid.rows() * grid.cols());
    let obstacle_count = obstacle_count(obstacles);
    let adjacent_pairs = adjacent_obstacle_pairs(grid, obstacles);
    let (tort_avg, tort_min) = tortuosity_stats(waypoints);
    ComplexityStats {
        turn_ratio: count_turns(path, grid.cols()) as f64 / path.len().max(1) as f64,
        obstacle_spread: obstacle_spread_average(grid, obstacles),
        tort_avg,
        tort_min,
        waypoint_density: waypoints.len() as f64 / path.len().max(1) as f64,
        adjacent_obstacle_ratio: adjacent_pairs as f64 / obstacle_count.max(1) as f64,
        obstacle_ratio: obstacle_count as f64 / obstacles.len().max(1) as f64,
        waypoint_count: waypoints.len(),
        size: grid.rows().max(grid.cols()),
    }
}

fn obstacle_spread_average(grid: &Grid, obstacles: &[u8]) -> f64 {
    let cells = obstacles.len();
    let fits = cells
        .checked_mul(cells)
        .zip(grid.rows().checked_add(grid.cols()))
        .and_then(|(square, span)| square.checked_mul(span))
        .is_some();
    assert!(fits, "obstacle map too large to measure");
    let (sum, pairs) = obstacle_spread_totals(grid, obstacles);
    if pairs == 0 {
        return 0.0;
    }
    sum as f64 / pairs as f64
}

fn tortuosity_stats(waypoints: &[Waypoint]) -> (f64, f64) {
    for pair in waypoints.windows(2) {
        assert!(pair[0].step <= pair[1].step, "waypoint steps out of order");
        let spans = pair[0].pos[0]
            .abs_diff(pair[1].pos[0])
            .checked_add(pair[0].pos[1].abs_diff(pair[1].pos[1]));
        assert!(spans.is_some(), "waypoint distance overflows");
    }
    let legs = hint_legs(waypoints);
    if legs.is_empty() {
        return (1.0, 1.0);
    }
    let mut sum = 0.0;
    let mut min_value = f64::INFINITY;
    for (steps, distance) in &legs {
        let value = *steps as f64 / *distance as f64;
        sum += value;
        min_value = min_value.min(value);
    }
    (sum / legs.len() as f64, min_value)
}

fn request(seed: u64, sizes: Vec<usize>) -> GenerateRequest {
    request_with_budget(seed, 5_000, 10_000, sizes)
}

fn request_with_budget(seed: u64, target_ms: u32, max_ms: u32, sizes: Vec<usize>) -> GenerateRequest {
    GenerateRequest {
        seed,
        target_ms,
        max_ms,
        sizes,
        quality: "balanced".to_string(),
    }
}

fn solution_indices(puzzle: &PuzzleResponse) -> Vec<usize> {
    puzzle
        .solution
        .iter()
        .map(|cell| cell[0] * puzzle.c + cell[1])
        .collect()
}

fn interior_waypoint_count(puzzle: &PuzzleResponse) -> usize {
    puzzle
        .waypoints
        .iter()
        .filter(|waypoint| is_interior_waypoint_step(puzzle, waypoint.step))
        .count()
}

fn waypoint_constraints(puzzle: &PuzzleResponse) -> Vec<(usize, usize)> {
    puzzle
        .waypoints
        .iter()
        .map(|waypoint| (waypoint.step, waypoint.pos[0] * puzzle.c + waypoint.pos[1]))
        .collect()
}

fn waypoint_constrained_solution_count(puzzle: &PuzzleResponse) -> u32 {
    let grid = Grid::new(puzzle.r, puzzle.c);
    let constraints = waypoint_constraints(puzzle);
    count_covering_paths_with_waypoints(&grid, &puzzle.obstacles, &constraints, 2, 60_000).solutions
}

fn min_interior_waypoint_chebyshev(puzzle: &PuzzleResponse) -> usize {
    puzzle
        .waypoints
        .iter()
        .filter(|waypoint| is_interior_waypoint_step(puzzle, waypoint.step))
        .flat_map(|waypoint| {
            puzzle
                .waypoints
                .iter()
                .filter(move |other| other.step != waypoint.step)
                .map(move |other| chebyshev(waypoint.pos, other.pos))
        })
        .min()
        .unwrap_or(0)
}

fn is_interior_waypoint_step(puzzle: &PuzzleResponse, step: usize) -> bool {
    step != 1 && step != puzzle.solution.len()
}

fn waypoint_tortuosity_min(puzzle: &PuzzleResponse) -> f64 {
    puzzle
        .waypoints
        .windows(2)
        .filter_map(|pair| {
            let step_gap = pair[1].step - pair[0].step;
            let manhattan = manhattan(pair[0].pos, pair[1].pos);
            (manhattan > 0).then_some(step_gap as f64 / manhattan as f64)
        })
        .fold(f64::INFINITY, f64::min)
}

fn manhattan(a: [usize; 2], b: [usize; 2]) -> usize {
    a[0].abs_diff(b[0]) + a[1].abs_diff(b[1])
}

fn chebyshev(a: [usize; 2], b: [usize; 2]) -> usize {
    a[0].abs_diff(b[0]).max(a[1].abs_diff(b[1]))
}

#[test]
fn generator_returns_serializable_puzzle_contract() {
    let result = generate_puzzle_for_test(request(42, vec![9, 10, 11]));

    assert_eq!(result.r, 9);
    assert_eq!(result.r, result.c);
    assert_eq!(result.obstacles.len(), result.r * result.c);
    assert!(!result.solution.is_empty());
    assert!(result.waypoints.len() >= 2);
    assert_eq!(result.metrics.status, "success");
    assert_eq!(result.metrics.seed, 42);
    assert_eq!(result.metrics.size, 9);
    assert_eq!(result.metrics.quality, "balanced");
    assert!(result.metrics.quality_score > 0.0);
    assert_eq!(result.metrics.target_ms, 5_000);
    assert_eq!(result.metrics.max_ms, 10_000);
    assert!(result.metrics.total_ms <= 10_000.0);
    assert!(result.metrics.phase_timings.total_ms <= 10_000.0);
}

#[test]
fn generator_preserves_requested_size_first() {
    let result = generate_puzzle_for_test(request(7, vec![11, 10, 9]));

    assert_eq!(result.r, 11);
    assert_eq!(result.c, 11);
}

#[test]
fn generator_accepts_eight_by_eight_when_requested_first() {
    let result = generate_puzzle_for_test(request(8, vec![8, 9, 10, 11]));

    assert_eq!(result.r, 8);
    assert_eq!(result.c, 8);
    assert_eq!(result.metrics.size, 8);
}

#[test]
fn generator_reports_budget_metrics() {
    let puzzle = generate_puzzle_for_test(request(12, vec![11, 10, 9]));

    assert_eq!(puzzle.metrics.seed, 12);
    assert_eq!(puzzle.metrics.size, 11);
    assert_eq!(puzzle.metrics.quality, "balanced");
    assert!(puzzle.metrics.quality_score > 0.0);
    assert_eq!(puzzle.metrics.target_ms, 5_000);
    assert_eq!(puzzle.metrics.max_ms, 10_000);
    assert!(puzzle.metrics.candidate_attempts >= 1);
    assert!(!puzzle.metrics.cancelled);
    assert!(puzzle.metrics.solver_calls > 0);
    assert!(puzzle.metrics.unique_checks > 0);
    assert_eq!(puzzle.metrics.status, "success");
    assert!(puzzle.metrics.phase_timings.candidate_ms >= 0.0);
    assert!(puzzle.metrics.phase_timings.quality_ms >= 0.0);
    assert_eq!(
        puzzle.metrics.phase_timings.total_ms,
        puzzle.metrics.total_ms
    );
}

#[test]
fn generator_preserves_waypoint_constrained_uniqueness_without_fallback() {
    let puzzle = generate_puzzle_for_test(request(0, vec![9, 10, 11]));

    assert_eq!(waypoint_constrained_solution_count(&puzzle), 1);
    assert_eq!(puzzle.metrics.status, "success");
    assert!(!puzzle.metrics.fallback);
    assert_eq!(puzzle.metrics.degradation_level, 0);
    assert!(puzzle.metrics.solver_calls > 0);
    assert!(puzzle.metrics.unique_checks > 0);
}

#[test]
fn normal_budget_sizes_keep_complexity_waypoints_and_unique_solution() {
    for (size, expected_waypoints) in [(8, 4), (9, 6), (10, 8), (11, 10)] {
        let puzzle = generate_puzzle_for_test(request(100 + size as u64, vec![size]));

        assert_eq!(puzzle.r, size);
        assert!(!puzzle.metrics.fallback);
        assert!(
            puzzle.waypoints.len() >= expected_waypoints,
            "size {size} returned only {} waypoints",
            puzzle.waypoints.len()
        );
        assert_eq!(waypoint_constrained_solution_count(&puzzle), 1);
    }
}

#[test]
fn generated_waypoints_prefer_non_adjacent_interior_spacing() {
    let puzzle = generate_puzzle_for_test(request(2718, vec![10]));

    assert!(puzzle.waypoints.len() >= 8);
    assert_eq!(puzzle.waypoints.first().unwrap().step, 1);
    assert_eq!(puzzle.waypoints.last().unwrap().step, puzzle.solution.len());
    for pair in puzzle.waypoints.windows(2) {
        assert!(
            pair[1].step - pair[0].step >= 2,
            "adjacent waypoint steps {:?} and {:?}",
            pair[0],
            pair[1]
        );
    }
    assert!(
        min_interior_waypoint_chebyshev(&puzzle) >= 2,
        "interior waypoint hints should avoid touching existing hints spatially"
    );
    assert!(
        waypoint_tortuosity_min(&puzzle) >= 1.0,
        "waypoint legs should not be visually easier than shortest path"
    );
}

#[test]
fn tiny_budget_degrades_quality_before_size() {
    let puzzle = generate_puzzle_for_test(request_with_budget(12, 1, 1, vec![11, 10, 9]));

    assert_eq!(puzzle.r, 11);
    assert!(puzzle.metrics.degradation_level >= 1);
}

#[test]
fn generator_is_seed_deterministic() {
    let request = request(99, vec![10]);

    let a = generate_puzzle_for_test(request.clone());
    let b = generate_puzzle_for_test(request);

    assert_eq!(a.obstacles, b.obstacles);
    assert_eq!(a.solution, b.solution);
    assert_eq!(a.waypoints, b.waypoints);
    assert_eq!(a.difficulty, b.difficulty);
    assert_eq!(a.metrics.fallback, b.metrics.fallback);
    assert_eq!(a.metrics.degradation_level, b.metrics.degradation_level);
}

#[test]
fn generator_adds_obstacles_without_breaking_solution() {
    let puzzle = generate_puzzle_for_test(request(314, vec![9]));

    let obstacle_count = puzzle.obstacles.iter().filter(|value| **value == 1).count();
    assert!(obstacle_count >= 3);
    for cell in &puzzle.solution {
        let idx = cell[0] * puzzle.c + cell[1];
        assert_eq!(puzzle.obstacles[idx], 0);
    }

    let grid = Grid::new(puzzle.r, puzzle.c);
    let path = solution_indices(&puzzle);
    assert!(is_valid_covering_path(&grid, &puzzle.obstacles, &path));
}

#[test]
fn generator_adds_interior_waypoints_for_complexity() {
    let puzzle = generate_puzzle_for_test(request(2718, vec![10]));

    assert!(puzzle.waypoints.len() >= 4);
    assert_eq!(puzzle.waypoints.first().unwrap().step, 1);
    assert_eq!(puzzle.waypoints.last().unwrap().step, puzzle.solution.len());
    assert!(
        interior_waypoint_count(&puzzle) >= 4,
        "normal 10x10 generation should include multiple interior hints"
    );
}

#[test]
fn generated_solution_is_valid_covering_path_for_normal_complex_sizes() {
    for (size, seed) in [(9, 42), (10, 99), (11, 12)] {
        let puzzle = generate_puzzle_for_test(request(seed, vec![size]));
        let grid = Grid::new(puzzle.r, puzzle.c);
        let path = solution_indices(&puzzle);

        assert!(
            is_valid_covering_path(&grid, &puzzle.obstacles, &path),
            "{size}x{size} seed {seed} must publish a valid covering path"
        );
    }
}

#[test]
fn waypoints_prove_unique_covering_path_for_normal_complex_generation() {
    for (size, seed) in [(9, 42), (10, 99), (11, 12)] {
        let puzzle = generate_puzzle_for_test(request(seed, vec![size]));

        assert_eq!(
            waypoint_constrained_solution_count(&puzzle),
            1,
            "{size}x{size} seed {seed} must be unique after applying all waypoint constraints"
        );
    }
}

#[test]
fn normal_budget_complex_generation_avoids_fallback_for_representative_seeds() {
    for (size, seed) in [(9, 42), (10, 99), (11, 12)] {
        let puzzle = generate_puzzle_for_test(request(seed, vec![size]));

        assert!(
            !puzzle.metrics.fallback,
            "{size}x{size} seed {seed} should not use fallback under normal budget"
        );
        assert_eq!(
            puzzle.metrics.degradation_level, 0,
            "{size}x{size} seed {seed} should not degrade under normal budget"
        );
    }
}

#[test]
fn complex_normal_generation_reports_hard_difficulty_and_high_quality() {
    for (size, seed) in [(9, 42), (10, 99), (11, 12)] {
        let puzzle =
            generate_puzzle_for_test(request_with_budget(seed, 60_000, 120_000, vec![size]));

        assert!(
            matches!(puzzle.difficulty.as_str(), "Hard" | "Expert"),
            "{size}x{size} seed {seed} should report Hard or Expert difficulty"
        );
        assert!(
            puzzle.metrics.quality_score >= 0.9,
            "{size}x{size} seed {seed} should keep high quality metrics"
        );
        assert!(
            puzzle.metrics.quality_score < 1.0 || puzzle.waypoints.len() >= 10,
            "quality score should come from puzzle complexity, not a constant pass flag"
        );
    }
}

#[test]
fn tight_normal_budget_degrades_instead_of_ignoring_max_ms() {
    let puzzle = generate_puzzle_for_test(request_with_budget(12, 10, 10, vec![11, 10, 9]));

    assert_eq!(puzzle.r, 11);
    assert!(puzzle.metrics.degradation_level >= 1);
    assert!(puzzle.metrics.candidate_attempts <= 2);
}

#[test]
fn tiny_budget_uses_bounded_fallback_with_metrics() {
    let puzzle = generate_puzzle_for_test(request_with_budget(12, 0, 0, vec![11, 10, 9]));

    assert_eq!(puzzle.r, 11);
    assert!(puzzle.metrics.degradation_level >= 1);
    assert!(puzzle.metrics.candidate_attempts >= 1);
    assert!(puzzle.metrics.solver_calls > 0);
    assert!(puzzle.metrics.unique_checks > 0);
    assert!(puzzle.metrics.fallback);
}
