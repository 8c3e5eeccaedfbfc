//! Puzzle generation: board size and budget, candidate paths, obstacles, and
//! the waypoints that make the intended path the only solution.
use vstd::prelude::*;

use crate::grid::{
    cell_neighbors, lemma_cell_neighbors_facts, cell_col, cell_row, lemma_cell_position, lemma_down_neighbor, lemma_left_neighbor,
    adjacent, lemma_adjacent_symmetric, lemma_position_cell, lemma_right_neighbor, Grid,
};
use crate::rng::{range_of, range_steps, shuffled, xorshift_step, Rng};
use crate::solver::{
    count_covering_paths, count_spec,
    is_valid_covering_path,
    at_least_one, constrained_path, find_up_to_solutions_with_waypoints, found,
    satisfies_waypoints, search_result_spec, waypoints_usable, stable_order,
    stable_order_by_key,
    lemma_covering_path_visits_every_open_cell, lemma_open_cells_len, linked, open_cell_count,
    open_cells, valid_covering_path, visited_by, path_views, lemma_search_result_unique,
    count_of_report, search_report,
    PathCount, SolutionSearchResult,
};
use crate::types::{GenerateRequest, Waypoint};

verus! {

/// `|a - b|`.
pub open spec fn abs_diff(a: int, b: int) -> int {
    if a >= b {
        a - b
    } else {
        b - a
    }
}

/// Taxicab distance between two (row, column) positions.
pub open spec fn manhattan_spec(a: [usize; 2], b: [usize; 2]) -> int {
    abs_diff(a[0] as int, b[0] as int) + abs_diff(a[1] as int, b[1] as int)
}

/// King-move distance between two (row, column) positions.
pub open spec fn chebyshev_spec(a: [usize; 2], b: [usize; 2]) -> int {
    let dr = abs_diff(a[0] as int, b[0] as int);
    let dc = abs_diff(a[1] as int, b[1] as int);
    if dr >= dc {
        dr
    } else {
        dc
    }
}

fn usize_abs_diff(a: usize, b: usize) -> (d: usize)
    ensures
        d == abs_diff(a as int, b as int),
{
    if a >= b {
        a - b
    } else {
        b - a
    }
}

/// Taxicab distance between two positions.
pub fn manhattan(a: [usize; 2], b: [usize; 2]) -> (d: usize)
    requires
        manhattan_spec(a, b) <= usize::MAX,
    ensures
        d == manhattan_spec(a, b),
{
    usize_abs_diff(a[0], b[0]) + usize_abs_diff(a[1], b[1])
}

/// King-move distance between two positions.
pub fn chebyshev(a: [usize; 2], b: [usize; 2]) -> (d: usize)
    ensures
        d == chebyshev_spec(a, b),
{
    let dr = usize_abs_diff(a[0], b[0]);
    let dc = usize_abs_diff(a[1], b[1]);
    if dr >= dc {
        dr
    } else {
        dc
    }
}

/// The board sizes the generator builds.
pub open spec fn supported_size(size: usize) -> bool {
    8 <= size <= 11
}

/// The first supported size in the list, or 9 when there is none.
pub open spec fn first_supported_size(sizes: Seq<usize>) -> usize
    decreases sizes.len(),
{
    if sizes.len() == 0 {
        9
    } else if supported_size(sizes[0]) {
        sizes[0]
    } else {
        first_supported_size(sizes.drop_first())
    }
}

/// The board size for a request: the first size it lists that the generator
/// supports (8 to 11), or 9.
fn requested_size(request: &GenerateRequest) -> (size: usize)
    ensures
        size == first_supported_size(request.sizes@),
        supported_size(size),
{
    let sizes = &request.sizes;
    let mut i: usize = 0;
    assert(sizes@.subrange(0, sizes@.len() as int) =~= sizes@);
    while i < sizes.len()
        invariant
            sizes@ == request.sizes@,
            i <= sizes@.len(),
            first_supported_size(sizes@) == first_supported_size(sizes@.subrange(i as int, sizes@.len() as int)),
        decreases sizes@.len() - i,
    {
        let ghost s = sizes@.subrange(i as int, sizes@.len() as int);
        assert(s.drop_first() =~= sizes@.subrange(i + 1, sizes@.len() as int));
        assert(s[0] == sizes@[i as int]);
        if 8 <= sizes[i] && sizes[i] <= 11 {
            assert(first_supported_size(s) == s[0]);
            return sizes[i];
        }
        i = i + 1;
    }
    assert(sizes@.subrange(i as int, sizes@.len() as int) =~= Seq::<usize>::empty());
    9
}

/// `x` held between `lo` and `hi`.
pub open spec fn clamp_spec(x: int, lo: int, hi: int) -> int {
    if x < lo {
        lo
    } else if x > hi {
        hi
    } else {
        x
    }
}

/// Whether a budget is too small for the full search (a cap of at most 25 ms
/// or a target of at most 1 ms).
pub open spec fn budget_forces_degraded(request: GenerateRequest) -> bool {
    request.max_ms <= 25 || request.target_ms <= 1
}

/// The search steps a request's budget allows for each search: 2,000 when it
/// forces the degraded layout, otherwise three per millisecond of its cap,
/// held between 8,000 and 30,000.
pub open spec fn search_cap_for(request: GenerateRequest) -> u32 {
    if budget_forces_degraded(request) {
        2000
    } else {
        clamp_spec(
            if request.max_ms * 3 > u32::MAX {
                u32::MAX as int
            } else {
                request.max_ms * 3
            },
            8000,
            30000,
        ) as u32
    }
}

/// The limits a request's time budget sets on the search.
struct GenerationBudget {
    attempts: usize,
    solver_call_cap: u32,
    force_degraded: bool,
}

impl GenerationBudget {
    /// One candidate attempt per 125 ms of target (8 to 48), and three search
    /// steps per millisecond of cap (8,000 to 30,000); a budget that forces the
    /// degraded path gets one attempt and 2,000 steps.
    fn new(request: &GenerateRequest) -> (budget: Self)
        ensures
            budget.force_degraded == budget_forces_degraded(*request),
            budget.attempts == (if budget.force_degraded {
                1
            } else {
                clamp_spec((request.target_ms / 125) as int, 8, 48)
            }),
            budget.solver_call_cap == (if budget.force_degraded {
                2000
            } else {
                clamp_spec(
                    if request.max_ms * 3 > u32::MAX {
                        u32::MAX as int
                    } else {
                        request.max_ms * 3
                    },
                    8000,
                    30000,
                )
            }),
    {
        let force_degraded = request.max_ms <= 25 || request.target_ms <= 1;
        let attempts: usize = if force_degraded {
            1
        } else {
            let per_target: usize = (request.target_ms as usize) / 125;
            if per_target < 8 {
                8
            } else if per_target > 48 {
                48
            } else {
                per_target
            }
        };
        let solver_call_cap: u32 = if force_degraded {
            2000
        } else {
            let wide: u64 = (request.max_ms as u64) * 3;
            let scaled: u32 = if wide > u32::MAX as u64 {
                u32::MAX
            } else {
                wide as u32
            };
            if scaled < 8000 {
                8000
            } else if scaled > 30000 {
                30000
            } else {
                scaled
            }
        };
        GenerationBudget { attempts, solver_call_cap, force_degraded }
    }
}

/// The number of waypoints to aim for on a board of the given size.
pub open spec fn hint_target(size: int) -> int {
    if size <= 8 {
        4
    } else if size == 9 {
        6
    } else if size == 10 {
        8
    } else {
        10
    }
}

/// The number of waypoints to aim for on a board of the given size.
fn target_waypoint_count(size: usize) -> (count: usize)
    ensures
        count == hint_target(size as int),
{
    if size <= 8 {
        4
    } else if size == 9 {
        6
    } else if size == 10 {
        8
    } else {
        10
    }
}

/// The three cells from position `i` on turn: neither all in one row nor all
/// in one column.
pub open spec fn turn_at(path: Seq<usize>, cols: int, i: int) -> bool {
    let a = path[i] as int;
    let b = path[i + 1] as int;
    let c = path[i + 2] as int;
    (a / cols != b / cols || b / cols != c / cols) && (a % cols != b % cols || b % cols != c % cols)
}

/// The number of turns among the first `n` windows of three cells.
pub open spec fn turns_upto(path: Seq<usize>, cols: int, n: int) -> nat
    decreases n,
{
    if n <= 0 {
        0
    } else {
        turns_upto(path, cols, n - 1) + if turn_at(path, cols, n - 1) {
            1nat
        } else {
            0nat
        }
    }
}

/// The number of turns along a path.
pub open spec fn turn_count(path: Seq<usize>, cols: int) -> nat {
    turns_upto(path, cols, path.len() - 2)
}

/// The number of places where the path turns.
pub fn count_turns(path: &[usize], cols: usize) -> (turns: usize)
    requires
        path@.len() >= 3 ==> cols > 0,
    ensures
        turns == turn_count(path@, cols as int),
{
    let mut turns: usize = 0;
    let mut i: usize = 0;
    while path.len() >= 3 && i < path.len() - 2
        invariant
            path@.len() >= 3 ==> cols > 0,
            i + 2 <= path@.len() || i == 0,
            turns <= i,
            turns == turns_upto(path@, cols as int, i as int),
        decreases path@.len() - i,
    {
        let a = path[i];
        let b = path[i + 1];
        let c = path[i + 2];
        if (a / cols != b / cols || b / cols != c / cols) && (a % cols != b % cols || b % cols
            != c % cols) {
            turns = turns + 1;
        }
        i = i + 1;
    }
    turns
}

/// The obstacle pairs that cell `idx` starts: the obstacle below it and the
/// obstacle to its right, when it is an obstacle itself.
pub open spec fn obstacle_pairs_at(rows: int, cols: int, obstacles: Seq<u8>, idx: int) -> nat {
    if obstacles[idx] != 1u8 {
        0
    } else {
        let r = cell_row(cols, idx);
        let c = cell_col(cols, idx);
        (if r + 1 < rows && obstacles[idx + cols] == 1u8 {
            1nat
        } else {
            0nat
        }) + (if c + 1 < cols && obstacles[idx + 1] == 1u8 {
            1nat
        } else {
            0nat
        })
    }
}

/// Pairs of side-by-side obstacles among the first `n` cells.
pub open spec fn obstacle_pairs_upto(rows: int, cols: int, obstacles: Seq<u8>, n: int) -> nat
    decreases n,
{
    if n <= 0 {
        0
    } else {
        obstacle_pairs_upto(rows, cols, obstacles, n - 1) + obstacle_pairs_at(
            rows,
            cols,
            obstacles,
            n - 1,
        )
    }
}

/// The number of pairs of obstacles that share a side.
pub fn adjacent_obstacle_pairs(grid: &Grid, obstacles: &[u8]) -> (pairs: usize)
    requires
        grid.wf(),
        obstacles@.len() == grid.rows() * grid.cols(),
        obstacles@.len() <= isize::MAX,
    ensures
        pairs == obstacle_pairs_upto(
            grid.rows() as int,
            grid.cols() as int,
            obstacles@,
            obstacles@.len() as int,
        ),
{
    proof {
        grid.lemma_wf_size();
    }
    let rows = grid.rows();
    let cols = grid.cols();
    let mut pairs: usize = 0;
    let mut idx: usize = 0;
    while idx < obstacles.len()
        invariant
            grid.wf(),
            rows == grid.rows(),
            cols == grid.cols(),
            obstacles@.len() == rows * cols,
            rows * cols <= usize::MAX,
            obstacles@.len() <= isize::MAX,
            idx <= obstacles@.len(),
            pairs <= 2 * idx,
            pairs == obstacle_pairs_upto(rows as int, cols as int, obstacles@, idx as int),
        decreases obstacles@.len() - idx,
    {
        if obstacles[idx] == 1 {
            proof {
                lemma_cell_position(rows as int, cols as int, idx as int);
            }
            let rc = grid.row_col(idx);
            let r = rc[0];
            let c = rc[1];
            let mut here: usize = 0;
            if r + 1 < rows {
                proof {
                    assert((r + 1) * cols + c == idx + cols) by (nonlinear_arith)
                        requires
                            idx == r * cols + c,
                    ;
                    assert(idx + cols < rows * cols) by (nonlinear_arith)
                        requires
                            idx == r * cols + c,
                            c < cols,
                            r + 1 < rows,
                    ;
                }
                if obstacles[grid.idx(r + 1, c)] == 1 {
                    here = here + 1;
                }
            }
            if c + 1 < cols {
                proof {
                    assert(r * cols + (c + 1) == idx + 1) by (nonlinear_arith)
                        requires
                            idx == r * cols + c,
                    ;
                    assert(idx + 1 < rows * cols) by (nonlinear_arith)
                        requires
                            idx == r * cols + c,
                            c + 1 < cols,
                            r < rows,
                            0 <= c,
                    {
                        assert(r * cols + cols <= rows * cols);
                    }
                }
                if obstacles[grid.idx(r, c + 1)] == 1 {
                    here = here + 1;
                }
            }
            pairs = pairs + here;
        }
        idx = idx + 1;
    }
    pairs
}

/// The cells that hold an obstacle (value 1), in order.
pub open spec fn obstacle_cells(obstacles: Seq<u8>) -> Seq<usize>
    decreases obstacles.len(),
{
    if obstacles.len() == 0 {
        Seq::empty()
    } else {
        let rest = obstacle_cells(obstacles.drop_last());
        if obstacles.last() == 1u8 {
            rest.push((obstacles.len() - 1) as usize)
        } else {
            rest
        }
    }
}

/// There are no more obstacle cells than cells, each is a cell of the map
/// holding an obstacle, and they come in increasing order.
proof fn lemma_obstacle_cells(obstacles: Seq<u8>)
    requires
        obstacles.len() <= usize::MAX,
    ensures
        obstacle_cells(obstacles).len() <= obstacles.len(),
        forall|i: int|
            0 <= i < obstacle_cells(obstacles).len() ==> (#[trigger] obstacle_cells(obstacles)[i])
                < obstacles.len() && obstacles[obstacle_cells(obstacles)[i] as int] == 1u8,
    decreases obstacles.len(),
{
    if obstacles.len() > 0 {
        let rest = obstacles.drop_last();
        lemma_obstacle_cells(rest);
        let cs = obstacle_cells(obstacles);
        let rs = obstacle_cells(rest);
        assert forall|i: int| 0 <= i < cs.len() implies (#[trigger] cs[i]) < obstacles.len()
            && obstacles[cs[i] as int] == 1u8 by {
            if i < rs.len() {
                assert(cs[i] == rs[i]);
                assert(rs[i] < rest.len());
                assert(rest[rs[i] as int] == 1u8);
                assert(obstacles[rs[i] as int] == rest[rs[i] as int]);
            } else {
                assert(obstacles.last() == 1u8);
                assert(cs == rs.push((obstacles.len() - 1) as usize));
                assert(cs[i] == (obstacles.len() - 1) as usize);
                assert(obstacles[(obstacles.len() - 1) as int] == 1u8);
            }
        }
    }
}

/// The cells of the map that hold an obstacle, in order.
fn obstacle_cell_list(obstacles: &[u8]) -> (cells: Vec<usize>)
    ensures
        cells@ == obstacle_cells(obstacles@),
{
    let mut cells: Vec<usize> = Vec::new();
    let mut i: usize = 0;
    while i < obstacles.len()
        invariant
            i <= obstacles@.len(),
            cells@ == obstacle_cells(obstacles@.take(i as int)),
        decreases obstacles@.len() - i,
    {
        assert(obstacles@.take(i + 1).drop_last() =~= obstacles@.take(i as int));
        if obstacles[i] == 1 {
            cells.push(i);
        }
        i = i + 1;
    }
    assert(obstacles@.take(obstacles@.len() as int) =~= obstacles@);
    cells
}

/// The number of obstacles in the map.
pub fn obstacle_count(obstacles: &[u8]) -> (count: usize)
    ensures
        count == obstacle_cells(obstacles@).len(),
{
    obstacle_cell_list(obstacles).len()
}

/// The king-move distance between cells `a` and `b` of a board with `cols`
/// columns.
pub open spec fn cell_king_distance(cols: int, a: int, b: int) -> int {
    let dr = abs_diff(cell_row(cols, a), cell_row(cols, b));
    let dc = abs_diff(cell_col(cols, a), cell_col(cols, b));
    if dr >= dc {
        dr
    } else {
        dc
    }
}

/// The distances from `cells[i]` to `cells[i + 1]`, ..., `cells[j - 1]`,
/// added up.
pub open spec fn spread_from(cols: int, cells: Seq<usize>, i: int, j: int) -> int
    decreases j - i,
{
    if j <= i + 1 {
        0
    } else {
        spread_from(cols, cells, i, j - 1) + cell_king_distance(cols, cells[i] as int, cells[j - 1] as int)
    }
}

/// The distances between all pairs of `cells` whose earlier member is one of
/// the first `m`, added up.
pub open spec fn spread_upto(cols: int, cells: Seq<usize>, m: int) -> int
    decreases m,
{
    if m <= 0 {
        0
    } else {
        spread_upto(cols, cells, m - 1) + spread_from(cols, cells, m - 1, cells.len() as int)
    }
}

/// The number of pairs among `n` things whose earlier member is one of the
/// first `m`.
pub open spec fn pairs_upto(n: int, m: int) -> int
    decreases m,
{
    if m <= 0 {
        0
    } else {
        pairs_upto(n, m - 1) + (n - m)
    }
}

proof fn lemma_pairs_upto(n: int, m: int)
    requires
        0 <= m,
    ensures
        2 * pairs_upto(n, m) == m * (2 * n - m - 1),
    decreases m,
{
    if m > 0 {
        lemma_pairs_upto(n, m - 1);
        assert(2 * pairs_upto(n, m) == (m - 1) * (2 * n - (m - 1) - 1) + 2 * (n - m));
        assert((m - 1) * (2 * n - (m - 1) - 1) + 2 * (n - m) == m * (2 * n - m - 1)) by (nonlinear_arith);
    } else {
        assert(m * (2 * n - m - 1) == 0) by (nonlinear_arith)
            requires
                m == 0,
        ;
    }
}

/// Two cells of a board are at most `rows + cols` king moves apart.
proof fn lemma_king_distance_bound(rows: int, cols: int, a: int, b: int)
    requires
        0 < cols,
        0 <= a < rows * cols,
        0 <= b < rows * cols,
    ensures
        0 <= cell_king_distance(cols, a, b) <= rows + cols,
{
    crate::grid::lemma_cell_position(rows, cols, a);
    crate::grid::lemma_cell_position(rows, cols, b);
}

/// The king-move distances between all pairs of obstacles, added up, and the
/// number of those pairs: the obstacles' spread is the first over the second.
pub fn obstacle_spread_totals(grid: &Grid, obstacles: &[u8]) -> (totals: (usize, usize))
    requires
        grid.wf(),
        obstacles@.len() == grid.rows() * grid.cols(),
        obstacles@.len() * obstacles@.len() * (grid.rows() + grid.cols()) <= usize::MAX,
    ensures
        totals.0 == spread_upto(
            grid.cols() as int,
            obstacle_cells(obstacles@),
            obstacle_cells(obstacles@).len() as int,
        ),
        totals.1 == obstacle_cells(obstacles@).len() * (obstacle_cells(obstacles@).len() - 1) / 2,
{
    proof {
        grid.lemma_wf_size();
    }
    let cells = obstacle_cell_list(obstacles);
    let ghost rows = grid.rows() as int;
    let ghost cols = grid.cols() as int;
    let ghost n = obstacles@.len() as int;
    let ghost m = cells@.len() as int;
    let ghost bound = rows + cols;
    proof {
        lemma_obstacle_cells(obstacles@);
        assert(m * m <= n * n) by (nonlinear_arith)
            requires
                0 <= m <= n,
        ;
        assert(m * m * bound <= n * n * bound) by (nonlinear_arith)
            requires
                m * m <= n * n,
                0 <= bound,
        ;
    }
    let mut sum: usize = 0;
    let mut count: usize = 0;
    let mut i: usize = 0;
    while i < cells.len()
        invariant
            grid.wf(),
            rows == grid.rows(),
            cols == grid.cols(),
            n == rows * cols,
            m == cells@.len(),
            bound == rows + cols,
            m * m * bound <= usize::MAX,
            forall|t: int| 0 <= t < m ==> (#[trigger] cells@[t]) < n,
            i <= m,
            sum == spread_upto(cols, cells@, i as int),
            count == pairs_upto(m, i as int),
            count <= i * m,
            sum <= count * bound,
        decreases m - i,
    {
        let mut j: usize = i + 1;
        let ghost sum_before = sum;
        let ghost count_before = count;
        proof {
            assert(cols > 0) by (nonlinear_arith)
                requires
                    0 <= cells@[i as int] < n,
                    n == rows * cols,
                    0 <= rows,
                    0 <= cols,
            ;
            assert(i * m + m <= m * m) by (nonlinear_arith)
                requires
                    i < m,
            ;
        }
        while j < cells.len()
            invariant
                grid.wf(),
                rows == grid.rows(),
                cols == grid.cols(),
                cols > 0,
                n == rows * cols,
                m == cells@.len(),
                bound == rows + cols,
                m * m * bound <= usize::MAX,
                i * m + m <= m * m,
                forall|t: int| 0 <= t < m ==> (#[trigger] cells@[t]) < n,
                i < m,
                i + 1 <= j <= m,
                sum_before == spread_upto(cols, cells@, i as int),
                count_before == pairs_upto(m, i as int),
                count_before <= i * m,
                sum_before <= count_before * bound,
                sum == sum_before + spread_from(cols, cells@, i as int, j as int),
                count == count_before + (j - i - 1),
                sum <= count * bound,
            decreases m - j,
        {
            let a = grid.row_col(cells[i]);
            let b = grid.row_col(cells[j]);
            let d = chebyshev(a, b);
            proof {
                lemma_king_distance_bound(rows, cols, cells@[i as int] as int, cells@[j as int] as int);
                assert(d == cell_king_distance(cols, cells@[i as int] as int, cells@[j as int] as int));
                assert(count + 1 <= m * m);
                assert(m * m <= m * m * bound) by (nonlinear_arith)
                    requires
                        1 <= bound,
                ;
                assert((count + 1) * bound <= m * m * bound) by (nonlinear_arith)
                    requires
                        count + 1 <= m * m,
                        0 <= bound,
                ;
                assert(count * bound + bound == (count + 1) * bound) by (nonlinear_arith);
            }
            sum = sum + d;
            count = count + 1;
            proof {
                assert(sum <= count * bound) by (nonlinear_arith)
                    requires
                        sum <= (count - 1) * bound + bound,
                ;
            }
            j = j + 1;
        }
        proof {
            assert((i + 1) * m == i * m + m) by (nonlinear_arith);
        }
        i = i + 1;
    }
    proof {
        lemma_pairs_upto(m, m);
        assert(m * (2 * m - m - 1) == m * (m - 1)) by (nonlinear_arith);
    }
    (sum, count)
}

/// The legs between neighbouring hints that change cell, among the first `n`
/// hints: for each, the steps it takes and the taxicab distance it spans.
pub open spec fn hint_legs_upto(waypoints: Seq<Waypoint>, n: int) -> Seq<(usize, usize)>
    decreases n,
{
    if n <= 1 {
        Seq::empty()
    } else {
        let rest = hint_legs_upto(waypoints, n - 1);
        let a = waypoints[n - 2];
        let b = waypoints[n - 1];
        let d = manhattan_spec(a.pos, b.pos);
        if d == 0 {
            rest
        } else {
            rest.push(((b.step - a.step) as usize, d as usize))
        }
    }
}

/// The legs between neighbouring hints that change cell: for each, the steps
/// it takes and the taxicab distance it spans (the leg's tortuosity is the
/// first over the second).
pub fn hint_legs(waypoints: &[Waypoint]) -> (legs: Vec<(usize, usize)>)
    requires
        steps_nondecreasing(waypoints@),
        forall|j: int|
            1 <= j < waypoints@.len() ==> manhattan_spec(
                (#[trigger] waypoints@[j - 1]).pos,
                waypoints@[j].pos,
            ) <= usize::MAX,
    ensures
        legs@ == hint_legs_upto(waypoints@, waypoints@.len() as int),
{
    let mut legs: Vec<(usize, usize)> = Vec::new();
    let mut j: usize = 1;
    while j < waypoints.len()
        invariant
            steps_nondecreasing(waypoints@),
            forall|t: int|
                1 <= t < waypoints@.len() ==> manhattan_spec(
                    (#[trigger] waypoints@[t - 1]).pos,
                    waypoints@[t].pos,
                ) <= usize::MAX,
            1 <= j,
            j <= waypoints@.len() || j == 1,
            legs@ == hint_legs_upto(waypoints@, j as int),
        decreases waypoints@.len() - j,
    {
        let a = waypoints[j - 1];
        let b = waypoints[j];
        assert(a.step <= b.step);
        let d = manhattan(a.pos, b.pos);
        if d != 0 {
            legs.push((b.step - a.step, d));
        }
        j = j + 1;
    }
    proof {
        if waypoints@.len() >= 2 {
            assert(j == waypoints@.len());
            assert(legs@ == hint_legs_upto(waypoints@, waypoints@.len() as int));
        } else {
            assert(legs@ == hint_legs_upto(waypoints@, 1));
            assert(hint_legs_upto(waypoints@, 1) =~= Seq::<(usize, usize)>::empty());
            assert(hint_legs_upto(waypoints@, 0) =~= Seq::<(usize, usize)>::empty());
            assert(legs@ == hint_legs_upto(waypoints@, waypoints@.len() as int));
        }
    }
    legs
}

/// A waypoint as a search constraint: its step and the number of its cell.
pub open spec fn constraint_of(waypoint: Waypoint, cols: int) -> (usize, usize) {
    (waypoint.step, (waypoint.pos[0] * cols + waypoint.pos[1]) as usize)
}

/// The search constraints for a list of waypoints.
pub open spec fn constraints_of(waypoints: Seq<Waypoint>, cols: int) -> Seq<(usize, usize)> {
    Seq::new(waypoints.len(), |i: int| constraint_of(waypoints[i], cols))
}

/// Each waypoint as a `(step, cell)` constraint.
fn waypoint_constraints(waypoints: &[Waypoint], cols: usize) -> (constraints: Vec<(usize, usize)>)
    requires
        forall|i: int|
            0 <= i < waypoints@.len() ==> (#[trigger] waypoints@[i]).pos[0] * cols
                + waypoints@[i].pos[1] <= usize::MAX,
    ensures
        constraints@ == constraints_of(waypoints@, cols as int),
{
    let mut constraints: Vec<(usize, usize)> = Vec::new();
    let mut i: usize = 0;
    while i < waypoints.len()
        invariant
            i <= waypoints@.len(),
            forall|j: int|
                0 <= j < waypoints@.len() ==> (#[trigger] waypoints@[j]).pos[0] * cols
                    + waypoints@[j].pos[1] <= usize::MAX,
            constraints@ =~= constraints_of(waypoints@, cols as int).take(i as int),
        decreases waypoints@.len() - i,
    {
        let w = waypoints[i];
        assert(w.pos[0] * cols + w.pos[1] <= usize::MAX);
        constraints.push((w.step, w.pos[0] * cols + w.pos[1]));
        i = i + 1;
    }
    constraints
}

/// The steps (counting from 1) at which two paths stand on different cells,
/// among their first `n` steps.
pub open spec fn divergent_steps_upto(first: Seq<usize>, second: Seq<usize>, n: int) -> Seq<usize>
    decreases n,
{
    if n <= 0 {
        Seq::empty()
    } else {
        let before = divergent_steps_upto(first, second, n - 1);
        if first[n - 1] != second[n - 1] {
            before.push(n as usize)
        } else {
            before
        }
    }
}

/// The length of the shorter of two paths.
pub open spec fn common_len(first: Seq<usize>, second: Seq<usize>) -> int {
    if first.len() <= second.len() {
        first.len() as int
    } else {
        second.len() as int
    }
}

/// The steps at which two paths part ways, in order.
fn divergent_steps(first: &[usize], second: &[usize]) -> (steps: Vec<usize>)
    ensures
        steps@ == divergent_steps_upto(first@, second@, common_len(first@, second@)),
{
    let n: usize = if first.len() <= second.len() {
        first.len()
    } else {
        second.len()
    };
    let mut steps: Vec<usize> = Vec::new();
    let mut offset: usize = 0;
    while offset < n
        invariant
            n == common_len(first@, second@),
            offset <= n,
            steps@ == divergent_steps_upto(first@, second@, offset as int),
        decreases n - offset,
    {
        if first[offset] != second[offset] {
            steps.push(offset + 1);
        }
        offset = offset + 1;
    }
    steps
}

/// `step` held between 2 and `path_len - 1`.
pub open spec fn clamp_step(step: int, path_len: int) -> usize {
    clamp_spec(step, 2, path_len - 1) as usize
}

/// The steps to try at distance `delta` from the preferred one: the preferred
/// step itself for distance 0, otherwise the step `delta` before it (when there
/// is one) and the step `delta` after it, each held inside the path's interior.
pub open spec fn candidate_steps_spec(preferred_step: int, delta: int, path_len: int) -> Seq<usize> {
    if delta == 0 {
        seq![clamp_step(preferred_step, path_len)]
    } else {
        let below: Seq<usize> = if preferred_step > delta {
            seq![clamp_step(preferred_step - delta, path_len)]
        } else {
            seq![]
        };
        below.push(clamp_step(preferred_step + delta, path_len))
    }
}

fn clamp_to_interior(step: usize, path_len: usize) -> (clamped: usize)
    requires
        path_len >= 3,
    ensures
        clamped == clamp_step(step as int, path_len as int),
{
    let hi = path_len - 1;
    if step < 2 {
        2
    } else if step > hi {
        hi
    } else {
        step
    }
}

/// The steps to try at distance `delta` from `preferred_step`.
fn candidate_steps(preferred_step: usize, delta: usize, path_len: usize) -> (steps: Vec<usize>)
    requires
        path_len >= 3,
        preferred_step + delta <= usize::MAX,
    ensures
        steps@ == candidate_steps_spec(preferred_step as int, delta as int, path_len as int),
{
    if delta == 0 {
        let steps = vec![clamp_to_interior(preferred_step, path_len)];
        assert(steps@ =~= candidate_steps_spec(preferred_step as int, delta as int, path_len as int));
        return steps;
    }
    let mut steps: Vec<usize> = Vec::with_capacity(2);
    if preferred_step > delta {
        steps.push(clamp_to_interior(preferred_step - delta, path_len));
    }
    steps.push(clamp_to_interior(preferred_step + delta, path_len));
    assert(steps@ =~= candidate_steps_spec(preferred_step as int, delta as int, path_len as int));
    steps
}

/// The gap between waypoint `j` and the next one.
pub open spec fn gap_at(waypoints: Seq<Waypoint>, j: int) -> int {
    waypoints[j + 1].step - waypoints[j].step
}

/// Among the first `n` neighbouring pairs, the last one with the largest gap.
pub open spec fn widest_gap_upto(waypoints: Seq<Waypoint>, n: int) -> int
    decreases n,
{
    if n <= 1 {
        0
    } else {
        let best = widest_gap_upto(waypoints, n - 1);
        if gap_at(waypoints, n - 1) >= gap_at(waypoints, best) {
            n - 1
        } else {
            best
        }
    }
}

/// Steps never decrease along the list.
pub open spec fn steps_nondecreasing(waypoints: Seq<Waypoint>) -> bool {
    forall|a: int, b: int| 0 <= a <= b < waypoints.len() ==> (#[trigger] waypoints[a]).step <= (
    #[trigger] waypoints[b]).step
}

/// The middle of the widest gap between neighbouring waypoints (the last such
/// gap when several are widest), or 1 when there are fewer than two waypoints.
pub open spec fn widest_gap_midpoint(waypoints: Seq<Waypoint>) -> int {
    if waypoints.len() < 2 {
        1
    } else {
        let j = widest_gap_upto(waypoints, waypoints.len() - 1);
        waypoints[j].step + gap_at(waypoints, j) / 2
    }
}

/// The middle of the widest gap between neighbouring waypoints.
fn largest_waypoint_gap_midpoint(waypoints: &[Waypoint]) -> (step: usize)
    requires
        steps_nondecreasing(waypoints@),
    ensures
        step == widest_gap_midpoint(waypoints@),
{
    if waypoints.len() < 2 {
        return 1;
    }
    let mut best: usize = 0;
    let mut j: usize = 1;
    while j < waypoints.len() - 1
        invariant
            steps_nondecreasing(waypoints@),
            waypoints@.len() >= 2,
            1 <= j < waypoints@.len(),
            best < j,
            best == widest_gap_upto(waypoints@, j as int),
        decreases waypoints@.len() - j,
    {
        assert(waypoints@[j as int].step <= waypoints@[j + 1].step);
        assert(waypoints@[best as int].step <= waypoints@[best + 1].step);
        if waypoints[j + 1].step - waypoints[j].step >= waypoints[best + 1].step - waypoints[best].step {
            best = j;
        }
        j = j + 1;
    }
    assert(waypoints@[best as int].step <= waypoints@[best + 1].step);
    let gap = waypoints[best + 1].step - waypoints[best].step;
    waypoints[best].step + gap / 2
}

/// A count from a waypoint search: a search that ran out of steps counts as
/// two solutions (not proven unique).
fn waypoint_path_count(result: &SolutionSearchResult, solver_calls: u32) -> (count: PathCount)
    ensures
        count.solutions == (if result.exhausted {
            2
        } else {
            result.solutions@.len() as u32
        }),
        count.solver_calls == solver_calls,
{
    PathCount {
        solutions: if result.exhausted {
            2
        } else {
            result.solutions.len() as u32
        },
        solver_calls,
    }
}

/// The cell at position `i` of the snake walk: rows left to right and right to
/// left in turn, starting at the top left.
pub open spec fn snake_cell(cols: int, i: int) -> int {
    let r = i / cols;
    let c = i % cols;
    r * cols + if r % 2 == 0 {
        c
    } else {
        cols - 1 - c
    }
}

/// The snake walk over a whole `rows` × `cols` board.
pub open spec fn snake_seq(rows: int, cols: int) -> Seq<usize> {
    Seq::new((rows * cols) as nat, |i: int| snake_cell(cols, i) as usize)
}

/// An obstacle map with every cell open.
pub open spec fn all_open(n: int) -> Seq<u8> {
    Seq::new(n as nat, |i: int| 0u8)
}

/// Every cell of an all-open map is open.
pub proof fn lemma_all_open_count(n: nat)
    ensures
        open_cell_count(all_open(n as int)) == n,
    decreases n,
{
    if n > 0 {
        assert(all_open(n as int).drop_last() =~= all_open(n - 1));
        lemma_all_open_count((n - 1) as nat);
    }
}

/// Where snake position `i` lies: its row, and a column inside the board.
proof fn lemma_snake_cell_position(rows: int, cols: int, i: int)
    requires
        1 <= cols,
        0 <= i < rows * cols,
    ensures
        0 <= snake_cell(cols, i) < rows * cols,
        cell_row(cols, snake_cell(cols, i)) == i / cols,
        cell_col(cols, snake_cell(cols, i)) == (if (i / cols) % 2 == 0 {
            i % cols
        } else {
            cols - 1 - i % cols
        }),
{
    lemma_cell_position(rows, cols, i);
    let r = i / cols;
    let c = i % cols;
    let cc = if r % 2 == 0 {
        c
    } else {
        cols - 1 - c
    };
    lemma_position_cell(rows, cols, r, cc);
}

/// The snake walk is a covering path of the open board: every cell once, each
/// step to a neighbour.
pub proof fn lemma_snake_path_covers(rows: int, cols: int)
    requires
        1 <= rows,
        1 <= cols,
        rows * cols <= usize::MAX,
    ensures
        valid_covering_path(rows, cols, all_open(rows * cols), snake_seq(rows, cols)),
{
    let n = rows * cols;
    let path = snake_seq(rows, cols);
    lemma_all_open_count(n as nat);
    assert forall|i: int| 0 <= i < path.len() implies (#[trigger] path[i]) < all_open(n).len()
        && all_open(n)[path[i] as int] == 0u8 by {
        lemma_snake_cell_position(rows, cols, i);
    }
    assert forall|a: int, b: int| 0 <= a < path.len() && 0 <= b < path.len() && a != b implies
        #[trigger] path[a] != #[trigger] path[b] by {
        lemma_snake_cell_position(rows, cols, a);
        lemma_snake_cell_position(rows, cols, b);
        lemma_cell_position(rows, cols, a);
        lemma_cell_position(rows, cols, b);
    }
    assert forall|i: int| 0 <= i < path.len() - 1 implies #[trigger] linked(rows, cols, path, i) by {
        lemma_cell_position(rows, cols, i);
        lemma_snake_cell_position(rows, cols, i);
        lemma_snake_cell_position(rows, cols, i + 1);
        let r = i / cols;
        let c = i % cols;
        let cell = snake_cell(cols, i);
        if c + 1 < cols {
            lemma_position_cell(rows, cols, r, c + 1);
            assert(i + 1 == r * cols + (c + 1));
            if r % 2 == 0 {
                assert(snake_cell(cols, i + 1) == cell + 1);
                lemma_right_neighbor(rows, cols, cell);
            } else {
                assert(snake_cell(cols, i + 1) == cell - 1);
                lemma_left_neighbor(rows, cols, cell);
            }
        } else {
            assert(i + 1 == (r + 1) * cols) by (nonlinear_arith)
                requires
                    i == r * cols + c,
                    c + 1 == cols,
            ;
            assert(r + 1 < rows) by (nonlinear_arith)
                requires
                    i + 1 == (r + 1) * cols,
                    i + 1 < rows * cols,
                    1 <= cols,
            ;
            lemma_position_cell(rows, cols, r + 1, 0);
            assert((r + 1) * cols + 0 == (r + 1) * cols);
            assert(snake_cell(cols, i + 1) == cell + cols) by (nonlinear_arith)
                requires
                    snake_cell(cols, i + 1) == (r + 1) * cols + if (r + 1) % 2 == 0 {
                        0
                    } else {
                        cols - 1
                    },
                    cell == r * cols + if r % 2 == 0 {
                        c
                    } else {
                        cols - 1 - c
                    },
                    c == cols - 1,
            ;
            lemma_down_neighbor(rows, cols, cell);
        }
    }
}

/// The snake walk over the whole board.
fn snake_path(grid: &Grid) -> (path: Vec<usize>)
    requires
        grid.wf(),
    ensures
        path@ == snake_seq(grid.rows() as int, grid.cols() as int),
{
    proof {
        grid.lemma_wf_size();
    }
    let rows = grid.rows();
    let cols = grid.cols();
    let mut path: Vec<usize> = Vec::with_capacity(rows * cols);
    let mut r: usize = 0;
    while r < rows
        invariant
            rows == grid.rows(),
            cols == grid.cols(),
            rows * cols <= usize::MAX,
            r <= rows,
            path@.len() == r * cols,
            forall|t: int| 0 <= t < path@.len() ==> #[trigger] path@[t] == snake_cell(cols as int, t) as usize,
        decreases rows - r,
    {
        let mut j: usize = 0;
        while j < cols
            invariant
                rows == grid.rows(),
                cols == grid.cols(),
                rows * cols <= usize::MAX,
                r < rows,
                j <= cols,
                path@.len() == r * cols + j,
                forall|t: int| 0 <= t < path@.len() ==> #[trigger] path@[t] == snake_cell(cols as int, t) as usize,
            decreases cols - j,
        {
            let c: usize = if r % 2 == 0 {
                j
            } else {
                cols - 1 - j
            };
            proof {
                lemma_position_cell(rows as int, cols as int, r as int, j as int);
                lemma_position_cell(rows as int, cols as int, r as int, c as int);
            }
            path.push(grid.idx(r, c));
            j = j + 1;
        }
        proof {
            assert(r * cols + cols == (r + 1) * cols) by (nonlinear_arith);
        }
        r = r + 1;
    }
    assert(path@ =~= snake_seq(rows as int, cols as int));
    path
}

/// Walking a covering path backwards gives a covering path.
pub proof fn lemma_reversed_path_covers(rows: int, cols: int, obstacles: Seq<u8>, path: Seq<usize>)
    requires
        valid_covering_path(rows, cols, obstacles, path),
        0 <= rows,
        0 <= cols,
        rows * cols <= usize::MAX,
    ensures
        valid_covering_path(rows, cols, obstacles, path.reverse()),
{
    let rev = path.reverse();
    let n = path.len() as int;
    assert forall|i: int| 0 <= i < rev.len() implies (#[trigger] rev[i]) < obstacles.len()
        && obstacles[rev[i] as int] == 0u8 by {
        assert(rev[i] == path[n - 1 - i]);
    }
    assert forall|a: int, b: int| 0 <= a < rev.len() && 0 <= b < rev.len() && a != b implies
        #[trigger] rev[a] != #[trigger] rev[b] by {
        assert(rev[a] == path[n - 1 - a]);
        assert(rev[b] == path[n - 1 - b]);
    }
    assert forall|i: int| 0 <= i < rev.len() - 1 implies #[trigger] linked(rows, cols, rev, i) by {
        assert(linked(rows, cols, path, n - 2 - i));
        assert(rev[i] == path[n - 1 - i]);
        assert(rev[i + 1] == path[n - 2 - i]);
        lemma_adjacent_symmetric(rows, cols, path[n - 2 - i] as int, path[n - 1 - i] as int);
    }
}

/// Cell `c` is one of the path's cells outside positions `a..b`.
pub open spec fn trimmed_off(path: Seq<usize>, a: int, b: int, c: int) -> bool {
    exists|j: int| (0 <= j < a || b <= j < path.len()) && #[trigger] path[j] as int == c
}

/// Cutting a covering path of the open board down to positions `a..b`, and
/// turning the cells cut off into obstacles, leaves a covering path of the new
/// board.
pub proof fn lemma_trimmed_path_covers(
    rows: int,
    cols: int,
    path: Seq<usize>,
    a: int,
    b: int,
    obstacles: Seq<u8>,
)
    requires
        rows * cols <= usize::MAX,
        valid_covering_path(rows, cols, all_open(rows * cols), path),
        0 <= a <= b <= path.len(),
        obstacles.len() == rows * cols,
        forall|c: int|
            0 <= c < rows * cols ==> #[trigger] obstacles[c] == (if trimmed_off(path, a, b, c) {
                1u8
            } else {
                0u8
            }),
    ensures
        valid_covering_path(rows, cols, obstacles, path.subrange(a, b)),
{
    let n = rows * cols;
    let kept = path.subrange(a, b);
    lemma_covering_path_visits_every_open_cell(rows, cols, all_open(n), path);
    assert forall|c: usize| #[trigger] kept.contains(c) <==> (c < obstacles.len() && obstacles[c as int]
        == 0u8) by {
        if kept.contains(c) {
            let k = choose|k: int| 0 <= k < kept.len() && kept[k] == c;
            assert(path[a + k] == c);
            assert(path.contains(c));
            if trimmed_off(path, a, b, c as int) {
                let j = choose|j: int| (0 <= j < a || b <= j < path.len()) && #[trigger] path[j] as int
                    == c as int;
                assert(path[j] == path[a + k]);
            }
        }
        if c < obstacles.len() && obstacles[c as int] == 0u8 {
            assert(all_open(n)[c as int] == 0u8);
            assert(path.contains(c));
            let j = choose|j: int| 0 <= j < path.len() && path[j] == c;
            if j < a || b <= j {
                assert(trimmed_off(path, a, b, c as int));
            }
            assert(kept[j - a] == c);
        }
    }
    assert forall|a2: int, b2: int| 0 <= a2 < kept.len() && 0 <= b2 < kept.len() && a2 != b2 implies
        #[trigger] kept[a2] != #[trigger] kept[b2] by {
        assert(path[a + a2] != path[a + b2]);
    }
    kept.unique_seq_to_set();
    lemma_open_cells_len(obstacles);
    assert(kept.to_set() =~= open_cells(obstacles)) by {
        assert forall|c: usize| kept.to_set().contains(c) <==> open_cells(obstacles).contains(c) by {
            assert(kept.to_set().contains(c) <==> kept.contains(c));
        }
    }
    assert forall|i: int| 0 <= i < kept.len() implies (#[trigger] kept[i]) < obstacles.len()
        && obstacles[kept[i] as int] == 0u8 by {
        assert(kept.contains(kept[i]));
    }
    assert forall|i: int| 0 <= i < kept.len() - 1 implies #[trigger] linked(rows, cols, kept, i) by {
        assert(linked(rows, cols, path, a + i));
        assert(kept[i] == path[a + i]);
        assert(kept[i + 1] == path[a + i + 1]);
    }
}

/// The path walked backwards.
fn reverse_path(path: &mut Vec<usize>)
    ensures
        final(path)@ == old(path)@.reverse(),
{
    let n = path.len();
    let mut reversed: Vec<usize> = Vec::with_capacity(n);
    let mut i: usize = n;
    while i > 0
        invariant
            n == path@.len(),
            path@ == old(path)@,
            i <= n,
            reversed@ =~= old(path)@.reverse().take((n - i) as int),
        decreases i,
    {
        i = i - 1;
        reversed.push(path[i]);
    }
    *path = reversed;
}

/// The number of cells taken off either end of a path, and the generator state
/// afterwards: one coin flip per cell, heads (0) taking the first cell.
pub open spec fn front_removals(state: u64, removals: nat) -> (nat, u64)
    decreases removals,
{
    if removals == 0 {
        (0, state)
    } else {
        let (front, st) = front_removals(state, (removals - 1) as nat);
        let next = xorshift_step(st);
        (front + if range_of(next, 2) == 0 {
            1nat
        } else {
            0nat
        }, next)
    }
}

/// How many cells `place_tail_obstacles` takes off a path of `len` cells: the
/// target, but at most all but eight of the cells.
pub open spec fn removal_count(target: int, len: int) -> int {
    let spare = if len >= 8 {
        len - 8
    } else {
        0
    };
    if target <= spare {
        target
    } else {
        spare
    }
}

/// Turns cells at the ends of the path into obstacles, each taken from the
/// start or the end by a coin flip, until the target count is reached or eight
/// cells are left. The path keeps the cells in between.
fn place_tail_obstacles(
    grid: &Grid,
    path: &mut Vec<usize>,
    rng: &mut Rng,
    target_count: usize,
) -> (obstacles: Vec<u8>)
    requires
        grid.wf(),
        forall|i: int| 0 <= i < old(path)@.len() ==> (#[trigger] old(path)@[i]) < grid.rows() * grid.cols(),
    ensures
        ({
            let n = old(path)@.len() as int;
            let removed = removal_count(target_count as int, n);
            let (front, state) = front_removals(old(rng)@, removed as nat);
            let back = removed - front;
            &&& final(rng)@ == state
            &&& front <= removed <= n
            &&& final(path)@ == old(path)@.subrange(front as int, n - back)
            &&& obstacles@.len() == grid.rows() * grid.cols()
            &&& forall|c: int|
                0 <= c < obstacles@.len() ==> #[trigger] obstacles@[c] == (if trimmed_off(
                    old(path)@,
                    front as int,
                    n - back,
                    c,
                ) {
                    1u8
                } else {
                    0u8
                })
        }),
{
    proof {
        grid.lemma_wf_size();
    }
    let ghost orig = path@;
    let ghost n = path@.len() as int;
    let ghost start_state = rng@;
    let mut obstacles: Vec<u8> = vec![0; grid.rows() * grid.cols()];
    let spare: usize = if path.len() >= 8 {
        path.len() - 8
    } else {
        0
    };
    let removal: usize = if target_count <= spare {
        target_count
    } else {
        spare
    };
    let mut t: usize = 0;
    let mut front: usize = 0;
    while t < removal
        invariant
            grid.wf(),
            n == orig.len(),
            removal == removal_count(target_count as int, n),
            removal <= n,
            t <= removal,
            front <= t,
            front_removals(start_state, t as nat) == (front as nat, rng@),
            path@ == orig.subrange(front as int, n - (t - front)),
            forall|i: int| 0 <= i < orig.len() ==> (#[trigger] orig[i]) < grid.rows() * grid.cols(),
            obstacles@.len() == grid.rows() * grid.cols(),
            forall|c: int|
                0 <= c < obstacles@.len() ==> #[trigger] obstacles@[c] == (if trimmed_off(
                    orig,
                    front as int,
                    n - (t - front),
                    c,
                ) {
                    1u8
                } else {
                    0u8
                }),
        decreases removal - t,
    {
        let ghost a = front as int;
        let ghost b = n - (t - front);
        let remove_from_start = rng.range(2) == 0;
        let removed: usize = if remove_from_start {
            assert(path@[0] == orig[a]);
            path.remove(0)
        } else {
            assert(path@[path@.len() - 1] == orig[b - 1]);
            path.pop().unwrap()
        };
        obstacles.set(removed, 1);
        if remove_from_start {
            front = front + 1;
        }
        proof {
            let a2 = front as int;
            let b2 = n - (t + 1 - front);
            if remove_from_start {
                assert(path@ =~= orig.subrange(a2, b2));
                assert(removed == orig[a]);
            } else {
                assert(path@ =~= orig.subrange(a2, b2));
                assert(removed == orig[b - 1]);
            }
            assert forall|c: int| 0 <= c < obstacles@.len() implies #[trigger] obstacles@[c] == (
            if trimmed_off(orig, a2, b2, c) {
                1u8
            } else {
                0u8
            }) by {
                if c == removed {
                    if remove_from_start {
                        assert(orig[a] as int == c);
                    } else {
                        assert(orig[b - 1] as int == c);
                    }
                } else {
                    if trimmed_off(orig, a2, b2, c) {
                        let j = choose|j: int|
                            (0 <= j < a2 || b2 <= j < orig.len()) && #[trigger] orig[j] as int == c;
                        assert(0 <= j < a || b <= j < orig.len());
                    }
                    if trimmed_off(orig, a, b, c) {
                        let j = choose|j: int|
                            (0 <= j < a || b <= j < orig.len()) && #[trigger] orig[j] as int == c;
                        assert(0 <= j < a2 || b2 <= j < orig.len());
                    }
                }
            }
        }
        t = t + 1;
    }
    obstacles
}

/// The waypoint for step `step` of `path`: its step and its cell's row and
/// column.
pub open spec fn waypoint_at(path: Seq<usize>, cols: int, step: int) -> Waypoint {
    Waypoint {
        step: step as usize,
        pos: [
            cell_row(cols, path[step - 1] as int) as usize,
            cell_col(cols, path[step - 1] as int) as usize,
        ],
    }
}

/// The waypoint marks where the path is at its step.
pub open spec fn on_path(waypoint: Waypoint, path: Seq<usize>, cols: int) -> bool {
    &&& 1 <= waypoint.step <= path.len()
    &&& waypoint == waypoint_at(path, cols, waypoint.step as int)
}

/// Two waypoints are at least two steps apart and not touching on the board,
/// not even diagonally.
pub open spec fn spaced(a: Waypoint, b: Waypoint) -> bool {
    abs_diff(a.step as int, b.step as int) >= 2 && chebyshev_spec(a.pos, b.pos) >= 2
}

/// A hint may go at step `step`: no waypoint has that step, and every waypoint
/// is spaced from it.
pub open spec fn insertable(path: Seq<usize>, waypoints: Seq<Waypoint>, cols: int, step: int) -> bool {
    &&& forall|i: int| 0 <= i < waypoints.len() ==> (#[trigger] waypoints[i]).step != step
    &&& forall|i: int|
        0 <= i < waypoints.len() ==> spaced(waypoint_at(path, cols, step), #[trigger] waypoints[i])
}

/// Whether a hint may go at step `step` of the path.
fn can_insert_waypoint(grid: &Grid, path: &[usize], waypoints: &[Waypoint], step: usize) -> (ok: bool)
    requires
        grid.cols() > 0,
        1 <= step <= path@.len(),
    ensures
        ok == insertable(path@, waypoints@, grid.cols() as int, step as int),
{
    let mut i: usize = 0;
    while i < waypoints.len()
        invariant
            i <= waypoints@.len(),
            forall|j: int| 0 <= j < i ==> (#[trigger] waypoints@[j]).step != step,
        decreases waypoints@.len() - i,
    {
        if waypoints[i].step == step {
            return false;
        }
        i = i + 1;
    }
    let pos = grid.row_col(path[step - 1]);
    let ghost candidate = waypoint_at(path@, grid.cols() as int, step as int);
    assert(pos == candidate.pos) by {
        assert(pos@ =~= candidate.pos@);
    }
    let mut k: usize = 0;
    while k < waypoints.len()
        invariant
            k <= waypoints@.len(),
            1 <= step <= path@.len(),
            pos == candidate.pos,
            candidate == waypoint_at(path@, grid.cols() as int, step as int),
            forall|j: int| 0 <= j < waypoints@.len() ==> (#[trigger] waypoints@[j]).step != step,
            forall|j: int| 0 <= j < k ==> spaced(candidate, #[trigger] waypoints@[j]),
        decreases waypoints@.len() - k,
    {
        let w = waypoints[k];
        if !(usize_abs_diff(w.step, step) >= 2 && chebyshev(pos, w.pos) >= 2) {
            assert(!spaced(candidate, waypoints@[k as int]));
            return false;
        }
        k = k + 1;
    }
    true
}

/// The steps of a list of waypoints.
pub open spec fn steps_of(waypoints: Seq<Waypoint>) -> Seq<usize> {
    Seq::new(waypoints.len(), |i: int| waypoints[i].step)
}

/// `waypoints` put in the order `order` gives.
pub open spec fn reordered(waypoints: Seq<Waypoint>, order: Seq<usize>) -> Seq<Waypoint> {
    Seq::new(order.len(), |j: int| waypoints[order[j] as int])
}

/// `sorted` is `waypoints` after a stable sort by step.
pub open spec fn stably_sorted_by_step(waypoints: Seq<Waypoint>, sorted: Seq<Waypoint>) -> bool {
    exists|order: Seq<usize>|
        stable_order(steps_of(waypoints), order) && sorted == reordered(waypoints, order)
}

/// Two stable sorts by the same keys put the positions in the same order.
proof fn lemma_stable_order_agree(keys: Seq<usize>, o1: Seq<usize>, o2: Seq<usize>, j: int)
    requires
        stable_order(keys, o1),
        stable_order(keys, o2),
        0 <= j < o1.len(),
    ensures
        forall|t: int| 0 <= t <= j ==> #[trigger] o1[t] == o2[t],
    decreases j,
{
    if j > 0 {
        lemma_stable_order_agree(keys, o1, o2, j - 1);
    }
    let x = o1[j];
    let y = o2[j];
    assert(o2[j] < keys.len());
    let ty = y as int;
    assert(o1.contains(ty as usize));
    let a = choose|a: int| 0 <= a < o1.len() && o1[a] == y;
    assert(o1[j] < keys.len());
    let tx = x as int;
    assert(o2.contains(tx as usize));
    let b = choose|b: int| 0 <= b < o2.len() && o2[b] == x;
    if a < j {
        assert(o2[a] == y);
        assert(false);
    }
    if b < j {
        assert(o1[b] == x);
        assert(false);
    }
    if a > j && b > j {
        assert(keys[o1[j] as int] <= keys[o1[a] as int]);
        assert(keys[o2[j] as int] <= keys[o2[b] as int]);
        assert(keys[x as int] == keys[y as int]);
        assert(o1[j] < o1[a]);
        assert(o2[j] < o2[b]);
        assert(false);
    }
}

/// A stable sort by key has only one outcome.
proof fn lemma_stable_order_unique(keys: Seq<usize>, o1: Seq<usize>, o2: Seq<usize>)
    requires
        stable_order(keys, o1),
        stable_order(keys, o2),
    ensures
        o1 == o2,
{
    if o1.len() > 0 {
        lemma_stable_order_agree(keys, o1, o2, o1.len() - 1);
    }
    assert(o1 =~= o2);
}

/// How many of `waypoints` have a step no later than `step`.
pub open spec fn count_not_after(waypoints: Seq<Waypoint>, step: usize) -> nat
    decreases waypoints.len(),
{
    if waypoints.len() == 0 {
        0
    } else {
        count_not_after(waypoints.drop_last(), step) + if waypoints.last().step <= step {
            1nat
        } else {
            0nat
        }
    }
}

/// `waypoint` put into `waypoints` after every hint whose step is not later
/// than its own: where a stable sort by step puts a hint added at the end.
pub open spec fn insert_by_step(waypoints: Seq<Waypoint>, waypoint: Waypoint) -> Seq<Waypoint> {
    let p = count_not_after(waypoints, waypoint.step) as int;
    waypoints.take(p).push(waypoint) + waypoints.skip(p)
}

/// In hints sorted by step, those no later than `step` come first.
proof fn lemma_count_not_after(waypoints: Seq<Waypoint>, step: usize)
    requires
        steps_nondecreasing(waypoints),
    ensures
        count_not_after(waypoints, step) <= waypoints.len(),
        forall|i: int|
            0 <= i < count_not_after(waypoints, step) ==> (#[trigger] waypoints[i]).step <= step,
        forall|i: int|
            count_not_after(waypoints, step) <= i < waypoints.len() ==> (#[trigger] waypoints[i]).step
                > step,
    decreases waypoints.len(),
{
    if waypoints.len() > 0 {
        let rest = waypoints.drop_last();
        assert(steps_nondecreasing(rest)) by {
            assert forall|a: int, b: int| 0 <= a <= b < rest.len() implies (#[trigger] rest[a]).step <= (
            #[trigger] rest[b]).step by {
                assert(rest[a] == waypoints[a] && rest[b] == waypoints[b]);
            }
        }
        lemma_count_not_after(rest, step);
        let c = count_not_after(rest, step);
        if waypoints.last().step <= step {
            assert forall|i: int| 0 <= i < c + 1 implies (#[trigger] waypoints[i]).step <= step by {
                if i < waypoints.len() - 1 {
                    assert(waypoints[i].step <= waypoints[waypoints.len() - 1].step);
                }
            }
            assert(c + 1 == waypoints.len()) by {
                if c < rest.len() {
                    assert(rest[c as int].step > step);
                    assert(waypoints[c as int].step <= waypoints[waypoints.len() - 1].step);
                }
            }
        } else {
            assert forall|i: int| 0 <= i < c implies (#[trigger] waypoints[i]).step <= step by {
                assert(rest[i] == waypoints[i]);
            }
            assert forall|i: int| c <= i < waypoints.len() implies (#[trigger] waypoints[i]).step > step by {
                if i < rest.len() {
                    assert(rest[i] == waypoints[i]);
                }
            }
        }
    }
}

/// A stable sort by step of hints that are already sorted, with one hint
/// added at the end, puts that hint after every hint no later than it.
proof fn lemma_sort_after_push(waypoints: Seq<Waypoint>, waypoint: Waypoint, sorted: Seq<Waypoint>)
    requires
        steps_nondecreasing(waypoints),
        waypoints.len() < usize::MAX,
        stably_sorted_by_step(waypoints.push(waypoint), sorted),
    ensures
        sorted == insert_by_step(waypoints, waypoint),
{
    let all = waypoints.push(waypoint);
    let keys = steps_of(all);
    let n = all.len() as int;
    lemma_count_not_after(waypoints, waypoint.step);
    let p = count_not_after(waypoints, waypoint.step) as int;
    let placed = Seq::new(
        n as nat,
        |j: int|
            if j < p {
                j as usize
            } else if j == p {
                (n - 1) as usize
            } else {
                (j - 1) as usize
            },
    );
    assert(stable_order(keys, placed)) by {
        assert forall|t: int| 0 <= t < keys.len() implies #[trigger] placed.contains(t as usize) by {
            if t < p {
                assert(placed[t] == t);
            } else if t == n - 1 {
                assert(placed[p] == t);
            } else {
                assert(placed[t + 1] == t);
            }
        }
        assert forall|a: int, b: int|
            0 <= a < placed.len() && 0 <= b < placed.len() && a != b implies #[trigger] placed[a]
            != #[trigger] placed[b] by {}
        assert forall|a: int, b: int| 0 <= a < b < placed.len() implies keys[(
        #[trigger] placed[a]) as int] <= keys[(#[trigger] placed[b]) as int] by {
            if a < p && b < p {
            } else if a < p && b == p {
            } else if a < p {
                assert(all[a] == waypoints[a]);
                assert(all[b - 1] == waypoints[b - 1]);
            } else if a == p {
                assert(all[b - 1] == waypoints[b - 1]);
            } else {
                assert(all[a - 1] == waypoints[a - 1]);
                assert(all[b - 1] == waypoints[b - 1]);
            }
        }
        assert forall|a: int, b: int|
            0 <= a < b < placed.len() && keys[(#[trigger] placed[a]) as int] == keys[(
            #[trigger] placed[b]) as int] implies placed[a] < placed[b] by {
            if a < p && b == p {
            } else if a == p {
                assert(all[b - 1] == waypoints[b - 1]);
            }
        }
    }
    let order = choose|order: Seq<usize>|
        stable_order(steps_of(all), order) && sorted == reordered(all, order);
    lemma_stable_order_unique(keys, order, placed);
    assert(sorted =~= insert_by_step(waypoints, waypoint)) by {
        assert forall|j: int| 0 <= j < sorted.len() implies sorted[j] == insert_by_step(
            waypoints,
            waypoint,
        )[j] by {
            if j < p {
                assert(all[j] == waypoints[j]);
            } else if j > p {
                assert(all[j - 1] == waypoints[j - 1]);
            }
        }
    }
}

/// A stable sort by step leaves hints that are already sorted as they are.
proof fn lemma_sort_of_sorted(waypoints: Seq<Waypoint>, sorted: Seq<Waypoint>)
    requires
        steps_nondecreasing(waypoints),
        waypoints.len() <= usize::MAX,
        stably_sorted_by_step(waypoints, sorted),
    ensures
        sorted == waypoints,
{
    let keys = steps_of(waypoints);
    let same = Seq::new(waypoints.len(), |j: int| j as usize);
    assert(stable_order(keys, same)) by {
        assert forall|t: int| 0 <= t < keys.len() implies #[trigger] same.contains(t as usize) by {
            assert(same[t] == t);
        }
    }
    let order = choose|order: Seq<usize>|
        stable_order(steps_of(waypoints), order) && sorted == reordered(waypoints, order);
    lemma_stable_order_unique(keys, order, same);
    assert(sorted =~= waypoints);
}

/// The hints after adding one near `preferred_step` as
/// `insert_waypoint_near_step` adds it: at the first step of the candidate
/// order where a hint may go, put in by step; unchanged when there is none.
pub open spec fn near_step_hints(
    path: Seq<usize>,
    hints: Seq<Waypoint>,
    cols: int,
    preferred_step: int,
) -> Seq<Waypoint> {
    let order = candidate_order(preferred_step, path.len() as int, (path.len() + 1) as nat);
    if exists|j: int| first_insertable_at(path, hints, cols, order, j) {
        let j = choose|j: int| first_insertable_at(path, hints, cols, order, j);
        insert_by_step(hints, waypoint_at(path, cols, order[j] as int))
    } else {
        hints
    }
}

/// How many hints `build_waypoints` aims for: the desired count, at least 2
/// and at most one per cell of the path.
pub open spec fn spread_count(desired_count: int, path_len: int) -> int {
    let at_least_two = if desired_count < 2 {
        2
    } else {
        desired_count
    };
    if at_least_two < path_len {
        at_least_two
    } else {
        path_len
    }
}

/// The hints `build_waypoints` lays along a path: the two ends, then, for each
/// `i` in `1..upto`, one near step `1 + i * (len - 1) / (count - 1)`, added as
/// `near_step_hints` adds it.
pub open spec fn spread_hints(path: Seq<usize>, cols: int, count: int, upto: int) -> Seq<Waypoint>
    decreases upto,
{
    if upto <= 1 {
        seq![waypoint_at(path, cols, 1), waypoint_at(path, cols, path.len() as int)]
    } else {
        let i = upto - 1;
        near_step_hints(
            path,
            spread_hints(path, cols, count, upto - 1),
            cols,
            1 + (i * (path.len() - 1)) / (count - 1),
        )
    }
}

/// What `insert_waypoint_near_step` does to hints sorted by step, as a value.
proof fn lemma_near_step_hints(
    path: Seq<usize>,
    before: Seq<Waypoint>,
    after: Seq<Waypoint>,
    cols: int,
    preferred_step: int,
    inserted: bool,
)
    requires
        steps_nondecreasing(before),
        before.len() < usize::MAX,
        ({
            let order = candidate_order(preferred_step, path.len() as int, (path.len() + 1) as nat);
            &&& inserted == exists|j: int|
                0 <= j < order.len() && insertable(path, before, cols, #[trigger] order[j] as int)
            &&& inserted ==> exists|j: int|
                first_insertable_at(path, before, cols, order, j) && stably_sorted_by_step(
                    before.push(waypoint_at(path, cols, order[j] as int)),
                    after,
                )
            &&& !inserted ==> after == before
        }),
    ensures
        after == near_step_hints(path, before, cols, preferred_step),
{
    let order = candidate_order(preferred_step, path.len() as int, (path.len() + 1) as nat);
    if inserted {
        let j1 = choose|j: int|
            first_insertable_at(path, before, cols, order, j) && stably_sorted_by_step(
                before.push(waypoint_at(path, cols, order[j] as int)),
                after,
            );
        let j2 = choose|j: int| first_insertable_at(path, before, cols, order, j);
        assert(first_insertable_at(path, before, cols, order, j2));
        if j1 < j2 {
            assert(insertable(path, before, cols, order[j1] as int));
        } else if j2 < j1 {
            assert(insertable(path, before, cols, order[j2] as int));
        }
        lemma_sort_after_push(before, waypoint_at(path, cols, order[j1] as int), after);
    } else {
        if exists|j: int| first_insertable_at(path, before, cols, order, j) {
            let j = choose|j: int| first_insertable_at(path, before, cols, order, j);
            assert(insertable(path, before, cols, order[j] as int));
        }
    }
}

/// Sorts the waypoints by step, keeping the order of equal steps.
fn sort_waypoints_by_step(waypoints: &mut Vec<Waypoint>)
    ensures
        stably_sorted_by_step(old(waypoints)@, final(waypoints)@),
{
    let mut keys: Vec<usize> = Vec::new();
    let mut i: usize = 0;
    while i < waypoints.len()
        invariant
            i <= waypoints@.len(),
            waypoints@ == old(waypoints)@,
            keys@ =~= steps_of(waypoints@).take(i as int),
        decreases waypoints@.len() - i,
    {
        keys.push(waypoints[i].step);
        i = i + 1;
    }
    assert(keys@ =~= steps_of(waypoints@));
    let order = stable_order_by_key(&keys);
    let mut sorted: Vec<Waypoint> = Vec::new();
    let mut j: usize = 0;
    while j < order.len()
        invariant
            waypoints@ == old(waypoints)@,
            stable_order(steps_of(waypoints@), order@),
            j <= order@.len(),
            sorted@ =~= reordered(waypoints@, order@).take(j as int),
        decreases order@.len() - j,
    {
        sorted.push(waypoints[order[j]]);
        j = j + 1;
    }
    assert(sorted@ =~= reordered(old(waypoints)@, order@));
    *waypoints = sorted;
}

/// Step 1 and the last step are the path's two ends.
pub open spec fn is_endpoint_step(step: int, path_len: int) -> bool {
    step == 1 || step == path_len
}

/// Every two waypoints, unless both mark an end of the path, are spaced.
pub open spec fn spaced_hints(waypoints: Seq<Waypoint>, path_len: int) -> bool {
    forall|a: int, b: int|
        0 <= a < waypoints.len() && 0 <= b < waypoints.len() && a != b && !(is_endpoint_step(
            (#[trigger] waypoints[a]).step as int,
            path_len,
        ) && is_endpoint_step((#[trigger] waypoints[b]).step as int, path_len)) ==> spaced(
            waypoints[a],
            waypoints[b],
        )
}

/// What a stable sort by step keeps and gives: the same waypoints, each
/// position of the result taken from a distinct position of the input, in
/// order of step.
pub proof fn lemma_sorted_by_step(waypoints: Seq<Waypoint>, sorted: Seq<Waypoint>)
    requires
        stably_sorted_by_step(waypoints, sorted),
        waypoints.len() <= usize::MAX,
    ensures
        sorted.len() == waypoints.len(),
        steps_nondecreasing(sorted),
        forall|w: Waypoint| #[trigger] sorted.contains(w) <==> waypoints.contains(w),
        forall|path_len: int|
            #[trigger] spaced_hints(waypoints, path_len) ==> spaced_hints(sorted, path_len),
{
    let order = choose|order: Seq<usize>|
        stable_order(steps_of(waypoints), order) && sorted == reordered(waypoints, order);
    assert forall|a: int, b: int| 0 <= a <= b < sorted.len() implies (#[trigger] sorted[a]).step <= (
    #[trigger] sorted[b]).step by {
        if a < b {
            assert(steps_of(waypoints)[order[a] as int] <= steps_of(waypoints)[order[b] as int]);
        }
    }
    assert forall|w: Waypoint| #[trigger] sorted.contains(w) <==> waypoints.contains(w) by {
        if sorted.contains(w) {
            let a = choose|a: int| 0 <= a < sorted.len() && sorted[a] == w;
            assert(waypoints[order[a] as int] == w);
        }
        if waypoints.contains(w) {
            let x = choose|x: int| 0 <= x < waypoints.len() && waypoints[x] == w;
            assert(order.contains(x as usize));
            let a = choose|a: int| 0 <= a < order.len() && order[a] == x as usize;
            assert(sorted[a] == w);
        }
    }
    assert forall|path_len: int| #[trigger] spaced_hints(waypoints, path_len) implies spaced_hints(
        sorted,
        path_len,
    ) by {
        assert forall|a: int, b: int|
            0 <= a < sorted.len() && 0 <= b < sorted.len() && a != b && !(is_endpoint_step(
                (#[trigger] sorted[a]).step as int,
                path_len,
            ) && is_endpoint_step((#[trigger] sorted[b]).step as int, path_len)) implies spaced(
            sorted[a],
            sorted[b],
        ) by {
            assert(order[a] != order[b]);
            assert(sorted[a] == waypoints[order[a] as int]);
            assert(sorted[b] == waypoints[order[b] as int]);
        }
    }
}

/// The steps tried for distances `0..d` from the preferred step, in the order
/// they are tried.
pub open spec fn candidate_order(preferred_step: int, path_len: int, d: nat) -> Seq<usize>
    decreases d,
{
    if d == 0 {
        Seq::empty()
    } else {
        candidate_order(preferred_step, path_len, (d - 1) as nat) + candidate_steps_spec(
            preferred_step,
            d - 1,
            path_len,
        )
    }
}

/// The steps tried are interior steps of the path.
proof fn lemma_candidate_steps_interior(preferred_step: int, delta: int, path_len: int)
    requires
        path_len >= 3,
        path_len <= usize::MAX,
    ensures
        forall|j: int|
            0 <= j < candidate_steps_spec(preferred_step, delta, path_len).len() ==> 2
                <= #[trigger] candidate_steps_spec(preferred_step, delta, path_len)[j] <= path_len - 1,
{
}

/// The first step tried where `insertable` holds is at position `j`.
pub open spec fn first_insertable_at(
    path: Seq<usize>,
    waypoints: Seq<Waypoint>,
    cols: int,
    order: Seq<usize>,
    j: int,
) -> bool {
    &&& 0 <= j < order.len()
    &&& insertable(path, waypoints, cols, order[j] as int)
    &&& forall|t: int| 0 <= t < j ==> !insertable(path, waypoints, cols, #[trigger] order[t] as int)
}

/// Adds a hint at the step nearest to `preferred_step` where one may go:
/// distances 0, 1, 2, … are tried in turn, the earlier step before the later
/// one, each held inside the path's interior. The list is then sorted by step.
/// Gives whether a hint was added.
fn insert_waypoint_near_step(
    grid: &Grid,
    path: &[usize],
    waypoints: &mut Vec<Waypoint>,
    preferred_step: usize,
) -> (inserted: bool)
    requires
        grid.cols() > 0,
        path@.len() >= 3,
        preferred_step + path@.len() < usize::MAX,
    ensures
        ({
            let order = candidate_order(
                preferred_step as int,
                path@.len() as int,
                (path@.len() + 1) as nat,
            );
            let cols = grid.cols() as int;
            &&& inserted == exists|j: int|
                0 <= j < order.len() && insertable(path@, old(waypoints)@, cols, #[trigger] order[j] as int)
            &&& inserted ==> exists|j: int|
                first_insertable_at(path@, old(waypoints)@, cols, order, j) && stably_sorted_by_step(
                    old(waypoints)@.push(waypoint_at(path@, cols, order[j] as int)),
                    final(waypoints)@,
                )
            &&& !inserted ==> final(waypoints)@ == old(waypoints)@
        }),
{
    let ghost cols = grid.cols() as int;
    let ghost len = path@.len() as int;
    let max_delta = path.len();
    let mut delta: usize = 0;
    while delta <= max_delta
        invariant
            grid.cols() > 0,
            cols == grid.cols(),
            len == path@.len(),
            max_delta == len,
            len >= 3,
            preferred_step + len < usize::MAX,
            delta <= max_delta + 1,
            waypoints@ == old(waypoints)@,
            forall|t: int|
                0 <= t < candidate_order(preferred_step as int, len, delta as nat).len() ==> !insertable(
                    path@,
                    waypoints@,
                    cols,
                    #[trigger] candidate_order(preferred_step as int, len, delta as nat)[t] as int,
                ),
        decreases max_delta + 1 - delta,
    {
        let steps = candidate_steps(preferred_step, delta, path.len());
        let ghost before = candidate_order(preferred_step as int, len, delta as nat);
        proof {
            lemma_candidate_steps_interior(preferred_step as int, delta as int, len);
            assert(candidate_order(preferred_step as int, len, (delta + 1) as nat) == before + steps@);
        }
        let mut k: usize = 0;
        while k < steps.len()
            invariant
                grid.cols() > 0,
                cols == grid.cols(),
                len == path@.len(),
                len >= 3,
                k <= steps@.len(),
                delta <= len,
                waypoints@ == old(waypoints)@,
                before == candidate_order(preferred_step as int, len, delta as nat),
                candidate_order(preferred_step as int, len, (delta + 1) as nat) == before + steps@,
                forall|j: int| 0 <= j < steps@.len() ==> 2 <= #[trigger] steps@[j] <= len - 1,
                forall|t: int|
                    0 <= t < before.len() ==> !insertable(path@, waypoints@, cols, #[trigger] before[t] as int),
                forall|t: int|
                    0 <= t < k ==> !insertable(path@, waypoints@, cols, #[trigger] steps@[t] as int),
            decreases steps@.len() - k,
        {
            let step = steps[k];
            if can_insert_waypoint(grid, path, waypoints.as_slice(), step) {
                let ghost order = candidate_order(
                    preferred_step as int,
                    len,
                    (len + 1) as nat,
                );
                proof {
                    lemma_candidate_order_prefix(preferred_step as int, len, (delta + 1) as nat, (len + 1) as nat);
                    let j = before.len() + k;
                    assert(order[j] == step);
                    assert(first_insertable_at(path@, old(waypoints)@, cols, order, j)) by {
                        assert forall|t: int| 0 <= t < j implies !insertable(
                            path@,
                            old(waypoints)@,
                            cols,
                            #[trigger] order[t] as int,
                        ) by {
                            if t < before.len() {
                                assert(order[t] == before[t]);
                            } else {
                                assert(order[t] == steps@[t - before.len()]);
                            }
                        }
                    }
                }
                let pos = grid.row_col(path[step - 1]);
                assert(pos == waypoint_at(path@, cols, step as int).pos) by {
                    assert(pos@ =~= waypoint_at(path@, cols, step as int).pos@);
                }
                let added = Waypoint { step, pos };
                assert(added == waypoint_at(path@, cols, step as int));
                waypoints.push(added);
                sort_waypoints_by_step(waypoints);
                return true;
            }
            k = k + 1;
        }
        proof {
            let after = candidate_order(preferred_step as int, len, (delta + 1) as nat);
            assert forall|t: int| 0 <= t < after.len() implies !insertable(
                path@,
                waypoints@,
                cols,
                #[trigger] after[t] as int,
            ) by {
                if t < before.len() {
                    assert(after[t] == before[t]);
                } else {
                    assert(after[t] == steps@[t - before.len()]);
                }
            }
        }
        delta = delta + 1;
    }
    proof {
        let order = candidate_order(preferred_step as int, len, (len + 1) as nat);
        assert(delta == len + 1);
        assert(!exists|j: int|
            0 <= j < order.len() && insertable(path@, old(waypoints)@, cols, #[trigger] order[j] as int));
    }
    false
}

/// The steps tried for fewer distances come first among those tried for more.
proof fn lemma_candidate_order_prefix(preferred_step: int, path_len: int, d: nat, e: nat)
    requires
        d <= e,
    ensures
        candidate_order(preferred_step, path_len, d).len() <= candidate_order(
            preferred_step,
            path_len,
            e,
        ).len(),
        forall|t: int|
            0 <= t < candidate_order(preferred_step, path_len, d).len() ==> #[trigger] candidate_order(
                preferred_step,
                path_len,
                e,
            )[t] == candidate_order(preferred_step, path_len, d)[t],
    decreases e - d,
{
    if d < e {
        lemma_candidate_order_prefix(preferred_step, path_len, d, (e - 1) as nat);
    }
}

/// The hints fit the path: at least two, in order of step, each marking where
/// the path is at its step, the first at step 1 and the last at the last step,
/// and every two of them spaced unless both mark an end of the path.
pub open spec fn waypoints_fit(waypoints: Seq<Waypoint>, path: Seq<usize>, cols: int) -> bool {
    &&& waypoints.len() >= 2
    &&& steps_nondecreasing(waypoints)
    &&& forall|i: int| 0 <= i < waypoints.len() ==> on_path(#[trigger] waypoints[i], path, cols)
    &&& waypoints[0].step == 1
    &&& waypoints[waypoints.len() - 1].step == path.len()
    &&& spaced_hints(waypoints, path.len() as int)
}

/// Sorting fitting hints by step keeps them fitting.
proof fn lemma_sort_keeps_fit(
    waypoints: Seq<Waypoint>,
    sorted: Seq<Waypoint>,
    path: Seq<usize>,
    cols: int,
)
    requires
        waypoints.len() <= usize::MAX,
        waypoints.len() >= 2,
        forall|i: int| 0 <= i < waypoints.len() ==> on_path(#[trigger] waypoints[i], path, cols),
        exists|i: int| 0 <= i < waypoints.len() && (#[trigger] waypoints[i]).step == 1,
        exists|i: int| 0 <= i < waypoints.len() && (#[trigger] waypoints[i]).step == path.len(),
        spaced_hints(waypoints, path.len() as int),
        stably_sorted_by_step(waypoints, sorted),
    ensures
        waypoints_fit(sorted, path, cols),
        sorted.len() == waypoints.len(),
{
    lemma_sorted_by_step(waypoints, sorted);
    assert forall|i: int| 0 <= i < sorted.len() implies on_path(#[trigger] sorted[i], path, cols) by {
        assert(sorted.contains(sorted[i]));
        assert(waypoints.contains(sorted[i]));
    }
    let a = choose|i: int| 0 <= i < waypoints.len() && (#[trigger] waypoints[i]).step == 1;
    assert(sorted.contains(waypoints[a]));
    let ia = choose|i: int| 0 <= i < sorted.len() && sorted[i] == waypoints[a];
    assert(sorted[0].step <= sorted[ia].step);
    assert(on_path(sorted[0], path, cols));
    let b = choose|i: int| 0 <= i < waypoints.len() && (#[trigger] waypoints[i]).step == path.len();
    assert(sorted.contains(waypoints[b]));
    let ib = choose|i: int| 0 <= i < sorted.len() && sorted[i] == waypoints[b];
    assert(sorted[ib].step <= sorted[sorted.len() - 1].step);
    assert(on_path(sorted[sorted.len() - 1], path, cols));
}

/// Adding a hint where one may go, inside the path, and sorting keeps the hints
/// fitting.
proof fn lemma_insert_keeps_fit(
    waypoints: Seq<Waypoint>,
    sorted: Seq<Waypoint>,
    path: Seq<usize>,
    cols: int,
    step: int,
)
    requires
        waypoints.len() < usize::MAX,
        waypoints_fit(waypoints, path, cols),
        2 <= step <= path.len() - 1,
        insertable(path, waypoints, cols, step),
        stably_sorted_by_step(waypoints.push(waypoint_at(path, cols, step)), sorted),
    ensures
        waypoints_fit(sorted, path, cols),
        sorted.len() == waypoints.len() + 1,
{
    let added = waypoint_at(path, cols, step);
    let all = waypoints.push(added);
    assert forall|i: int| 0 <= i < all.len() implies on_path(#[trigger] all[i], path, cols) by {
        if i < waypoints.len() {
            assert(all[i] == waypoints[i]);
        }
    }
    assert(all[0].step == 1);
    assert(all[waypoints.len() - 1].step == path.len());
    assert forall|a: int, b: int|
        0 <= a < all.len() && 0 <= b < all.len() && a != b && !(is_endpoint_step(
            (#[trigger] all[a]).step as int,
            path.len() as int,
        ) && is_endpoint_step((#[trigger] all[b]).step as int, path.len() as int)) implies spaced(
        all[a],
        all[b],
    ) by {
        if a < waypoints.len() && b < waypoints.len() {
            assert(all[a] == waypoints[a] && all[b] == waypoints[b]);
        } else if a < waypoints.len() {
            assert(spaced(added, waypoints[a]));
        } else {
            assert(spaced(added, waypoints[b]));
        }
    }
    lemma_sort_keeps_fit(all, sorted, path, cols);
}

/// Spreads hints along the path: one at each end, then one near each of
/// `count - 2` evenly spaced steps (where one may go), where `count` is the
/// desired number, at least 2 and at most the path's length.
fn build_waypoints(grid: &Grid, path: &[usize], desired_count: usize) -> (waypoints: Vec<Waypoint>)
    requires
        grid.cols() > 0,
        path@.len() >= 1,
        path@.len() * path@.len() <= usize::MAX,
    ensures
        waypoints@ == spread_hints(
            path@,
            grid.cols() as int,
            spread_count(desired_count as int, path@.len() as int),
            spread_count(desired_count as int, path@.len() as int) - 1,
        ),
        waypoints_fit(waypoints@, path@, grid.cols() as int),
        waypoints@.len() <= (if desired_count < 2 {
            2
        } else {
            desired_count as int
        }),
{
    let ghost cols = grid.cols() as int;
    let len = path.len();
    let at_least_two: usize = if desired_count < 2 {
        2
    } else {
        desired_count
    };
    let count: usize = if at_least_two < len {
        at_least_two
    } else {
        len
    };
    let first_pos = grid.row_col(path[0]);
    let last_pos = grid.row_col(path[len - 1]);
    let mut waypoints: Vec<Waypoint> = Vec::new();
    waypoints.push(Waypoint { step: 1, pos: first_pos });
    waypoints.push(Waypoint { step: len, pos: last_pos });
    proof {
        assert(first_pos == waypoint_at(path@, cols, 1).pos) by {
            assert(first_pos@ =~= waypoint_at(path@, cols, 1).pos@);
        }
        assert(last_pos == waypoint_at(path@, cols, len as int).pos) by {
            assert(last_pos@ =~= waypoint_at(path@, cols, len as int).pos@);
        }
        assert(waypoints@[0] == waypoint_at(path@, cols, 1));
        assert(waypoints@[1] == waypoint_at(path@, cols, len as int));
        assert(waypoints@ =~= spread_hints(path@, cols, count as int, 1));
    }
    let mut i: usize = 1;
    let upper: usize = if count >= 1 {
        count - 1
    } else {
        0
    };
    while i < upper
        invariant
            grid.cols() > 0,
            cols == grid.cols(),
            len == path@.len(),
            len * len <= usize::MAX,
            1 <= len,
            2 <= at_least_two,
            count <= len,
            count <= at_least_two,
            upper == count - 1 || (count == 0 && upper == 0),
            1 <= i,
            i <= upper || i == 1,
            waypoints_fit(waypoints@, path@, cols),
            waypoints@.len() <= 2 + (i - 1),
            count == spread_count(desired_count as int, len as int),
            waypoints@ == spread_hints(path@, cols, count as int, i as int),
        decreases upper - i,
    {
        proof {
            assert(i * (len - 1) <= len * len) by (nonlinear_arith)
                requires
                    i < len,
                    1 <= len,
            ;
            assert((i * (len - 1)) / (count - 1) <= len - 1) by (nonlinear_arith)
                requires
                    1 <= i < count - 1,
                    count <= len,
            ;
            assert(len + len < usize::MAX) by (nonlinear_arith)
                requires
                    len * len <= usize::MAX,
                    3 <= len,
            ;
        }
        let step = 1 + (i * (len - 1) / (count - 1));
        let ghost before = waypoints@;
        let inserted = insert_waypoint_near_step(grid, path, &mut waypoints, step);
        proof {
            if inserted {
                let order = candidate_order(step as int, len as int, (len + 1) as nat);
                let j = choose|j: int|
                    first_insertable_at(path@, before, cols, order, j) && stably_sorted_by_step(
                        before.push(waypoint_at(path@, cols, order[j] as int)),
                        waypoints@,
                    );
                lemma_candidate_order_interior(step as int, len as int, (len + 1) as nat);
                lemma_insert_keeps_fit(before, waypoints@, path@, cols, order[j] as int);
            }
            assert(before.len() < usize::MAX);
            lemma_near_step_hints(path@, before, waypoints@, cols, step as int, inserted);
            assert(waypoints@ == spread_hints(path@, cols, count as int, i + 1));
        }
        i = i + 1;
    }
    let ghost before_sort = waypoints@;
    assert(before_sort.len() <= usize::MAX) by {
        assert(before_sort.len() <= 2 + (i - 1));
    }
    sort_waypoints_by_step(&mut waypoints);
    proof {
        assert(before_sort[0].step == 1);
        assert(before_sort[before_sort.len() - 1].step == len);
        lemma_sort_keeps_fit(before_sort, waypoints@, path@, cols);
        lemma_sort_of_sorted(before_sort, waypoints@);
        if count >= 2 {
            assert(i == count - 1);
        } else {
            assert(i == 1);
            assert(spread_hints(path@, cols, count as int, count - 1) == spread_hints(path@, cols, count as int, 1));
        }
    }
    waypoints
}

/// Every step tried is an interior step of the path.
proof fn lemma_candidate_order_interior(preferred_step: int, path_len: int, d: nat)
    requires
        path_len >= 3,
        path_len <= usize::MAX,
    ensures
        forall|t: int|
            0 <= t < candidate_order(preferred_step, path_len, d).len() ==> 2
                <= #[trigger] candidate_order(preferred_step, path_len, d)[t] <= path_len - 1,
    decreases d,
{
    if d > 0 {
        lemma_candidate_order_interior(preferred_step, path_len, (d - 1) as nat);
        lemma_candidate_steps_interior(preferred_step, d - 1, path_len);
        let before = candidate_order(preferred_step, path_len, (d - 1) as nat);
        let steps = candidate_steps_spec(preferred_step, d - 1, path_len);
        assert forall|t: int| 0 <= t < candidate_order(preferred_step, path_len, d).len() implies 2
            <= #[trigger] candidate_order(preferred_step, path_len, d)[t] <= path_len - 1 by {
            if t < before.len() {
                assert(candidate_order(preferred_step, path_len, d)[t] == before[t]);
            } else {
                assert(candidate_order(preferred_step, path_len, d)[t] == steps[t - before.len()]);
            }
        }
    }
}

/// The position of the last waypoint among the first `n` with a step below
/// `step`, or -1.
pub open spec fn last_below(waypoints: Seq<Waypoint>, step: int, n: int) -> int
    decreases n,
{
    if n <= 0 {
        -1
    } else if waypoints[n - 1].step < step {
        n - 1
    } else {
        last_below(waypoints, step, n - 1)
    }
}

/// The position of the first waypoint among the first `n` with a step above
/// `step`, or -1.
pub open spec fn first_above(waypoints: Seq<Waypoint>, step: int, n: int) -> int
    decreases n,
{
    if n <= 0 {
        -1
    } else {
        let f = first_above(waypoints, step, n - 1);
        if f >= 0 {
            f
        } else if waypoints[n - 1].step > step {
            n - 1
        } else {
            -1
        }
    }
}

/// The smallest king-move distance from `pos` to the first `n` waypoints (0
/// when `n` is 0).
pub open spec fn min_chebyshev_upto(waypoints: Seq<Waypoint>, pos: [usize; 2], n: int) -> int
    decreases n,
{
    if n <= 0 {
        0
    } else if n == 1 {
        chebyshev_spec(pos, waypoints[0].pos)
    } else {
        let m = min_chebyshev_upto(waypoints, pos, n - 1);
        let d = chebyshev_spec(pos, waypoints[n - 1].pos);
        if d < m {
            d
        } else {
            m
        }
    }
}

/// The smallest step distance from `step` to the first `n` waypoints (0 when
/// `n` is 0).
pub open spec fn min_step_gap_upto(waypoints: Seq<Waypoint>, step: int, n: int) -> int
    decreases n,
{
    if n <= 0 {
        0
    } else if n == 1 {
        abs_diff(waypoints[0].step as int, step)
    } else {
        let m = min_step_gap_upto(waypoints, step, n - 1);
        let d = abs_diff(waypoints[n - 1].step as int, step);
        if d < m {
            d
        } else {
            m
        }
    }
}

/// How many of `cells` are open.
pub open spec fn open_among(cells: Seq<usize>, obstacles: Seq<u8>) -> nat
    decreases cells.len(),
{
    if cells.len() == 0 {
        0
    } else {
        open_among(cells.drop_last(), obstacles) + if obstacles[cells.last() as int] == 0u8 {
            1nat
        } else {
            0nat
        }
    }
}

/// `a - b`, or 0 when `b` is larger.
pub open spec fn saturating_sub(a: int, b: int) -> int {
    if a >= b {
        a - b
    } else {
        0
    }
}

/// The hints put in order of step by a stable sort.
pub open spec fn sorted_by_step(waypoints: Seq<Waypoint>) -> Seq<Waypoint> {
    choose|sorted: Seq<Waypoint>| stably_sorted_by_step(waypoints, sorted)
}

/// The merit of a hint at `step`, in tenths, with the hints taken in order of
/// step (see `score_among_sorted`).
pub open spec fn hint_score(
    rows: int,
    cols: int,
    path: Seq<usize>,
    obstacles: Seq<u8>,
    waypoints: Seq<Waypoint>,
    step: int,
) -> int {
    score_among_sorted(rows, cols, path, obstacles, sorted_by_step(waypoints), step)
}

/// The merit of a hint at `step` among hints in order of step, in tenths: 1.5
/// per step by which the legs to the neighbouring hints exceed their taxicab
/// distance (trickiness), 0.6 per step of the shorter leg (bisection), 0.3 per
/// unit of king-move distance to the nearest hint, 0.4 per open neighbour of
/// the cell (buffer), and 0.8 per step to the nearest hint's step. The
/// neighbouring hints are the last one before `step` and the first one after
/// it, or the first and the last hint where there is none.
pub open spec fn score_among_sorted(
    rows: int,
    cols: int,
    path: Seq<usize>,
    obstacles: Seq<u8>,
    waypoints: Seq<Waypoint>,
    step: int,
) -> int {
    let n = waypoints.len() as int;
    let pos = waypoint_at(path, cols, step).pos;
    let pi = last_below(waypoints, step, n);
    let ni = first_above(waypoints, step, n);
    let prev = if pi >= 0 {
        waypoints[pi]
    } else {
        waypoints[0]
    };
    let next = if ni >= 0 {
        waypoints[ni]
    } else {
        waypoints[n - 1]
    };
    let back = step - prev.step;
    let ahead = next.step - step;
    let trickiness = saturating_sub(back, manhattan_spec(pos, prev.pos)) + saturating_sub(
        ahead,
        manhattan_spec(pos, next.pos),
    );
    let bisection = if back <= ahead {
        back
    } else {
        ahead
    };
    let buffer = open_among(cell_neighbors(rows, cols, path[step - 1] as int), obstacles);
    15 * trickiness + 6 * bisection + 3 * min_chebyshev_upto(waypoints, pos, n) + 4 * buffer + 8
        * min_step_gap_upto(waypoints, step, n)
}

/// Every waypoint lies on the board.
pub open spec fn waypoints_on_board(waypoints: Seq<Waypoint>, rows: int, cols: int) -> bool {
    forall|i: int|
        0 <= i < waypoints.len() ==> (#[trigger] waypoints[i]).pos[0] < rows && waypoints[i].pos[1]
            < cols
}

/// The positions of the neighbouring hints of `step`: the last waypoint with a
/// smaller step (else the first waypoint) and the first with a larger step
/// (else the last waypoint).
fn neighbouring_hints(waypoints: &[Waypoint], step: usize) -> (found: (usize, usize))
    requires
        waypoints@.len() >= 1,
    ensures
        found.0 < waypoints@.len(),
        found.1 < waypoints@.len(),
        found.0 == (if last_below(waypoints@, step as int, waypoints@.len() as int) >= 0 {
            last_below(waypoints@, step as int, waypoints@.len() as int)
        } else {
            0
        }),
        found.1 == (if first_above(waypoints@, step as int, waypoints@.len() as int) >= 0 {
            first_above(waypoints@, step as int, waypoints@.len() as int)
        } else {
            waypoints@.len() - 1
        }),
{
    let ghost ws = waypoints@;
    let mut prev_idx: usize = 0;
    let mut has_prev = false;
    let mut next_idx: usize = 0;
    let mut has_next = false;
    let mut i: usize = 0;
    while i < waypoints.len()
        invariant
            ws == waypoints@,
            i <= ws.len(),
            has_prev ==> last_below(ws, step as int, i as int) == prev_idx && prev_idx < i,
            !has_prev ==> last_below(ws, step as int, i as int) == -1,
            has_next ==> first_above(ws, step as int, i as int) == next_idx && next_idx < i,
            !has_next ==> first_above(ws, step as int, i as int) == -1,
        decreases ws.len() - i,
    {
        if waypoints[i].step < step {
            prev_idx = i;
            has_prev = true;
        }
        if !has_next && waypoints[i].step > step {
            next_idx = i;
            has_next = true;
        }
        i = i + 1;
    }
    let p = if has_prev {
        prev_idx
    } else {
        0
    };
    let q = if has_next {
        next_idx
    } else {
        waypoints.len() - 1
    };
    (p, q)
}

/// The smallest king-move distance from `pos` to a waypoint and the smallest
/// step distance from `step` to a waypoint's step.
fn nearest_hint_distances(waypoints: &[Waypoint], pos: [usize; 2], step: usize) -> (found: (
    usize,
    usize,
))
    ensures
        found.0 == min_chebyshev_upto(waypoints@, pos, waypoints@.len() as int),
        found.1 == min_step_gap_upto(waypoints@, step as int, waypoints@.len() as int),
{
    let mut min_cheb: usize = 0;
    let mut min_gap: usize = 0;
    let mut i: usize = 0;
    while i < waypoints.len()
        invariant
            i <= waypoints@.len(),
            min_cheb == min_chebyshev_upto(waypoints@, pos, i as int),
            min_gap == min_step_gap_upto(waypoints@, step as int, i as int),
        decreases waypoints@.len() - i,
    {
        let w = waypoints[i];
        let d = chebyshev(pos, w.pos);
        let g = usize_abs_diff(w.step, step);
        if i == 0 {
            min_cheb = d;
            min_gap = g;
        } else {
            if d < min_cheb {
                min_cheb = d;
            }
            if g < min_gap {
                min_gap = g;
            }
        }
        i = i + 1;
    }
    (min_cheb, min_gap)
}

/// How many neighbours of `cell` are open.
fn open_neighbor_count(grid: &Grid, obstacles: &[u8], cell: usize) -> (count: usize)
    requires
        grid.wf(),
        obstacles@.len() == grid.rows() * grid.cols(),
        cell < obstacles@.len(),
    ensures
        count == open_among(
            cell_neighbors(grid.rows() as int, grid.cols() as int, cell as int),
            obstacles@,
        ),
{
    proof {
        grid.lemma_wf_size();
        lemma_cell_neighbors_facts(grid.rows() as int, grid.cols() as int, cell as int);
    }
    let neighbors = grid.neighbors(cell);
    let mut count: usize = 0;
    let mut k: usize = 0;
    while k < neighbors.len()
        invariant
            forall|j: int| 0 <= j < neighbors@.len() ==> (#[trigger] neighbors@[j]) < obstacles@.len(),
            neighbors@.len() <= 4,
            k <= neighbors@.len(),
            count <= k,
            count == open_among(neighbors@.take(k as int), obstacles@),
        decreases neighbors@.len() - k,
    {
        assert(neighbors@.take(k + 1).drop_last() =~= neighbors@.take(k as int));
        if obstacles[neighbors[k]] == 0 {
            count = count + 1;
        }
        k = k + 1;
    }
    assert(neighbors@.take(neighbors@.len() as int) =~= neighbors@);
    count
}

/// Two stable sorts by step of the same hints give the same order.
proof fn lemma_stably_sorted_unique(waypoints: Seq<Waypoint>, s1: Seq<Waypoint>, s2: Seq<Waypoint>)
    requires
        stably_sorted_by_step(waypoints, s1),
        stably_sorted_by_step(waypoints, s2),
    ensures
        s1 == s2,
{
    let o1 = choose|order: Seq<usize>|
        stable_order(steps_of(waypoints), order) && s1 == reordered(waypoints, order);
    let o2 = choose|order: Seq<usize>|
        stable_order(steps_of(waypoints), order) && s2 == reordered(waypoints, order);
    lemma_stable_order_unique(steps_of(waypoints), o1, o2);
}

/// The hints put in order of step, as a new list.
fn sorted_copy(waypoints: &[Waypoint]) -> (sorted: Vec<Waypoint>)
    ensures
        sorted@ == sorted_by_step(waypoints@),
        sorted@.len() == waypoints@.len(),
        steps_nondecreasing(sorted@),
        forall|w: Waypoint| #[trigger] sorted@.contains(w) <==> waypoints@.contains(w),
{
    let mut sorted: Vec<Waypoint> = Vec::new();
    let mut i: usize = 0;
    while i < waypoints.len()
        invariant
            i <= waypoints@.len(),
            sorted@ == waypoints@.take(i as int),
        decreases waypoints@.len() - i,
    {
        sorted.push(waypoints[i]);
        i = i + 1;
        assert(sorted@ =~= waypoints@.take(i as int));
    }
    assert(sorted@ =~= waypoints@);
    let ghost unsorted = sorted@;
    sort_waypoints_by_step(&mut sorted);
    proof {
        lemma_sorted_by_step(unsorted, sorted@);
        let chosen = sorted_by_step(waypoints@);
        assert(stably_sorted_by_step(waypoints@, chosen));
        lemma_stably_sorted_unique(waypoints@, sorted@, chosen);
    }
    sorted
}

/// The merit of a hint at `step` (see `hint_score`), in tenths. The hints may
/// come in any order; some hint is at or before `step` and some at or after
/// it, and the taxicab distances from the cell at `step` to the hints fit in
/// a `usize`.
#[verifier::rlimit(40)]
fn waypoint_candidate_score(
    grid: &Grid,
    path: &[usize],
    obstacles: &[u8],
    waypoints: &[Waypoint],
    step: usize,
) -> (score: u128)
    requires
        grid.wf(),
        obstacles@.len() == grid.rows() * grid.cols(),
        1 <= step <= path@.len(),
        path@[step - 1] < obstacles@.len(),
        exists|i: int| 0 <= i < waypoints@.len() && #[trigger] waypoints@[i].step <= step,
        exists|i: int| 0 <= i < waypoints@.len() && #[trigger] waypoints@[i].step >= step,
        forall|i: int|
            0 <= i < waypoints@.len() ==> manhattan_spec(
                waypoint_at(path@, grid.cols() as int, step as int).pos,
                (#[trigger] waypoints@[i]).pos,
            ) <= usize::MAX,
    ensures
        score == hint_score(
            grid.rows() as int,
            grid.cols() as int,
            path@,
            obstacles@,
            waypoints@,
            step as int,
        ),
{
    proof {
        grid.lemma_wf_size();
    }
    let ghost rows = grid.rows() as int;
    let ghost cols = grid.cols() as int;
    let sorted = sorted_copy(waypoints);
    let ghost ws = sorted@;
    let ghost n = ws.len() as int;
    let cell = path[step - 1];
    proof {
        assert(cols > 0) by (nonlinear_arith)
            requires
                0 <= cell < rows * cols,
                0 <= rows,
                0 <= cols,
        ;
        lemma_cell_position(rows, cols, cell as int);
        let lo = choose|i: int| 0 <= i < waypoints@.len() && #[trigger] waypoints@[i].step <= step;
        assert(ws.contains(waypoints@[lo]));
        let hi = choose|i: int| 0 <= i < waypoints@.len() && #[trigger] waypoints@[i].step >= step;
        assert(ws.contains(waypoints@[hi]));
        assert(ws[0].step <= step);
        assert(ws[n - 1].step >= step);
    }
    let pos = grid.row_col(cell);
    assert(pos == waypoint_at(path@, cols, step as int).pos) by {
        assert(pos@ =~= waypoint_at(path@, cols, step as int).pos@);
    }
    let (p, q) = neighbouring_hints(sorted.as_slice(), step);
    proof {
        if last_below(ws, step as int, n) < 0 {
            lemma_last_below_none(ws, step as int, n);
        } else {
            lemma_last_below_is_below(ws, step as int, n);
        }
        if first_above(ws, step as int, n) < 0 {
            lemma_first_above_none(ws, step as int, n);
        } else {
            lemma_first_above_is_above(ws, step as int, n);
        }
        assert(ws.contains(ws[p as int]));
        assert(ws.contains(ws[q as int]));
        assert(waypoints@.contains(ws[p as int]));
        assert(waypoints@.contains(ws[q as int]));
        let ip = choose|i: int| 0 <= i < waypoints@.len() && waypoints@[i] == ws[p as int];
        let iq = choose|i: int| 0 <= i < waypoints@.len() && waypoints@[i] == ws[q as int];
        assert(manhattan_spec(pos, waypoints@[ip].pos) <= usize::MAX);
        assert(manhattan_spec(pos, waypoints@[iq].pos) <= usize::MAX);
    }
    let prev = sorted[p];
    let next = sorted[q];
    let back = step - prev.step;
    let ahead = next.step - step;
    let prev_dist = manhattan(pos, prev.pos);
    let next_dist = manhattan(pos, next.pos);
    let back_extra: usize = if back >= prev_dist {
        back - prev_dist
    } else {
        0
    };
    let ahead_extra: usize = if ahead >= next_dist {
        ahead - next_dist
    } else {
        0
    };
    let bisection = if back <= ahead {
        back
    } else {
        ahead
    };
    let (min_cheb, min_gap) = nearest_hint_distances(sorted.as_slice(), pos, step);
    let buffer = open_neighbor_count(grid, obstacles, cell);
    let trickiness: u128 = back_extra as u128 + ahead_extra as u128;
    15 * trickiness + 6 * (bisection as u128) + 3 * (min_cheb as u128) + 4 * (buffer as u128) + 8 * (
    min_gap as u128)
}

/// With no waypoint below `step`, the first one is not below it.
proof fn lemma_last_below_none(waypoints: Seq<Waypoint>, step: int, n: int)
    requires
        1 <= n <= waypoints.len(),
        last_below(waypoints, step, n) < 0,
    ensures
        waypoints[0].step >= step,
    decreases n,
{
    if n > 1 {
        lemma_last_below_none(waypoints, step, n - 1);
    }
}

/// With no waypoint above `step`, the last one is not above it.
proof fn lemma_first_above_none(waypoints: Seq<Waypoint>, step: int, n: int)
    requires
        1 <= n <= waypoints.len(),
        first_above(waypoints, step, n) < 0,
    ensures
        waypoints[n - 1].step <= step,
{
}

/// The waypoint `last_below` finds is below `step`.
proof fn lemma_last_below_is_below(waypoints: Seq<Waypoint>, step: int, n: int)
    requires
        0 <= n <= waypoints.len(),
        last_below(waypoints, step, n) >= 0,
    ensures
        last_below(waypoints, step, n) < n,
        waypoints[last_below(waypoints, step, n)].step < step,
    decreases n,
{
    if n > 0 && waypoints[n - 1].step >= step {
        lemma_last_below_is_below(waypoints, step, n - 1);
    }
}

/// The waypoint `first_above` finds is above `step`.
proof fn lemma_first_above_is_above(waypoints: Seq<Waypoint>, step: int, n: int)
    requires
        0 <= n <= waypoints.len(),
        first_above(waypoints, step, n) >= 0,
    ensures
        first_above(waypoints, step, n) < n,
        waypoints[first_above(waypoints, step, n)].step > step,
    decreases n,
{
    if n > 0 && first_above(waypoints, step, n - 1) >= 0 {
        lemma_first_above_is_above(waypoints, step, n - 1);
    }
}

/// The steps at which two paths part ways lie between 1 and the number of
/// steps compared.
proof fn lemma_divergent_steps_range(first: Seq<usize>, second: Seq<usize>, n: int)
    requires
        0 <= n <= usize::MAX,
    ensures
        forall|j: int|
            0 <= j < divergent_steps_upto(first, second, n).len() ==> 1
                <= #[trigger] divergent_steps_upto(first, second, n)[j] <= n,
    decreases n,
{
    if n > 0 {
        lemma_divergent_steps_range(first, second, n - 1);
        let before = divergent_steps_upto(first, second, n - 1);
        let now = divergent_steps_upto(first, second, n);
        assert forall|j: int| 0 <= j < now.len() implies 1 <= #[trigger] now[j] <= n by {
            if j < before.len() {
                assert(now[j] == before[j]);
            }
        }
    }
}

/// Two positions on a board are at most `usize::MAX` taxicab steps apart.
proof fn lemma_board_manhattan(rows: int, cols: int, a: [usize; 2], b: [usize; 2])
    requires
        1 <= cols,
        1 <= rows,
        rows * cols <= usize::MAX,
        a[0] < rows,
        a[1] < cols,
        b[0] < rows,
        b[1] < cols,
    ensures
        manhattan_spec(a, b) <= usize::MAX,
{
    assert(rows + cols <= rows * cols + 1) by (nonlinear_arith)
        requires
            1 <= rows,
            1 <= cols,
    ;
}

/// Hints that fit a path over the board's cells lie on the board.
proof fn lemma_fit_on_board(waypoints: Seq<Waypoint>, path: Seq<usize>, rows: int, cols: int)
    requires
        waypoints_fit(waypoints, path, cols),
        1 <= cols,
        forall|i: int| 0 <= i < path.len() ==> (#[trigger] path[i]) < rows * cols,
    ensures
        waypoints_on_board(waypoints, rows, cols),
{
    assert forall|i: int| 0 <= i < waypoints.len() implies (#[trigger] waypoints[i]).pos[0] < rows
        && waypoints[i].pos[1] < cols by {
        assert(on_path(waypoints[i], path, cols));
        let cell = path[waypoints[i].step - 1] as int;
        lemma_cell_position(rows, cols, cell);
    }
}

/// Among the first `n` steps of `steps`, the position of the best step where a
/// hint may go (the last of the best when several score the same), or -1.
pub open spec fn best_divergence_upto(
    rows: int,
    cols: int,
    path: Seq<usize>,
    obstacles: Seq<u8>,
    waypoints: Seq<Waypoint>,
    steps: Seq<usize>,
    n: int,
) -> int
    decreases n,
{
    if n <= 0 {
        -1
    } else {
        let b = best_divergence_upto(rows, cols, path, obstacles, waypoints, steps, n - 1);
        let st = steps[n - 1] as int;
        if insertable(path, waypoints, cols, st) {
            if b < 0 || hint_score(rows, cols, path, obstacles, waypoints, st) >= hint_score(
                rows,
                cols,
                path,
                obstacles,
                waypoints,
                steps[b] as int,
            ) {
                n - 1
            } else {
                b
            }
        } else {
            b
        }
    }
}

/// The step chosen to split two solutions: among the steps where they part
/// ways and a hint may go, the best scoring one, or none.
pub open spec fn chosen_divergence(
    rows: int,
    cols: int,
    path: Seq<usize>,
    obstacles: Seq<u8>,
    waypoints: Seq<Waypoint>,
    first: Seq<usize>,
    second: Seq<usize>,
) -> Option<usize> {
    let steps = divergent_steps_upto(first, second, common_len(first, second));
    let b = best_divergence_upto(rows, cols, path, obstacles, waypoints, steps, steps.len() as int);
    if b >= 0 {
        Some(steps[b])
    } else {
        None
    }
}

/// The best step at which to put a hint that tells two solutions apart.
#[verifier::rlimit(40)]
fn choose_divergence_step(
    grid: &Grid,
    path: &[usize],
    obstacles: &[u8],
    waypoints: &[Waypoint],
    first: &[usize],
    second: &[usize],
) -> (step: Option<usize>)
    requires
        grid.wf(),
        obstacles@.len() == grid.rows() * grid.cols(),
        forall|i: int| 0 <= i < path@.len() ==> (#[trigger] path@[i]) < obstacles@.len(),
        waypoints_fit(waypoints@, path@, grid.cols() as int),
        common_len(first@, second@) <= path@.len(),
    ensures
        step == chosen_divergence(
            grid.rows() as int,
            grid.cols() as int,
            path@,
            obstacles@,
            waypoints@,
            first@,
            second@,
        ),
{
    proof {
        grid.lemma_wf_size();
    }
    let ghost rows = grid.rows() as int;
    let ghost cols = grid.cols() as int;
    let steps = divergent_steps(first, second);
    proof {
        lemma_divergent_steps_range(first@, second@, common_len(first@, second@));
        assert(1 <= cols) by {
            assert(path@.len() >= 1);
            assert(path@[0] < rows * cols);
            assert(cols > 0) by (nonlinear_arith)
                requires
                    0 <= path@[0] < rows * cols,
                    0 <= rows,
                    0 <= cols,
            ;
        }
        lemma_fit_on_board(waypoints@, path@, rows, cols);
    }
    let mut best: usize = 0;
    let mut has_best = false;
    let mut best_score: u128 = 0;
    let mut i: usize = 0;
    while i < steps.len()
        invariant
            grid.wf(),
            rows == grid.rows(),
            cols == grid.cols(),
            1 <= cols,
            obstacles@.len() == rows * cols,
            forall|j: int| 0 <= j < path@.len() ==> (#[trigger] path@[j]) < obstacles@.len(),
            waypoints_fit(waypoints@, path@, cols),
            waypoints_on_board(waypoints@, rows, cols),
            forall|j: int| 0 <= j < steps@.len() ==> 1 <= #[trigger] steps@[j] <= path@.len(),
            i <= steps@.len(),
            has_best ==> best < i && best_divergence_upto(rows, cols, path@, obstacles@, waypoints@, steps@, i as int) == best,
            has_best ==> best_score == hint_score(rows, cols, path@, obstacles@, waypoints@, steps@[best as int] as int),
            !has_best ==> best_divergence_upto(rows, cols, path@, obstacles@, waypoints@, steps@, i as int) == -1,
        decreases steps@.len() - i,
    {
        let st = steps[i];
        proof {
            grid.lemma_wf_size();
            let ws = waypoints@;
            assert(ws[0].step <= st);
            assert(ws[ws.len() - 1].step >= st);
            let cell = path@[st - 1] as int;
            lemma_cell_position(rows, cols, cell);
            let here = waypoint_at(path@, cols, st as int).pos;
            assert forall|j: int| 0 <= j < ws.len() implies manhattan_spec(here, (#[trigger] ws[j]).pos)
                <= usize::MAX by {
                lemma_board_manhattan(rows, cols, here, ws[j].pos);
            }
        }
        if can_insert_waypoint(grid, path, waypoints, st) {
            let score = waypoint_candidate_score(grid, path, obstacles, waypoints, st);
            if !has_best || score >= best_score {
                best = i;
                best_score = score;
                has_best = true;
            }
        }
        i = i + 1;
    }
    if has_best {
        Some(steps[best])
    } else {
        None
    }
}

/// A path meets the constraints of hints that fit it.
proof fn lemma_path_meets_own_hints(waypoints: Seq<Waypoint>, path: Seq<usize>, rows: int, cols: int)
    requires
        waypoints_fit(waypoints, path, cols),
        1 <= cols,
        forall|i: int| 0 <= i < path.len() ==> (#[trigger] path[i]) < rows * cols,
    ensures
        satisfies_waypoints(path, constraints_of(waypoints, cols)),
        forall|i: int|
            0 <= i < waypoints.len() ==> (#[trigger] waypoints[i]).pos[0] * cols + waypoints[i].pos[1]
                == path[waypoints[i].step - 1],
{
    assert forall|i: int| 0 <= i < waypoints.len() implies (#[trigger] waypoints[i]).pos[0] * cols
        + waypoints[i].pos[1] == path[waypoints[i].step - 1] by {
        assert(on_path(waypoints[i], path, cols));
        lemma_cell_position(rows, cols, path[waypoints[i].step - 1] as int);
    }
    let cs = constraints_of(waypoints, cols);
    assert forall|k: int| 0 <= k < cs.len() implies {
        &&& 1 <= (#[trigger] cs[k]).0 <= path.len()
        &&& path[cs[k].0 - 1] == cs[k].1
    } by {
        assert(on_path(waypoints[k], path, cols));
        assert(waypoints[k].pos[0] * cols + waypoints[k].pos[1] == path[waypoints[k].step - 1]);
    }
}

/// The constraints of hints that fit a covering path can steer a search.
proof fn lemma_fit_hints_usable(
    waypoints: Seq<Waypoint>,
    path: Seq<usize>,
    rows: int,
    cols: int,
    obstacles: Seq<u8>,
)
    requires
        waypoints_fit(waypoints, path, cols),
        valid_covering_path(rows, cols, obstacles, path),
        path.len() >= 1,
        1 <= cols,
        forall|i: int| 0 <= i < path.len() ==> (#[trigger] path[i]) < rows * cols,
    ensures
        waypoints_usable(obstacles, constraints_of(waypoints, cols)),
{
    lemma_path_meets_own_hints(waypoints, path, rows, cols);
    let cs = constraints_of(waypoints, cols);
    let n = path.len() as int;
    assert forall|k: int| 0 <= k < cs.len() implies {
        &&& 1 <= (#[trigger] cs[k]).0 <= open_cell_count(obstacles)
        &&& cs[k].1 < obstacles.len()
        &&& obstacles[cs[k].1 as int] == 0u8
    } by {
        assert(on_path(waypoints[k], path, cols));
        assert(path[cs[k].0 - 1] == cs[k].1);
    }
    assert forall|k: int, l: int|
        0 <= k < cs.len() && 0 <= l < cs.len() && (#[trigger] cs[k]).0 == (#[trigger] cs[l]).0 implies cs[k].1
        == cs[l].1 by {
        assert(path[cs[k].0 - 1] == cs[k].1);
        assert(path[cs[l].0 - 1] == cs[l].1);
    }
    assert forall|k: int, l: int|
        0 <= k < cs.len() && 0 <= l < cs.len() && (#[trigger] cs[k]).1 == (#[trigger] cs[l]).1 implies cs[k].0
        == cs[l].0 by {
        assert(path[cs[k].0 - 1] == cs[k].1);
        assert(path[cs[l].0 - 1] == cs[l].1);
        assert(path[cs[k].0 - 1] == path[cs[l].0 - 1]);
    }
    assert(cs[0].0 == 1);
}

/// The middle of the widest gap lies between the first and the last step.
proof fn lemma_widest_gap_midpoint_bounds(waypoints: Seq<Waypoint>)
    requires
        waypoints.len() >= 2,
        steps_nondecreasing(waypoints),
    ensures
        widest_gap_midpoint(waypoints) <= waypoints[waypoints.len() - 1].step,
        widest_gap_midpoint(waypoints) >= waypoints[0].step,
{
    let j = widest_gap_upto(waypoints, waypoints.len() - 1);
    lemma_widest_gap_index(waypoints, waypoints.len() - 1);
    assert(waypoints[j].step <= waypoints[j + 1].step);
    assert(waypoints[j + 1].step <= waypoints[waypoints.len() - 1].step);
    assert(waypoints[0].step <= waypoints[j].step);
}

/// The widest gap found among the first `n` pairs is one of them.
proof fn lemma_widest_gap_index(waypoints: Seq<Waypoint>, n: int)
    requires
        1 <= n,
    ensures
        0 <= widest_gap_upto(waypoints, n) < n,
    decreases n,
{
    if n > 1 {
        lemma_widest_gap_index(waypoints, n - 1);
    }
}

/// The hints make the path the puzzle's only solution.
pub open spec fn unique_under_hints(
    rows: int,
    cols: int,
    obstacles: Seq<u8>,
    waypoints: Seq<Waypoint>,
    path: Seq<usize>,
) -> bool {
    forall|q: Seq<usize>|
        #[trigger] constrained_path(rows, cols, obstacles, constraints_of(waypoints, cols), q) <==> q
            == path
}

/// What a search for two solutions under the hints reports. The report is
/// fixed by the puzzle, the hints and the cap (`lemma_search_result_unique`).
pub open spec fn hint_search(
    rows: int,
    cols: int,
    obstacles: Seq<u8>,
    hints: Seq<Waypoint>,
    call_cap: u32,
) -> SolutionSearchResult {
    choose|r: SolutionSearchResult|
        search_result_spec(rows, cols, obstacles, constraints_of(hints, cols), 2, call_cap, r)
}

/// The step a new hint is aimed at after a round that found `solutions`: where
/// the first two part ways (the best scoring such step where a hint may go),
/// or, failing that, the middle of the widest gap between the hints.
pub open spec fn next_hint_step(
    rows: int,
    cols: int,
    obstacles: Seq<u8>,
    path: Seq<usize>,
    hints: Seq<Waypoint>,
    solutions: Seq<Seq<usize>>,
) -> int {
    if solutions.len() >= 2 {
        match chosen_divergence(rows, cols, path, obstacles, hints, solutions[0], solutions[1]) {
            Some(step) => step as int,
            None => widest_gap_midpoint(hints),
        }
    } else {
        widest_gap_midpoint(hints)
    }
}

/// What the rounds of `make_unique_waypoints` give from `hints`, with at most
/// `rounds` rounds left: each round searches for two solutions under the
/// hints; it stops on a single solution, when there are `max_hints` hints, or
/// when no hint can be added near the step aimed at, and otherwise adds that
/// hint and goes on. Gives the hints, the solution count of the last round
/// (2 when not proven unique, and when the rounds ran out) and the visits spent.
pub open spec fn hint_rounds(
    rows: int,
    cols: int,
    obstacles: Seq<u8>,
    path: Seq<usize>,
    hints: Seq<Waypoint>,
    max_hints: int,
    call_cap: u32,
    rounds: nat,
) -> (Seq<Waypoint>, u32, int)
    decreases rounds,
{
    if rounds == 0 {
        (hints, 2, 0)
    } else {
        let r = hint_search(rows, cols, obstacles, hints, call_cap);
        let solutions = path_views(r.solutions@);
        let count: u32 = if r.exhausted {
            2
        } else {
            solutions.len() as u32
        };
        let step = next_hint_step(rows, cols, obstacles, path, hints, solutions);
        let order = candidate_order(step, path.len() as int, (path.len() + 1) as nat);
        if (!r.exhausted && solutions.len() == 1) || hints.len() >= max_hints || !(exists|j: int|
            first_insertable_at(path, hints, cols, order, j)) {
            (hints, count, r.solver_calls as int)
        } else {
            let rest = hint_rounds(
                rows,
                cols,
                obstacles,
                path,
                near_step_hints(path, hints, cols, step),
                max_hints,
                call_cap,
                (rounds - 1) as nat,
            );
            (rest.0, rest.1, r.solver_calls + rest.2)
        }
    }
}

/// A round's search under hints the path meets finds the path whenever it is
/// not cut short; a single solution is then the path, alone.
proof fn lemma_round_outcome(
    rows: int,
    cols: int,
    obstacles: Seq<u8>,
    waypoints: Seq<Waypoint>,
    path: Seq<usize>,
    call_cap: u32,
    result: SolutionSearchResult,
)
    requires
        obstacles.len() == rows * cols,
        waypoints_usable(obstacles, constraints_of(waypoints, cols)),
        constrained_path(rows, cols, obstacles, constraints_of(waypoints, cols), path),
        search_result_spec(rows, cols, obstacles, constraints_of(waypoints, cols), 2, call_cap, result),
    ensures
        !result.exhausted && result.solutions@.len() < 2 ==> result.solutions@.len() == 1,
        !result.exhausted && result.solutions@.len() == 1 ==> unique_under_hints(
            rows,
            cols,
            obstacles,
            waypoints,
            path,
        ),
{
    let cs = constraints_of(waypoints, cols);
    if !result.exhausted && result.solutions@.len() < 2 {
        assert(found(result.solutions@, path));
        if result.solutions@.len() == 1 {
            assert(result.solutions@[0]@ == path);
            assert forall|q: Seq<usize>| #[trigger]
                constrained_path(rows, cols, obstacles, cs, q) <==> q == path by {
                if constrained_path(rows, cols, obstacles, cs, q) {
                    assert(found(result.solutions@, q));
                }
            }
        }
    }
}

/// One round of `hint_rounds`, told by the report of its search.
proof fn lemma_hint_round(
    rows: int,
    cols: int,
    obstacles: Seq<u8>,
    path: Seq<usize>,
    hints: Seq<Waypoint>,
    max_hints: int,
    call_cap: u32,
    rounds: nat,
    result: SolutionSearchResult,
)
    requires
        rounds >= 1,
        search_result_spec(rows, cols, obstacles, constraints_of(hints, cols), 2, call_cap, result),
    ensures
        ({
            let solutions = path_views(result.solutions@);
            let count: u32 = if result.exhausted {
                2
            } else {
                solutions.len() as u32
            };
            let step = next_hint_step(rows, cols, obstacles, path, hints, solutions);
            let order = candidate_order(step, path.len() as int, (path.len() + 1) as nat);
            let stop = (!result.exhausted && solutions.len() == 1) || hints.len() >= max_hints || !(exists|
                j: int,
            | first_insertable_at(path, hints, cols, order, j));
            hint_rounds(rows, cols, obstacles, path, hints, max_hints, call_cap, rounds) == if stop {
                (hints, count, result.solver_calls as int)
            } else {
                let rest = hint_rounds(
                    rows,
                    cols,
                    obstacles,
                    path,
                    near_step_hints(path, hints, cols, step),
                    max_hints,
                    call_cap,
                    (rounds - 1) as nat,
                );
                (rest.0, rest.1, result.solver_calls + rest.2)
            }
        }),
{
    let r = hint_search(rows, cols, obstacles, hints, call_cap);
    assert(search_result_spec(rows, cols, obstacles, constraints_of(hints, cols), 2, call_cap, r));
    lemma_search_result_unique(rows, cols, obstacles, constraints_of(hints, cols), 2, call_cap, result, r);
}

/// Steps strictly increase along the list.
pub open spec fn steps_increasing(waypoints: Seq<Waypoint>) -> bool {
    forall|a: int, b: int| 0 <= a < b < waypoints.len() ==> (#[trigger] waypoints[a]).step < (
    #[trigger] waypoints[b]).step
}

/// Putting a hint with a new step into hints with increasing steps keeps the
/// steps increasing.
proof fn lemma_insert_by_step_increasing(waypoints: Seq<Waypoint>, waypoint: Waypoint)
    requires
        steps_increasing(waypoints),
        forall|i: int| 0 <= i < waypoints.len() ==> (#[trigger] waypoints[i]).step != waypoint.step,
    ensures
        steps_increasing(insert_by_step(waypoints, waypoint)),
{
    lemma_count_not_after(waypoints, waypoint.step);
    let p = count_not_after(waypoints, waypoint.step) as int;
    let r = insert_by_step(waypoints, waypoint);
    assert(r.len() == waypoints.len() + 1);
    assert forall|i: int| 0 <= i < r.len() implies #[trigger] r[i] == (if i < p {
        waypoints[i]
    } else if i == p {
        waypoint
    } else {
        waypoints[i - 1]
    }) by {}
    assert forall|a: int, b: int| 0 <= a < b < r.len() implies (#[trigger] r[a]).step < (
    #[trigger] r[b]).step by {
        if a < p && b == p {
            assert(waypoints[a].step <= waypoint.step);
        } else if a == p {
            assert(waypoints[b - 1].step > waypoint.step);
        } else if a < p && b > p {
            assert(waypoints[a].step <= waypoint.step);
            assert(waypoints[b - 1].step > waypoint.step);
        } else if a < p {
        } else {
        }
    }
}

/// Adding a hint near a step keeps the steps increasing.
proof fn lemma_near_step_keeps_increasing(
    path: Seq<usize>,
    hints: Seq<Waypoint>,
    cols: int,
    preferred_step: int,
)
    requires
        steps_increasing(hints),
    ensures
        steps_increasing(near_step_hints(path, hints, cols, preferred_step)),
{
    let order = candidate_order(preferred_step, path.len() as int, (path.len() + 1) as nat);
    if exists|j: int| first_insertable_at(path, hints, cols, order, j) {
        let j = choose|j: int| first_insertable_at(path, hints, cols, order, j);
        let w = waypoint_at(path, cols, order[j] as int);
        assert(w.step == order[j]);
        lemma_insert_by_step_increasing(hints, w);
    }
}

/// The hints `build_waypoints` lays along a path of at least two cells have
/// increasing steps.
proof fn lemma_spread_hints_increasing(path: Seq<usize>, cols: int, count: int, upto: int)
    requires
        2 <= path.len() <= usize::MAX,
    ensures
        steps_increasing(spread_hints(path, cols, count, upto)),
    decreases upto,
{
    if upto > 1 {
        lemma_spread_hints_increasing(path, cols, count, upto - 1);
        let i = upto - 1;
        lemma_near_step_keeps_increasing(
            path,
            spread_hints(path, cols, count, upto - 1),
            cols,
            1 + (i * (path.len() - 1)) / (count - 1),
        );
    }
}

/// The rounds of `make_unique_waypoints` keep the steps increasing.
proof fn lemma_hint_rounds_increasing(
    rows: int,
    cols: int,
    obstacles: Seq<u8>,
    path: Seq<usize>,
    hints: Seq<Waypoint>,
    max_hints: int,
    call_cap: u32,
    rounds: nat,
)
    requires
        steps_increasing(hints),
    ensures
        steps_increasing(hint_rounds(rows, cols, obstacles, path, hints, max_hints, call_cap, rounds).0),
    decreases rounds,
{
    if rounds > 0 {
        let r = hint_search(rows, cols, obstacles, hints, call_cap);
        let solutions = path_views(r.solutions@);
        let step = next_hint_step(rows, cols, obstacles, path, hints, solutions);
        lemma_near_step_keeps_increasing(path, hints, cols, step);
        lemma_hint_rounds_increasing(
            rows,
            cols,
            obstacles,
            path,
            near_step_hints(path, hints, cols, step),
            max_hints,
            call_cap,
            (rounds - 1) as nat,
        );
    }
}

/// Hints that fit a path of at least three cells, with increasing steps, are
/// at least two steps apart one after the other.
proof fn lemma_fit_gaps(waypoints: Seq<Waypoint>, path: Seq<usize>, cols: int)
    requires
        waypoints_fit(waypoints, path, cols),
        steps_increasing(waypoints),
        path.len() >= 3,
    ensures
        forall|k: int|
            0 <= k < waypoints.len() - 1 ==> (#[trigger] waypoints[k]).step + 2 <= waypoints[k + 1].step,
{
    assert forall|k: int| 0 <= k < waypoints.len() - 1 implies (#[trigger] waypoints[k]).step + 2
        <= waypoints[k + 1].step by {
        let a = waypoints[k];
        let b = waypoints[k + 1];
        assert(a.step < b.step);
        if !(is_endpoint_step(a.step as int, path.len() as int) && is_endpoint_step(
            b.step as int,
            path.len() as int,
        )) {
            assert(spaced(a, b));
        } else {
            assert(on_path(a, path, cols));
            assert(on_path(b, path, cols));
        }
    }
}

/// How many hints `make_unique_waypoints` may end with: eight more than
/// desired, at most one per cell of the path.
pub open spec fn hint_budget(desired_count: int, path_len: int) -> int {
    if desired_count + 8 < path_len {
        desired_count + 8
    } else {
        path_len
    }
}

/// The step a new hint is aimed at after a round that found the solutions in
/// `result` (see `next_hint_step`).
fn aim_next_hint(
    grid: &Grid,
    path: &[usize],
    obstacles: &[u8],
    waypoints: &[Waypoint],
    result: &SolutionSearchResult,
) -> (step: usize)
    requires
        grid.wf(),
        obstacles@.len() == grid.rows() * grid.cols(),
        valid_covering_path(grid.rows() as int, grid.cols() as int, obstacles@, path@),
        path@.len() >= 3,
        path@.len() * path@.len() <= usize::MAX,
        waypoints_fit(waypoints@, path@, grid.cols() as int),
        forall|i: int|
            0 <= i < result.solutions@.len() ==> constrained_path(
                grid.rows() as int,
                grid.cols() as int,
                obstacles@,
                constraints_of(waypoints@, grid.cols() as int),
                (#[trigger] result.solutions@[i])@,
            ),
    ensures
        step == next_hint_step(
            grid.rows() as int,
            grid.cols() as int,
            obstacles@,
            path@,
            waypoints@,
            path_views(result.solutions@),
        ),
        step <= path@.len(),
{
    let ghost rows = grid.rows() as int;
    let ghost cols = grid.cols() as int;
    proof {
        grid.lemma_wf_size();
        lemma_widest_gap_midpoint_bounds(waypoints@);
        assert(path@.len() + path@.len() < usize::MAX) by (nonlinear_arith)
            requires
                path@.len() * path@.len() <= usize::MAX,
                3 <= path@.len(),
        ;
        assert(forall|i: int| 0 <= i < path@.len() ==> (#[trigger] path@[i]) < obstacles@.len());
    }
    let step: usize = if result.solutions.len() >= 2 {
        proof {
            assert(constrained_path(rows, cols, obstacles@, constraints_of(waypoints@, cols), result.solutions@[0]@));
            assert(constrained_path(rows, cols, obstacles@, constraints_of(waypoints@, cols), result.solutions@[1]@));
        }
        match choose_divergence_step(
            grid,
            path,
            obstacles,
            waypoints,
            result.solutions[0].as_slice(),
            result.solutions[1].as_slice(),
        ) {
            Some(step) => {
                proof {
                    let first = result.solutions@[0]@;
                    let second = result.solutions@[1]@;
                    let steps = divergent_steps_upto(first, second, common_len(first, second));
                    lemma_divergent_steps_range(first, second, common_len(first, second));
                    lemma_best_divergence_index(
                        rows,
                        cols,
                        path@,
                        obstacles@,
                        waypoints@,
                        steps,
                        steps.len() as int,
                    );
                }
                step
            },
            None => largest_waypoint_gap_midpoint(waypoints),
        }
    } else {
        largest_waypoint_gap_midpoint(waypoints)
    };
    proof {
        let sols = path_views(result.solutions@);
        if result.solutions@.len() >= 2 {
            assert(sols[0] == result.solutions@[0]@);
            assert(sols[1] == result.solutions@[1]@);
        }
    }
    step
}

/// Adds hints until they pin the path down: starting from evenly spread hints,
/// each round searches for two solutions under the hints; while there are two,
/// a hint goes where they part ways (the best scoring such step) or, failing
/// that, into the middle of the widest gap. Stops when the solution is unique,
/// when the hint budget (`desired_count + 8`, at most the path's length) is
/// used up, or when no hint can be added. Gives the hints and the last count
/// (2 when not proven unique).
#[verifier::rlimit(100)]
#[verifier::spinoff_prover]
fn make_unique_waypoints(
    grid: &Grid,
    obstacles: &[u8],
    path: &[usize],
    desired_count: usize,
    solver_call_cap: u32,
) -> (made: (Vec<Waypoint>, PathCount))
    requires
        grid.wf(),
        obstacles@.len() == grid.rows() * grid.cols(),
        obstacles@.len() <= isize::MAX,
        valid_covering_path(grid.rows() as int, grid.cols() as int, obstacles@, path@),
        path@.len() >= 1,
        path@.len() * path@.len() <= usize::MAX,
        desired_count + 8 <= usize::MAX,
        path@.len() * at_least_one(solver_call_cap) <= u32::MAX,
    ensures
        waypoints_fit(made.0@, path@, grid.cols() as int),
        made.0@.len() <= desired_count + 8,
        1 <= made.1.solutions <= 2,
        1 <= made.1.solver_calls <= path@.len() * at_least_one(solver_call_cap),
        made.1.solutions == 1 ==> unique_under_hints(
            grid.rows() as int,
            grid.cols() as int,
            obstacles@,
            made.0@,
            path@,
        ),
        ({
            let count = spread_count(desired_count as int, path@.len() as int);
            let budget = hint_budget(desired_count as int, path@.len() as int);
            let outcome = hint_rounds(
                grid.rows() as int,
                grid.cols() as int,
                obstacles@,
                path@,
                spread_hints(path@, grid.cols() as int, count, count - 1),
                budget,
                solver_call_cap,
                budget as nat,
            );
            &&& made.0@ == outcome.0
            &&& made.1.solutions == outcome.1
            &&& made.1.solver_calls == outcome.2
        }),
{
    proof {
        grid.lemma_wf_size();
    }
    let ghost rows = grid.rows() as int;
    let ghost cols = grid.cols() as int;
    let ghost cap = at_least_one(solver_call_cap) as int;
    proof {
        assert(path@[0] < rows * cols);
        assert(cols >= 1) by (nonlinear_arith)
            requires
                0 <= path@[0] < rows * cols,
                0 <= rows,
                0 <= cols,
        ;
    }
    let mut waypoints = build_waypoints(grid, path, desired_count);
    let max_waypoints: usize = if desired_count + 8 < path.len() {
        desired_count + 8
    } else {
        path.len()
    };
    let mut solver_calls: u32 = 0;
    let mut round: usize = 0;
    let ghost goal = hint_rounds(
        rows,
        cols,
        obstacles@,
        path@,
        waypoints@,
        max_waypoints as int,
        solver_call_cap,
        max_waypoints as nat,
    );
    while round < max_waypoints
        invariant
            max_waypoints == hint_budget(desired_count as int, path@.len() as int),
            goal == hint_rounds(
                rows,
                cols,
                obstacles@,
                path@,
                spread_hints(
                    path@,
                    cols,
                    spread_count(desired_count as int, path@.len() as int),
                    spread_count(desired_count as int, path@.len() as int) - 1,
                ),
                max_waypoints as int,
                solver_call_cap,
                max_waypoints as nat,
            ),
            ({
                let rest = hint_rounds(
                    rows,
                    cols,
                    obstacles@,
                    path@,
                    waypoints@,
                    max_waypoints as int,
                    solver_call_cap,
                    (max_waypoints - round) as nat,
                );
                goal == (rest.0, rest.1, solver_calls + rest.2)
            }),
            grid.wf(),
            rows == grid.rows(),
            cols == grid.cols(),
            1 <= cols,
            cap == at_least_one(solver_call_cap),
            obstacles@.len() == rows * cols,
            obstacles@.len() <= isize::MAX,
            valid_covering_path(rows, cols, obstacles@, path@),
            forall|i: int| 0 <= i < path@.len() ==> (#[trigger] path@[i]) < rows * cols,
            path@.len() >= 1,
            path@.len() * path@.len() <= usize::MAX,
            path@.len() * cap <= u32::MAX,
            1 <= max_waypoints <= path@.len(),
            round <= max_waypoints,
            solver_calls <= round * cap,
            round >= 1 ==> solver_calls >= 1,
            waypoints_fit(waypoints@, path@, cols),
            waypoints@.len() <= desired_count + 8,
            max_waypoints <= desired_count + 8,
        decreases max_waypoints - round,
    {
        proof {
            lemma_path_meets_own_hints(waypoints@, path@, rows, cols);
            lemma_fit_hints_usable(waypoints@, path@, rows, cols, obstacles@);
            lemma_open_cells_len(obstacles@);
        }
        let constraints = waypoint_constraints(waypoints.as_slice(), grid.cols());
        let result = find_up_to_solutions_with_waypoints(
            grid,
            obstacles,
            constraints.as_slice(),
            2,
            solver_call_cap,
        );
        proof {
            assert((round + 1) * cap <= path@.len() * cap) by (nonlinear_arith)
                requires
                    round + 1 <= path@.len(),
                    0 <= cap,
            ;
            assert((round + 1) * cap == round * cap + cap) by (nonlinear_arith);
        }
        let ghost rest = hint_rounds(
            rows,
            cols,
            obstacles@,
            path@,
            waypoints@,
            max_waypoints as int,
            solver_call_cap,
            (max_waypoints - round) as nat,
        );
        let ghost sols = path_views(result.solutions@);
        proof {
            lemma_hint_round(
                rows,
                cols,
                obstacles@,
                path@,
                waypoints@,
                max_waypoints as int,
                solver_call_cap,
                (max_waypoints - round) as nat,
                result,
            );
            assert(sols.len() == result.solutions@.len());
        }
        let ghost calls_before = solver_calls;
        solver_calls = solver_calls + result.solver_calls;
        if !result.exhausted && result.solutions.len() == 1 {
            let count = waypoint_path_count(&result, solver_calls);
            proof {
                assert(rest == (waypoints@, 1u32, result.solver_calls as int));
                lemma_round_outcome(rows, cols, obstacles@, waypoints@, path@, solver_call_cap, result);
            }
            return (waypoints, count);
        }
        proof {
            lemma_round_outcome(rows, cols, obstacles@, waypoints@, path@, solver_call_cap, result);
        }
        if waypoints.len() >= max_waypoints {
            let count = waypoint_path_count(&result, solver_calls);
            return (waypoints, count);
        }
        let next_step = aim_next_hint(grid, path, obstacles, waypoints.as_slice(), &result);
        proof {
            assert(path@.len() + path@.len() < usize::MAX) by (nonlinear_arith)
                requires
                    path@.len() * path@.len() <= usize::MAX,
                    3 <= path@.len(),
            ;
        }
        let ghost before = waypoints@;
        let inserted = insert_waypoint_near_step(grid, path, &mut waypoints, next_step);
        proof {
            let order = candidate_order(next_step as int, path@.len() as int, (path@.len() + 1) as nat);
            if !inserted {
                if exists|j: int| first_insertable_at(path@, before, cols, order, j) {
                    let j = choose|j: int| first_insertable_at(path@, before, cols, order, j);
                    assert(insertable(path@, before, cols, order[j] as int));
                }
            }
        }
        if !inserted {
            let count = waypoint_path_count(&result, solver_calls);
            return (waypoints, count);
        }
        proof {
            assert(before.len() < usize::MAX);
            lemma_near_step_hints(path@, before, waypoints@, cols, next_step as int, inserted);
        }
        proof {
            let order = candidate_order(next_step as int, path@.len() as int, (path@.len() + 1) as nat);
            let j = choose|j: int|
                first_insertable_at(path@, before, cols, order, j) && stably_sorted_by_step(
                    before.push(waypoint_at(path@, cols, order[j] as int)),
                    waypoints@,
                );
            lemma_candidate_order_interior(next_step as int, path@.len() as int, (path@.len() + 1) as nat);
            lemma_insert_keeps_fit(before, waypoints@, path@, cols, order[j] as int);
        }
        round = round + 1;
    }
    proof {
        assert(round * cap <= path@.len() * cap) by (nonlinear_arith)
            requires
                round <= path@.len(),
                0 <= cap,
        ;
    }
    (waypoints, PathCount { solutions: 2, solver_calls })
}

/// The best step found among the first `n` is one of them.
proof fn lemma_best_divergence_index(
    rows: int,
    cols: int,
    path: Seq<usize>,
    obstacles: Seq<u8>,
    waypoints: Seq<Waypoint>,
    steps: Seq<usize>,
    n: int,
)
    requires
        0 <= n,
    ensures
        best_divergence_upto(rows, cols, path, obstacles, waypoints, steps, n) < n,
    decreases n,
{
    if n > 0 {
        lemma_best_divergence_index(rows, cols, path, obstacles, waypoints, steps, n - 1);
    }
}

/// How many of `cells` are not yet visited.
pub open spec fn unvisited_among(cells: Seq<usize>, visited: Seq<bool>) -> nat
    decreases cells.len(),
{
    if cells.len() == 0 {
        0
    } else {
        unvisited_among(cells.drop_last(), visited) + if !visited[cells.last() as int] {
            1nat
        } else {
            0nat
        }
    }
}

/// How many neighbours of `idx` are not yet visited.
fn onward_count(grid: &Grid, visited: &[bool], idx: usize) -> (count: usize)
    requires
        grid.wf(),
        visited@.len() == grid.rows() * grid.cols(),
        idx < visited@.len(),
    ensures
        count == unvisited_among(
            cell_neighbors(grid.rows() as int, grid.cols() as int, idx as int),
            visited@,
        ),
{
    proof {
        grid.lemma_wf_size();
        lemma_cell_neighbors_facts(grid.rows() as int, grid.cols() as int, idx as int);
    }
    let neighbors = grid.neighbors(idx);
    let mut count: usize = 0;
    let mut k: usize = 0;
    while k < neighbors.len()
        invariant
            forall|j: int| 0 <= j < neighbors@.len() ==> (#[trigger] neighbors@[j]) < visited@.len(),
            neighbors@.len() <= 4,
            k <= neighbors@.len(),
            count <= k,
            count == unvisited_among(neighbors@.take(k as int), visited@),
        decreases neighbors@.len() - k,
    {
        assert(neighbors@.take(k + 1).drop_last() =~= neighbors@.take(k as int));
        if !visited[neighbors[k]] {
            count = count + 1;
        }
        k = k + 1;
    }
    assert(neighbors@.take(neighbors@.len() as int) =~= neighbors@);
    count
}

/// The cells of `cells` that `walk` has not visited, in order.
pub open spec fn unvisited_in(cells: Seq<usize>, walk: Seq<usize>) -> Seq<usize>
    decreases cells.len(),
{
    if cells.len() == 0 {
        Seq::empty()
    } else {
        let rest = unvisited_in(cells.drop_last(), walk);
        if walk.contains(cells.last()) {
            rest
        } else {
            rest.push(cells.last())
        }
    }
}

/// The position of the first smallest key among the first `n` keys.
pub open spec fn first_min_upto(keys: Seq<nat>, n: int) -> int
    decreases n,
{
    if n <= 1 {
        0
    } else {
        let best = first_min_upto(keys, n - 1);
        if keys[n - 1] < keys[best] {
            n - 1
        } else {
            best
        }
    }
}

/// How many unvisited neighbours each of `cells` has once `walk` is walked.
pub open spec fn onward_keys(rows: int, cols: int, walk: Seq<usize>, cells: Seq<usize>) -> Seq<nat> {
    cells.map_values(
        |c: usize| unvisited_among(cell_neighbors(rows, cols, c as int), visited_by((rows * cols) as nat, walk)),
    )
}

/// One step of the walk: the unvisited neighbours of its last cell, shuffled by
/// the generator at `state`, and the first of them with the fewest unvisited
/// neighbours of its own. Gives that cell and the generator's state after the
/// shuffle.
pub open spec fn walk_step(rows: int, cols: int, walk: Seq<usize>, state: u64) -> (usize, u64) {
    let options = unvisited_in(cell_neighbors(rows, cols, walk.last() as int), walk);
    let mixed = shuffled(options, state);
    (mixed.0[first_min_upto(onward_keys(rows, cols, walk, mixed.0), mixed.0.len() as int)], mixed.1)
}

/// The walk grown from `walk`, with the generator at `state`, one step at a
/// time until it is `target` cells long or its last cell has no unvisited
/// neighbour. Gives the walk and the generator's state afterwards.
pub open spec fn grown_walk(rows: int, cols: int, walk: Seq<usize>, state: u64, target: int) -> (
    Seq<usize>,
    u64,
)
    decreases target - walk.len(),
{
    if walk.len() >= target || unvisited_in(cell_neighbors(rows, cols, walk.last() as int), walk).len()
        == 0 {
        (walk, state)
    } else {
        let step = walk_step(rows, cols, walk, state);
        grown_walk(rows, cols, walk.push(step.0), step.1, target)
    }
}

/// The obstacle map a walk leaves on a board of `total` cells: open on the
/// walk, blocked everywhere else.
pub open spec fn walk_obstacles(total: int, walk: Seq<usize>) -> Seq<u8> {
    Seq::new(total as nat, |c: int| if walk.contains(c as usize) { 0u8 } else { 1u8 })
}

/// No cell of `unvisited_in(cells, walk)` is on the walk.
proof fn lemma_unvisited_in_excludes(cells: Seq<usize>, walk: Seq<usize>, j: int)
    requires
        0 <= j < unvisited_in(cells, walk).len(),
    ensures
        !walk.contains(unvisited_in(cells, walk)[j]),
    decreases cells.len(),
{
    if cells.len() > 0 {
        let rest = unvisited_in(cells.drop_last(), walk);
        if j < rest.len() {
            lemma_unvisited_in_excludes(cells.drop_last(), walk, j);
        }
    }
}

/// In a map of zeros and ones, the ones and the zeros add up to all cells.
proof fn lemma_zero_one_counts(obstacles: Seq<u8>)
    requires
        forall|i: int| 0 <= i < obstacles.len() ==> #[trigger] obstacles[i] == 0u8 || obstacles[i] == 1u8,
    ensures
        obstacle_cells(obstacles).len() + open_cell_count(obstacles) == obstacles.len(),
    decreases obstacles.len(),
{
    if obstacles.len() > 0 {
        let rest = obstacles.drop_last();
        assert forall|i: int| 0 <= i < rest.len() implies #[trigger] rest[i] == 0u8 || rest[i] == 1u8 by {
            assert(rest[i] == obstacles[i]);
        }
        lemma_zero_one_counts(rest);
        assert(obstacles[obstacles.len() - 1] == 0u8 || obstacles[obstacles.len() - 1] == 1u8);
    }
}

/// The first smallest key is where a stable sort by key starts.
proof fn lemma_stable_order_starts_at_first_min(keys: Seq<usize>, ks: Seq<nat>, order: Seq<usize>)
    requires
        stable_order(keys, order),
        1 <= keys.len() <= usize::MAX,
        ks.len() == keys.len(),
        forall|t: int| 0 <= t < keys.len() ==> #[trigger] ks[t] == keys[t],
    ensures
        order[0] == first_min_upto(ks, keys.len() as int),
{
    lemma_first_min_upto(ks, keys.len() as int);
    let m = first_min_upto(ks, keys.len() as int);
    let j = order[0] as int;
    assert(order.contains(m as usize));
    let a = choose|a: int| 0 <= a < order.len() && order[a] == m as usize;
    assert(0 <= j < keys.len());
    if a > 0 {
        assert(keys[order[0] as int] <= keys[order[a] as int]);
        assert(ks[m] <= ks[j]);
        assert(ks[j] == keys[j] && ks[m] == keys[m]);
        assert(keys[j] == keys[m]);
        assert(order[0] < order[a]);
        assert(ks[m] < ks[j]);
    }
}

/// The first smallest key: no key is smaller, and every earlier key is larger.
proof fn lemma_first_min_upto(ks: Seq<nat>, n: int)
    requires
        1 <= n <= ks.len(),
    ensures
        0 <= first_min_upto(ks, n) < n,
        forall|t: int| 0 <= t < n ==> ks[first_min_upto(ks, n)] <= #[trigger] ks[t],
        forall|t: int| 0 <= t < first_min_upto(ks, n) ==> ks[first_min_upto(ks, n)] < #[trigger] ks[t],
    decreases n,
{
    if n > 1 {
        lemma_first_min_upto(ks, n - 1);
    }
}

/// A candidate puzzle: a covering path and the obstacle map it covers.
pub struct Candidate {
    pub path: Vec<usize>,
    pub obstacles: Vec<u8>,
}

/// The shortest walk a candidate may have: two thirds of the cells.
pub open spec fn min_walk_len(total: int) -> int {
    total * 2 / 3
}

/// The length a walk aims for: all cells but a fifth of them (at least 3).
pub open spec fn target_walk_len(total: int) -> int {
    total - if total / 5 >= 3 {
        total / 5
    } else {
        3
    }
}

/// Grows a random self-avoiding walk from a random cell, always stepping to an
/// unvisited neighbour with the fewest unvisited neighbours of its own (ties
/// broken by a shuffle), until it reaches the target length or is stuck. A
/// walk of at least two thirds of the cells becomes a candidate: the cells off
/// the walk become obstacles.
#[verifier::spinoff_prover]
fn build_candidate(grid: &Grid, rng: &mut Rng) -> (candidate: Option<Candidate>)
    requires
        grid.wf(),
        grid.rows() * grid.cols() >= 3,
        grid.rows() * grid.cols() * 2 <= usize::MAX,
    ensures
        ({
            let rows = grid.rows() as int;
            let cols = grid.cols() as int;
            let total = rows * cols;
            let drawn = range_steps(old(rng)@, total);
            let start = range_of(drawn, total) as usize;
            let grown = grown_walk(rows, cols, seq![start], drawn, target_walk_len(total));
            &&& final(rng)@ == grown.1
            &&& candidate is Some <==> (grown.0.len() >= min_walk_len(total) && valid_covering_path(
                rows,
                cols,
                walk_obstacles(total, grown.0),
                grown.0,
            ))
            &&& candidate matches Some(c) ==> c.path@ == grown.0 && c.obstacles@ == walk_obstacles(
                total,
                grown.0,
            )
        }),
        candidate matches Some(c) ==> {
            let total = grid.rows() * grid.cols();
            &&& valid_covering_path(grid.rows() as int, grid.cols() as int, c.obstacles@, c.path@)
            &&& min_walk_len(total) <= c.path@.len() <= target_walk_len(total)
            &&& c.obstacles@.len() == total
            &&& forall|cell: int|
                0 <= cell < total ==> #[trigger] c.obstacles@[cell] == (if c.path@.contains(
                    cell as usize,
                ) {
                    0u8
                } else {
                    1u8
                })
        },
{
    proof {
        grid.lemma_wf_size();
    }
    let ghost rows = grid.rows() as int;
    let ghost cols = grid.cols() as int;
    let total = grid.rows() * grid.cols();
    let min_len = total * 2 / 3;
    let fifth = total / 5;
    let target_len = total - if fifth >= 3 {
        fifth
    } else {
        3
    };
    let mut visited: Vec<bool> = vec![false; total];
    let mut path: Vec<usize> = Vec::with_capacity(target_len);
    let start = rng.range(total);
    visited.set(start, true);
    path.push(start);
    let ghost goal = grown_walk(rows, cols, path@, rng@, target_len as int);
    proof {
        assert(path@ =~= seq![start]);
        assert forall|c: int| 0 <= c < total implies #[trigger] visited@[c] == path@.contains(c as usize) by {
            if c == start {
                assert(path@[0] == start);
            }
        }
    }
    while path.len() < target_len
        invariant
            grid.wf(),
            rows == grid.rows(),
            cols == grid.cols(),
            total == rows * cols,
            total <= usize::MAX,
            visited@.len() == total,
            target_len <= total,
            target_len == target_walk_len(total as int),
            1 <= path@.len(),
            path@.len() <= target_len || path@.len() == 1,
            forall|i: int| 0 <= i < path@.len() ==> (#[trigger] path@[i]) < total,
            forall|c: int| 0 <= c < total ==> #[trigger] visited@[c] == path@.contains(c as usize),
            grown_walk(rows, cols, path@, rng@, target_len as int) == goal,
        ensures
            grown_walk(rows, cols, path@, rng@, target_len as int) == (path@, rng@),
        decreases target_len - path@.len(),
    {
        let current = path[path.len() - 1];
        proof {
            lemma_cell_neighbors_facts(rows, cols, current as int);
        }
        let list = grid.neighbors(current);
        let mut neighbors: Vec<usize> = Vec::new();
        let mut k: usize = 0;
        while k < list.len()
            invariant
                forall|j: int| 0 <= j < list@.len() ==> (#[trigger] list@[j]) < total,
                visited@.len() == total,
                forall|c: int| 0 <= c < total ==> #[trigger] visited@[c] == path@.contains(c as usize),
                k <= list@.len(),
                neighbors@ == unvisited_in(list@.take(k as int), path@),
                neighbors@.len() <= k,
                forall|j: int| 0 <= j < neighbors@.len() ==> (#[trigger] neighbors@[j]) < total,
            decreases list@.len() - k,
        {
            assert(list@.take(k + 1).drop_last() =~= list@.take(k as int));
            assert(visited@[list@[k as int] as int] == path@.contains(list@[k as int]));
            if !visited[list[k]] {
                neighbors.push(list[k]);
            }
            k = k + 1;
        }
        proof {
            assert(list@.take(list@.len() as int) =~= list@);
            assert(current == path@.last());
        }
        if neighbors.len() == 0 {
            break;
        }
        let ghost unshuffled = neighbors@;
        let ghost state_before = rng@;
        rng.shuffle(neighbors.as_mut_slice());
        proof {
            broadcast use vstd::seq_lib::to_multiset_contains;

            assert forall|j: int| 0 <= j < neighbors@.len() implies (#[trigger] neighbors@[j]) < total by {
                assert(neighbors@.to_multiset().count(neighbors@[j]) > 0);
                assert(unshuffled.to_multiset().count(neighbors@[j]) > 0);
                assert(unshuffled.contains(neighbors@[j]));
            }
            assert(visited@ =~= visited_by(total as nat, path@));
        }
        let ghost mixed = neighbors@;
        let ghost ks = onward_keys(rows, cols, path@, mixed);
        let mut keys: Vec<usize> = Vec::new();
        let mut m: usize = 0;
        while m < neighbors.len()
            invariant
                grid.wf(),
                rows == grid.rows(),
                cols == grid.cols(),
                total == grid.rows() * grid.cols(),
                visited@.len() == total,
                visited@ == visited_by(total as nat, path@),
                mixed == neighbors@,
                ks == onward_keys(rows, cols, path@, mixed),
                forall|j: int| 0 <= j < neighbors@.len() ==> (#[trigger] neighbors@[j]) < total,
                m <= neighbors@.len(),
                keys@.len() == m,
                forall|t: int| 0 <= t < m ==> #[trigger] ks[t] == keys@[t],
            decreases neighbors@.len() - m,
        {
            keys.push(onward_count(grid, visited.as_slice(), neighbors[m]));
            m = m + 1;
        }
        let order = stable_order_by_key(&keys);
        assert(order@.len() == neighbors@.len());
        proof {
            lemma_stable_order_starts_at_first_min(keys@, ks, order@);
        }
        let next = neighbors[order[0]];
        proof {
            assert(walk_step(rows, cols, path@, state_before) == (next, rng@));
        }
        let ghost old_path = path@;
        visited.set(next, true);
        path.push(next);
        proof {
            assert(!old_path.contains(next)) by {
                assert(unshuffled.to_multiset().count(next) > 0) by {
                    broadcast use vstd::seq_lib::to_multiset_contains;

                    assert(mixed.contains(next));
                }
                assert(unshuffled.contains(next)) by {
                    broadcast use vstd::seq_lib::to_multiset_contains;

                }
                let j = choose|j: int| 0 <= j < unshuffled.len() && unshuffled[j] == next;
                lemma_unvisited_in_excludes(list@, old_path, j);
            }
            assert forall|c: int| 0 <= c < total implies #[trigger] visited@[c] == path@.contains(c as usize) by {
                if c == next {
                    assert(path@[old_path.len() as int] == next);
                } else {
                    if path@.contains(c as usize) {
                        let j = choose|j: int| 0 <= j < path@.len() && path@[j] == c as usize;
                        assert(old_path[j] == c as usize);
                    }
                    if old_path.contains(c as usize) {
                        let j = choose|j: int| 0 <= j < old_path.len() && old_path[j] == c as usize;
                        assert(path@[j] == c as usize);
                    }
                }
            }
        }
    }
    proof {
        assert((path@, rng@) == goal);
    }
    if path.len() < min_len {
        return None;
    }
    let mut obstacles: Vec<u8> = vec![1; total];
    let mut i: usize = 0;
    while i < path.len()
        invariant
            obstacles@.len() == total,
            i <= path@.len(),
            forall|j: int| 0 <= j < path@.len() ==> (#[trigger] path@[j]) < total,
            forall|cell: int|
                0 <= cell < total ==> #[trigger] obstacles@[cell] == (if path@.take(i as int).contains(
                    cell as usize,
                ) {
                    0u8
                } else {
                    1u8
                }),
        decreases path@.len() - i,
    {
        let ghost before = obstacles@;
        obstacles.set(path[i], 0);
        proof {
            assert(path@.take(i + 1) =~= path@.take(i as int).push(path@[i as int]));
            assert forall|cell: int| 0 <= cell < total implies #[trigger] obstacles@[cell] == (
            if path@.take(i + 1).contains(cell as usize) {
                0u8
            } else {
                1u8
            }) by {
                if cell == path@[i as int] {
                    assert(path@.take(i + 1)[i as int] == cell);
                } else {
                    if path@.take(i + 1).contains(cell as usize) {
                        let j = choose|j: int| 0 <= j < i + 1 && #[trigger] path@.take(i + 1)[j] == cell as usize;
                        assert(path@.take(i as int)[j] == cell);
                    }
                    if path@.take(i as int).contains(cell as usize) {
                        let j = choose|j: int| 0 <= j < i && #[trigger] path@.take(i as int)[j] == cell as usize;
                        assert(path@.take(i + 1)[j] == cell);
                    }
                }
            }
        }
        i = i + 1;
    }
    assert(path@.take(path@.len() as int) =~= path@);
    assert(obstacles@ =~= walk_obstacles(total as int, path@));
    if is_valid_covering_path(grid, obstacles.as_slice(), path.as_slice()) {
        Some(Candidate { path, obstacles })
    } else {
        None
    }
}

/// A candidate with its hints and how many solutions the hints were shown to
/// leave (1 when proven unique), and the score it was given.
struct ScoredCandidate {
    path: Vec<usize>,
    obstacles: Vec<u8>,
    waypoints: Vec<Waypoint>,
    solutions: u32,
    score: i64,
}

impl ScoredCandidate {
    /// Fewer solutions win; among equally many, the higher score.
    fn outranks(&self, other: &Self) -> (better: bool)
        ensures
            better == (self.solutions < other.solutions || (self.solutions == other.solutions
                && self.score > other.score)),
    {
        self.solutions < other.solutions || (self.solutions == other.solutions && self.score
            > other.score)
    }
}

/// A candidate ready to be scored: its covering path, its obstacles, its hints,
/// and how many solutions the hints leave (1 when proven unique, 2 otherwise).
pub struct CheckedCandidate {
    pub path: Vec<usize>,
    pub obstacles: Vec<u8>,
    pub waypoints: Vec<Waypoint>,
    pub solutions: u32,
}

/// The puzzle a candidate makes is sound on a `size` × `size` board: the
/// obstacle map holds only 0 and 1; the path covers the open cells, at least
/// two thirds of the cells, leaving at least a fifth of them (at least 3) as
/// obstacles; the hints fit it, with steps increasing and no more than eight
/// beyond the hint target; and a count of one means the hints leave the path
/// as the only solution.
pub open spec fn sound_puzzle(
    size: int,
    path: Seq<usize>,
    obstacles: Seq<u8>,
    waypoints: Seq<Waypoint>,
    solutions: u32,
) -> bool {
    &&& obstacles.len() == size * size
    &&& forall|i: int| 0 <= i < obstacles.len() ==> #[trigger] obstacles[i] == 0u8 || obstacles[i] == 1u8
    &&& 1 <= path.len() <= target_walk_len(size * size)
    &&& min_walk_len(size * size) <= path.len()
    &&& valid_covering_path(size, size, obstacles, path)
    &&& waypoints_fit(waypoints, path, size)
    &&& steps_increasing(waypoints)
    &&& waypoints.len() <= hint_target(size) + 8
    &&& 1 <= solutions <= 2
    &&& solutions == 1 ==> unique_under_hints(size, size, obstacles, waypoints, path)
}

/// The largest number of search steps one candidate may spend.
pub open spec fn steps_per_candidate() -> int {
    121int * 30000int
}

/// How many obstacles the fallback layout aims for on a board of `n` cells: a
/// fifth of the cells, at least 3.
pub open spec fn fallback_obstacle_target(n: int) -> int {
    if n / 5 > 3 {
        n / 5
    } else {
        3
    }
}

/// The fallback walk before it is cut: the snake over the `size` × `size`
/// board, walked backwards when the coin the generator at `state` flips comes
/// up 1.
pub open spec fn fallback_full_walk(size: int, state: u64) -> Seq<usize> {
    if range_of(range_steps(state, 2), 2) == 1 {
        snake_seq(size, size).reverse()
    } else {
        snake_seq(size, size)
    }
}

/// The positions of the fallback walk that stay: cells come off its front or
/// its back, one coin flip each (see `place_tail_obstacles`), with the
/// generator as the first coin left it.
pub open spec fn fallback_cut(size: int, state: u64) -> (int, int) {
    let n = size * size;
    let removed = removal_count(fallback_obstacle_target(n), n);
    let front = front_removals(range_steps(state, 2), removed as nat).0 as int;
    (front, n - (removed - front))
}

/// Whether a waiting candidate with `pending` solutions and this score replaces
/// the best candidate so far: it does when there is none, or when it has fewer
/// solutions, or as many and a higher score.
pub open spec fn takes_over(pending: Option<u32>, score: i64, best: Option<(u32, i64)>) -> bool {
    match pending {
        None => false,
        Some(solutions) => match best {
            None => true,
            Some(b) => solutions < b.0 || (solutions == b.0 && score > b.1),
        },
    }
}

/// The generator's state between candidate attempts: the board, the random
/// generator, the budget, the counters, a candidate waiting for its score, and
/// the best candidate so far.
pub struct Generation {
    size: usize,
    grid: Grid,
    rng: Rng,
    budget: GenerationBudget,
    attempts_made: usize,
    candidate_attempts: u32,
    solver_calls: u32,
    unique_checks: u32,
    pending: Option<CheckedCandidate>,
    best: Option<ScoredCandidate>,
}

/// What generation produced: the board size, the solution path and its cells,
/// the obstacles, the hints, whether the fallback layout was used and whether
/// the result is degraded, and the work counters.
pub struct GeneratedPuzzle {
    pub size: usize,
    pub path: Vec<usize>,
    pub solution: Vec<[usize; 2]>,
    pub obstacles: Vec<u8>,
    pub waypoints: Vec<Waypoint>,
    pub fallback: bool,
    pub degraded: bool,
    pub degradation_level: u8,
    pub candidate_attempts: u32,
    pub solver_calls: u32,
    pub unique_checks: u32,
}

impl Generation {
    #[verifier::type_invariant]
    spec fn wf(self) -> bool {
        &&& supported_size(self.size)
        &&& self.grid.wf()
        &&& self.grid.rows() == self.size
        &&& self.grid.cols() == self.size
        &&& 1 <= self.budget.attempts <= 48
        &&& 1 <= self.budget.solver_call_cap <= 30000
        &&& self.attempts_made <= self.budget.attempts
        &&& self.candidate_attempts <= self.attempts_made
        &&& self.unique_checks <= self.attempts_made
        &&& self.unique_checks <= self.candidate_attempts
        &&& self.solver_calls <= self.attempts_made * steps_per_candidate()
        &&& self.budget.force_degraded ==> self.attempts_made == 0 && self.pending is None
            && self.best is None
        &&& self.pending matches Some(c) ==> {
            &&& sound_puzzle(self.size as int, c.path@, c.obstacles@, c.waypoints@, c.solutions)
            &&& self.solver_calls >= 1
            &&& self.unique_checks >= 1
            &&& self.candidate_attempts >= 1
        }
        &&& self.best matches Some(c) ==> {
            &&& sound_puzzle(self.size as int, c.path@, c.obstacles@, c.waypoints@, c.solutions)
            &&& self.solver_calls >= 1
            &&& self.unique_checks >= 1
            &&& self.candidate_attempts >= 1
        }
    }

    /// The board size this generation builds.
    pub closed spec fn spec_size(&self) -> usize {
        self.size
    }

    /// Whether the budget forces the degraded layout.
    pub closed spec fn forced_degraded(&self) -> bool {
        self.budget.force_degraded
    }

    /// How many candidate attempts the budget allows.
    pub closed spec fn attempt_budget(&self) -> usize {
        self.budget.attempts
    }

    /// How many candidate attempts were made.
    pub closed spec fn attempts_made_count(&self) -> usize {
        self.attempts_made
    }

    /// The solution count of the candidate waiting for its score, if any.
    pub closed spec fn pending_rank(&self) -> Option<u32> {
        match self.pending {
            Some(c) => Some(c.solutions),
            None => None,
        }
    }

    /// The solution count and the score of the best candidate so far, if any.
    pub closed spec fn best_rank(&self) -> Option<(u32, i64)> {
        match self.best {
            Some(c) => Some((c.solutions, c.score)),
            None => None,
        }
    }

    /// The state of the random generator.
    pub closed spec fn rng_state(&self) -> u64 {
        self.rng@
    }

    /// The search steps each search may spend.
    pub closed spec fn search_cap(&self) -> u32 {
        self.budget.solver_call_cap
    }

    /// The work counters: candidate attempts, search steps and uniqueness checks.
    pub closed spec fn counters(&self) -> (u32, u32, u32) {
        (self.candidate_attempts, self.solver_calls, self.unique_checks)
    }

    /// The hints and the solution count of the candidate waiting for its
    /// score, if any.
    pub closed spec fn pending_hints(&self) -> Option<(Seq<Waypoint>, u32)> {
        match self.pending {
            Some(c) => Some((c.waypoints@, c.solutions)),
            None => None,
        }
    }

    /// The hints of the best candidate so far, if any.
    pub closed spec fn best_hints(&self) -> Option<Seq<Waypoint>> {
        match self.best {
            Some(c) => Some(c.waypoints@),
            None => None,
        }
    }

    /// The path and the obstacle map of the candidate waiting for its score, if
    /// any.
    pub closed spec fn pending_layout(&self) -> Option<(Seq<usize>, Seq<u8>)> {
        match self.pending {
            Some(c) => Some((c.path@, c.obstacles@)),
            None => None,
        }
    }

    /// The path and the obstacle map of the best candidate so far, if any.
    pub closed spec fn best_layout(&self) -> Option<(Seq<usize>, Seq<u8>)> {
        match self.best {
            Some(c) => Some((c.path@, c.obstacles@)),
            None => None,
        }
    }

    /// Whether the best candidate so far is proven unique.
    pub open spec fn has_unique_best(&self) -> bool {
        self.best_rank() matches Some(rank) && rank.0 == 1
    }

    /// Whether another candidate attempt is allowed.
    pub open spec fn attempts_remain(&self) -> bool {
        !self.forced_degraded() && self.attempts_made_count() < self.attempt_budget()
    }

    /// Starts a generation for a request: the board size it asks for (see
    /// `requested_size`), the generator seeded with its seed, and the limits its
    /// budget sets.
    pub fn new(request: &GenerateRequest) -> (generation: Self)
        ensures
            generation.spec_size() == first_supported_size(request.sizes@),
            generation.forced_degraded() == budget_forces_degraded(*request),
            generation.attempt_budget() == (if budget_forces_degraded(*request) {
                1
            } else {
                clamp_spec((request.target_ms / 125) as int, 8, 48)
            }),
            generation.attempts_made_count() == 0,
            generation.pending_rank() is None,
            generation.best_rank() is None,
            generation.pending_layout() is None,
            generation.best_layout() is None,
            generation.rng_state() == (if request.seed == 0 {
                1
            } else {
                request.seed
            }),
            generation.search_cap() == search_cap_for(*request),
            generation.counters() == (0u32, 0u32, 0u32),
    {
        let size = requested_size(request);
        assert(size * size <= 121) by (nonlinear_arith)
            requires
                8 <= size <= 11,
        ;
        let grid = Grid::new(size, size);
        let rng = Rng::new(request.seed);
        let budget = GenerationBudget::new(request);
        Generation {
            size,
            grid,
            rng,
            budget,
            attempts_made: 0,
            candidate_attempts: 0,
            solver_calls: 0,
            unique_checks: 0,
            pending: None,
            best: None,
        }
    }

    /// The board.
    pub fn grid(&self) -> (grid: &Grid)
        ensures
            grid.wf(),
            grid.rows() == self.spec_size(),
            grid.cols() == self.spec_size(),
    {
        proof {
            use_type_invariant(self);
        }
        &self.grid
    }

    /// Whether the budget allows another candidate attempt: it does not force
    /// the degraded layout, and attempts remain.
    pub fn wants_attempt(&self) -> (wants: bool)
        ensures
            wants == self.attempts_remain(),
    {
        !self.budget.force_degraded && self.attempts_made < self.budget.attempts
    }

    /// One candidate attempt, when the budget allows one: a walk is grown and,
    /// when it is long enough, hints are added until the path is unique or the
    /// hint budget runs out. The checked candidate then waits for its score.
    /// Gives whether a candidate is waiting.
    #[verifier::spinoff_prover]
    pub fn attempt(&mut self) -> (checked: bool)
        ensures
            final(self).spec_size() == old(self).spec_size(),
            final(self).forced_degraded() == old(self).forced_degraded(),
            final(self).attempt_budget() == old(self).attempt_budget(),
            final(self).best_rank() == old(self).best_rank(),
            final(self).attempts_made_count() == old(self).attempts_made_count() + if old(
                self,
            ).attempts_remain() {
                1int
            } else {
                0int
            },
            checked == final(self).pending_rank() is Some,
            !old(self).attempts_remain() ==> !checked,
            final(self).best_layout() == old(self).best_layout(),
            final(self).pending_layout() is Some == checked,
            final(self).pending_hints() is Some == checked,
            !old(self).attempts_remain() ==> final(self).rng_state() == old(self).rng_state(),
            old(self).attempts_remain() ==> {
                let size = old(self).spec_size() as int;
                let total = size * size;
                let drawn = range_steps(old(self).rng_state(), total);
                let grown = grown_walk(
                    size,
                    size,
                    seq![range_of(drawn, total) as usize],
                    drawn,
                    target_walk_len(total),
                );
                &&& final(self).rng_state() == grown.1
                &&& checked == (grown.0.len() >= min_walk_len(total) && valid_covering_path(
                    size,
                    size,
                    walk_obstacles(total, grown.0),
                    grown.0,
                ))
                &&& checked ==> final(self).pending_layout() == Some(
                    (grown.0, walk_obstacles(total, grown.0)),
                )
                &&& final(self).counters().0 == old(self).counters().0 + 1
                &&& !checked ==> final(self).counters().1 == old(self).counters().1
                    && final(self).counters().2 == old(self).counters().2
                &&& checked ==> {
                    let walk = grown.0;
                    let count = spread_count(hint_target(size), walk.len() as int);
                    let budget = hint_budget(hint_target(size), walk.len() as int);
                    let outcome = hint_rounds(
                        size,
                        size,
                        walk_obstacles(total, walk),
                        walk,
                        spread_hints(walk, size, count, count - 1),
                        budget,
                        old(self).search_cap(),
                        budget as nat,
                    );
                    &&& final(self).pending_hints() == Some((outcome.0, outcome.1))
                    &&& final(self).pending_rank() == Some(outcome.1)
                    &&& final(self).counters().1 == old(self).counters().1 + outcome.2
                    &&& final(self).counters().2 == old(self).counters().2 + 1
                }
            },
            final(self).search_cap() == old(self).search_cap(),
            !old(self).attempts_remain() ==> final(self).counters() == old(self).counters(),
    {
        proof {
            use_type_invariant(&*self);
        }
        self.pending = None;
        if self.budget.force_degraded || self.attempts_made >= self.budget.attempts {
            return false;
        }
        proof {
            assert(self.attempts_made * steps_per_candidate() <= (self.attempts_made + 1)
                * steps_per_candidate()) by (nonlinear_arith);
            assert(64 <= self.size * self.size <= 121) by (nonlinear_arith)
                requires
                    8 <= self.size <= 11,
            ;
        }
        self.attempts_made = self.attempts_made + 1;
        self.candidate_attempts = self.candidate_attempts + 1;
        let mut rng = Rng::new(1);
        std::mem::swap(&mut rng, &mut self.rng);
        let candidate = build_candidate(&self.grid, &mut rng);
        self.rng = rng;
        match candidate {
            None => false,
            Some(candidate) => {
                proof {
                    let n = candidate.path@.len();
                    assert(n <= 121) by {
                        assert(self.size * self.size <= 121) by (nonlinear_arith)
                            requires
                                self.size <= 11,
                        ;
                    }
                    assert(n * n <= 121 * 121) by (nonlinear_arith)
                        requires
                            n <= 121,
                    ;
                    assert(n * at_least_one(self.budget.solver_call_cap) <= 121 * 30000) by (nonlinear_arith)
                        requires
                            n <= 121,
                            at_least_one(self.budget.solver_call_cap) <= 30000,
                    ;
                    assert(n >= 1) by {
                        assert(self.size * self.size >= 64) by (nonlinear_arith)
                            requires
                                self.size >= 8,
                        ;
                    }
                }
                let (waypoints, path_count) = make_unique_waypoints(
                    &self.grid,
                    candidate.obstacles.as_slice(),
                    candidate.path.as_slice(),
                    target_waypoint_count(self.size),
                    self.budget.solver_call_cap,
                );
                proof {
                    assert(self.solver_calls + path_count.solver_calls <= self.attempts_made
                        * steps_per_candidate()) by (nonlinear_arith)
                        requires
                            self.solver_calls <= (self.attempts_made - 1) * steps_per_candidate(),
                            path_count.solver_calls <= steps_per_candidate(),
                    ;
                    let rows = self.size as int;
                    let walk = candidate.path@;
                    let count = spread_count(hint_target(rows), walk.len() as int);
                    let budget = hint_budget(hint_target(rows), walk.len() as int);
                    let start = spread_hints(walk, rows, count, count - 1);
                    lemma_spread_hints_increasing(walk, rows, count, count - 1);
                    lemma_hint_rounds_increasing(
                        rows,
                        rows,
                        candidate.obstacles@,
                        walk,
                        start,
                        budget,
                        self.budget.solver_call_cap,
                        budget as nat,
                    );
                    assert(steps_increasing(waypoints@));
                    assert forall|i: int| 0 <= i < candidate.obstacles@.len() implies #[trigger] candidate.obstacles@[i]
                        == 0u8 || candidate.obstacles@[i] == 1u8 by {}
                }
                self.solver_calls = self.solver_calls + path_count.solver_calls;
                self.unique_checks = self.unique_checks + 1;
                self.pending = Some(
                    CheckedCandidate {
                        path: candidate.path,
                        obstacles: candidate.obstacles,
                        waypoints,
                        solutions: path_count.solutions,
                    },
                );
                true
            },
        }
    }

    /// The candidate waiting for its score, if any.
    pub fn pending_candidate(&self) -> (pending: Option<&CheckedCandidate>)
        ensures
            pending is Some == self.pending_rank() is Some,
            pending matches Some(c) ==> {
                &&& sound_puzzle(
                    self.spec_size() as int,
                    c.path@,
                    c.obstacles@,
                    c.waypoints@,
                    c.solutions,
                )
                &&& self.pending_rank() == Some(c.solutions)
                &&& self.pending_layout() == Some((c.path@, c.obstacles@))
                &&& self.pending_hints() == Some((c.waypoints@, c.solutions))
            },
    {
        proof {
            use_type_invariant(self);
        }
        match &self.pending {
            Some(c) => Some(c),
            None => None,
        }
    }

    /// Gives the waiting candidate its score and keeps it when it outranks the
    /// best so far (or is the first): fewer solutions win, and among equally
    /// many the higher score.
    pub fn offer_pending(&mut self, score: i64)
        ensures
            final(self).spec_size() == old(self).spec_size(),
            final(self).forced_degraded() == old(self).forced_degraded(),
            final(self).attempt_budget() == old(self).attempt_budget(),
            final(self).attempts_made_count() == old(self).attempts_made_count(),
            final(self).pending_rank() is None,
            final(self).best_rank() == match old(self).pending_rank() {
                None => old(self).best_rank(),
                Some(solutions) => match old(self).best_rank() {
                    None => Some((solutions, score)),
                    Some(best) => if solutions < best.0 || (solutions == best.0 && score
                        > best.1) {
                        Some((solutions, score))
                    } else {
                        old(self).best_rank()
                    },
                },
            },
            final(self).rng_state() == old(self).rng_state(),
            final(self).search_cap() == old(self).search_cap(),
            final(self).counters() == old(self).counters(),
            final(self).pending_layout() is None,
            final(self).best_hints() == (if takes_over(
                old(self).pending_rank(),
                score,
                old(self).best_rank(),
            ) {
                match old(self).pending_hints() {
                    Some(h) => Some(h.0),
                    None => None,
                }
            } else {
                old(self).best_hints()
            }),
            final(self).best_layout() == (if takes_over(
                old(self).pending_rank(),
                score,
                old(self).best_rank(),
            ) {
                old(self).pending_layout()
            } else {
                old(self).best_layout()
            }),
    {
        proof {
            use_type_invariant(&*self);
        }
        let mut pending: Option<CheckedCandidate> = None;
        std::mem::swap(&mut pending, &mut self.pending);
        match pending {
            None => {},
            Some(c) => {
                let scored = ScoredCandidate {
                    path: c.path,
                    obstacles: c.obstacles,
                    waypoints: c.waypoints,
                    solutions: c.solutions,
                    score,
                };
                let replace = match &self.best {
                    None => true,
                    Some(best) => scored.outranks(best),
                };
                if replace {
                    self.best = Some(scored);
                }
            },
        }
    }

    /// Ends the generation. The best candidate makes the puzzle; without one,
    /// the fallback layout does: the snake walk over the board (walked
    /// backwards on a coin flip), with a fifth of the cells (at least 3) turned
    /// into obstacles from its ends, its start-to-end paths counted, and four
    /// hints spread along it. The fallback is also reported when the best
    /// candidate is not proven unique.
    #[verifier::spinoff_prover]
    pub fn finish(self) -> (puzzle: GeneratedPuzzle)
        ensures
            ({
                let size = puzzle.size as int;
                &&& puzzle.size == self.spec_size()
                &&& supported_size(puzzle.size)
                &&& puzzle.obstacles@.len() == size * size
                &&& valid_covering_path(size, size, puzzle.obstacles@, puzzle.path@)
                &&& waypoints_fit(puzzle.waypoints@, puzzle.path@, size)
                &&& !puzzle.fallback ==> unique_under_hints(
                    size,
                    size,
                    puzzle.obstacles@,
                    puzzle.waypoints@,
                    puzzle.path@,
                )
                &&& puzzle.fallback == !self.has_unique_best()
                &&& self.forced_degraded() ==> puzzle.fallback
                &&& puzzle.path@.len() <= target_walk_len(size * size)
                &&& puzzle.degraded == (self.forced_degraded() || puzzle.fallback)
                &&& puzzle.degradation_level == (if puzzle.degraded {
                    1u8
                } else {
                    0u8
                })
                &&& puzzle.solution@.len() == puzzle.path@.len()
                &&& forall|i: int|
                    0 <= i < puzzle.solution@.len() ==> (#[trigger] puzzle.solution@[i])@ == seq![
                        cell_row(size, puzzle.path@[i] as int) as usize,
                        cell_col(size, puzzle.path@[i] as int) as usize,
                    ]
                &&& puzzle.candidate_attempts >= 1
                &&& puzzle.solver_calls >= 1
                &&& puzzle.unique_checks >= 1
                &&& puzzle.unique_checks <= puzzle.candidate_attempts
                &&& puzzle.candidate_attempts <= self.attempt_budget() + 1
                &&& forall|i: int|
                    0 <= i < puzzle.obstacles@.len() ==> #[trigger] puzzle.obstacles@[i] == 0u8
                        || puzzle.obstacles@[i] == 1u8
                &&& min_walk_len(size * size) <= puzzle.path@.len()
                &&& steps_increasing(puzzle.waypoints@)
                &&& forall|k: int|
                    0 <= k < puzzle.waypoints@.len() - 1 ==> (#[trigger] puzzle.waypoints@[k]).step + 2
                        <= puzzle.waypoints@[k + 1].step
                &&& puzzle.waypoints@.len() <= hint_target(size) + 8
            }),
            self.best_layout() matches Some(layout) ==> puzzle.path@ == layout.0 && puzzle.obstacles@
                == layout.1,
            self.best_hints() matches Some(hints) ==> puzzle.waypoints@ == hints,
            self.best_layout() is Some ==> (puzzle.candidate_attempts, puzzle.solver_calls, puzzle.unique_checks)
                == self.counters(),
            self.best_layout() is None ==> {
                let size = self.spec_size() as int;
                let full = fallback_full_walk(size, self.rng_state());
                let cut = fallback_cut(size, self.rng_state());
                &&& puzzle.path@ == full.subrange(cut.0, cut.1)
                &&& puzzle.waypoints@.len() <= 4
                &&& obstacle_cells(puzzle.obstacles@).len() == fallback_obstacle_target(size * size)
                &&& puzzle.candidate_attempts == self.counters().0 + 1
                &&& puzzle.unique_checks == self.counters().2 + 1
                &&& puzzle.solver_calls == self.counters().1 + count_of_report(
                    2,
                    search_report(
                        size,
                        size,
                        puzzle.obstacles@,
                        seq![
                            (1usize, puzzle.path@[0]),
                            (open_cell_count(puzzle.obstacles@) as usize, puzzle.path@.last()),
                        ],
                        2,
                        12000,
                    ),
                ).solver_calls
                &&& puzzle.waypoints@ == spread_hints(
                    puzzle.path@,
                    size,
                    spread_count(4, puzzle.path@.len() as int),
                    spread_count(4, puzzle.path@.len() as int) - 1,
                )
                &&& forall|c: int|
                    0 <= c < size * size ==> #[trigger] puzzle.obstacles@[c] == (if trimmed_off(
                        full,
                        cut.0,
                        cut.1,
                        c,
                    ) {
                        1u8
                    } else {
                        0u8
                    })
            },
    {
        proof {
            use_type_invariant(&self);
        }
        let ghost unique_best = self.has_unique_best();
        let ghost forced = self.forced_degraded();
        let ghost best_layout = self.best_layout();
        let ghost rng0 = self.rng_state();
        let Generation {
            size,
            grid,
            mut rng,
            budget,
            attempts_made,
            mut candidate_attempts,
            mut solver_calls,
            mut unique_checks,
            pending,
            best,
        } = self;
        let ghost n = (size * size) as int;
        proof {
            assert(64 <= size * size <= 121) by (nonlinear_arith)
                requires
                    8 <= size <= 11,
            ;
            assert(attempts_made * steps_per_candidate() <= 48 * steps_per_candidate()) by (nonlinear_arith)
                requires
                    attempts_made <= 48,
            ;
        }
        let (path, obstacles, waypoints, fallback) = match best {
            Some(candidate) => {
                let fallback = candidate.solutions != 1;
                (candidate.path, candidate.obstacles, candidate.waypoints, fallback)
            },
            None => {
                candidate_attempts = candidate_attempts + 1;
                let mut path = snake_path(&grid);
                proof {
                    lemma_snake_path_covers(size as int, size as int);
                }
                if rng.range(2) == 1 {
                    let ghost forward = path@;
                    reverse_path(&mut path);
                    proof {
                        lemma_reversed_path_covers(size as int, size as int, all_open(n), forward);
                    }
                }
                let ghost full = path@;
                let ghost start_state = rng@;
                proof {
                    lemma_all_open_count(n as nat);
                    assert forall|i: int| 0 <= i < full.len() implies (#[trigger] full[i]) < grid.rows()
                        * grid.cols() by {
                        assert(full[i] < all_open(n).len());
                    }
                }
                let fifth = size * size / 5;
                let obstacle_target: usize = if fifth > 3 {
                    fifth
                } else {
                    3
                };
                let obstacles = place_tail_obstacles(&grid, &mut path, &mut rng, obstacle_target);
                proof {
                    let removed = removal_count(obstacle_target as int, n);
                    let (front, st) = front_removals(start_state, removed as nat);
                    let back = removed - front;
                    lemma_trimmed_path_covers(
                        size as int,
                        size as int,
                        full,
                        front as int,
                        n - back,
                        obstacles@,
                    );
                    assert(path@.len() >= 8);
                    lemma_endpoints_usable(size as int, size as int, obstacles@, path@);
                    assert(n <= isize::MAX);
                }
                let last = path.len() - 1;
                let path_count = count_covering_paths(
                    &grid,
                    obstacles.as_slice(),
                    path[0],
                    path[last],
                    2,
                    12_000,
                );
                solver_calls = solver_calls + path_count.solver_calls;
                unique_checks = unique_checks + 1;
                proof {
                    assert(path@.len() * path@.len() <= 121 * 121) by (nonlinear_arith)
                        requires
                            path@.len() <= 121,
                    ;
                }
                let waypoints = build_waypoints(&grid, path.as_slice(), 4);
                proof {
                    let removed = removal_count(fallback_obstacle_target(n), n);
                    assert(removed == n / 5);
                    assert(n - n / 5 >= n * 2 / 3) by (nonlinear_arith)
                        requires
                            64 <= n <= 121,
                    ;
                    lemma_spread_hints_increasing(
                        path@,
                        size as int,
                        spread_count(4, path@.len() as int),
                        spread_count(4, path@.len() as int) - 1,
                    );
                    assert forall|i: int| 0 <= i < obstacles@.len() implies #[trigger] obstacles@[i] == 0u8
                        || obstacles@[i] == 1u8 by {}
                    lemma_zero_one_counts(obstacles@);
                    assert(obstacle_cells(obstacles@).len() == fallback_obstacle_target(n));
                }
                (path, obstacles, waypoints, true)
            },
        };
        proof {
            assert(path@.len() >= 3);
            lemma_fit_gaps(waypoints@, path@, size as int);
        }
        let degraded = budget.force_degraded || fallback;
        let degradation_level: u8 = if degraded {
            1
        } else {
            0
        };
        let mut solution: Vec<[usize; 2]> = Vec::new();
        let mut i: usize = 0;
        while i < path.len()
            invariant
                grid.cols() == size,
                size >= 8,
                i <= path@.len(),
                solution@.len() == i,
                forall|j: int|
                    0 <= j < i ==> (#[trigger] solution@[j])@ == seq![
                        cell_row(size as int, path@[j] as int) as usize,
                        cell_col(size as int, path@[j] as int) as usize,
                    ],
            decreases path@.len() - i,
        {
            solution.push(grid.row_col(path[i]));
            i = i + 1;
        }
        GeneratedPuzzle {
            size,
            path,
            solution,
            obstacles,
            waypoints,
            fallback,
            degraded,
            degradation_level,
            candidate_attempts,
            solver_calls,
            unique_checks,
        }
    }
}

/// The two ends of a covering path of at least two cells are usable waypoints.
proof fn lemma_endpoints_usable(rows: int, cols: int, obstacles: Seq<u8>, path: Seq<usize>)
    requires
        valid_covering_path(rows, cols, obstacles, path),
        path.len() >= 2,
        obstacles.len() <= usize::MAX,
    ensures
        waypoints_usable(
            obstacles,
            seq![(1usize, path[0]), (open_cell_count(obstacles) as usize, path[path.len() - 1])],
        ),
{
    let n = path.len() as int;
    crate::solver::lemma_open_count_bound(obstacles);
    let wps = seq![(1usize, path[0]), (open_cell_count(obstacles) as usize, path[n - 1])];
    assert(exists|k: int| 0 <= k < wps.len() && (#[trigger] wps[k]).0 == 1) by {
        assert(wps[0].0 == 1);
    }
    assert(wps[0] == (1usize, path[0]));
    assert(wps[1] == (n as usize, path[n - 1]));
    assert(path[0] != path[n - 1]);
    assert forall|k: int, l: int|
        0 <= k < wps.len() && 0 <= l < wps.len() && (#[trigger] wps[k]).1 == (#[trigger] wps[l]).1 implies wps[k].0
        == wps[l].0 by {
        if k != l {
            assert(wps[0].1 != wps[1].1);
        }
    }
    assert forall|k: int, l: int|
        0 <= k < wps.len() && 0 <= l < wps.len() && (#[trigger] wps[k]).0 == (#[trigger] wps[l]).0 implies wps[k].1
        == wps[l].1 by {
        if k != l {
            assert(wps[0].0 != wps[1].0);
        }
    }
}

/// The taxicab distance between the positions of two cells.
pub open spec fn cell_distance(cols: int, a: int, b: int) -> int {
    abs_diff(cell_row(cols, a), cell_row(cols, b)) + abs_diff(cell_col(cols, a), cell_col(cols, b))
}

/// Neighbouring cells are one taxicab step apart.
proof fn lemma_adjacent_distance(rows: int, cols: int, a: int, b: int)
    requires
        0 <= rows,
        0 <= cols,
        0 <= a < rows * cols,
        rows * cols <= usize::MAX,
        adjacent(rows, cols, a, b),
    ensures
        cell_distance(cols, a, b) == 1,
{
    lemma_cell_neighbors_facts(rows, cols, a);
    assert(0 < cols) by (nonlinear_arith)
        requires
            0 <= a < rows * cols,
            0 <= rows,
            0 <= cols,
    ;
    lemma_cell_position(rows, cols, a);
    let r = cell_row(cols, a);
    let c = cell_col(cols, a);
    let s = cell_neighbors(rows, cols, a);
    if r + 1 < rows {
        assert(a + cols < rows * cols) by (nonlinear_arith)
            requires
                a == r * cols + c,
                0 <= c < cols,
                r + 1 < rows,
        ;
    }
    if r > 0 {
        assert(a - cols >= 0) by (nonlinear_arith)
            requires
                a == r * cols + c,
                0 <= c,
                0 <= cols,
                r > 0,
        ;
    }
    let down: Seq<usize> = if r + 1 < rows { seq![(a + cols) as usize] } else { seq![] };
    let up: Seq<usize> = if r > 0 { seq![(a - cols) as usize] } else { seq![] };
    let right: Seq<usize> = if c + 1 < cols { seq![(a + 1) as usize] } else { seq![] };
    let left: Seq<usize> = if c > 0 { seq![(a - 1) as usize] } else { seq![] };
    assert(s == down + up + right + left);
    let j = choose|j: int| 0 <= j < s.len() && s[j] == b as usize;
    assert(s[j] == b);
    if j < down.len() {
        assert((r + 1) * cols + c == a + cols) by (nonlinear_arith)
            requires
                a == r * cols + c,
        ;
        lemma_position_cell(rows, cols, r + 1, c);
    } else if j < down.len() + up.len() {
        assert((r - 1) * cols + c == a - cols) by (nonlinear_arith)
            requires
                a == r * cols + c,
        ;
        lemma_position_cell(rows, cols, r - 1, c);
    } else if j < down.len() + up.len() + right.len() {
        lemma_position_cell(rows, cols, r, c + 1);
    } else {
        lemma_position_cell(rows, cols, r, c - 1);
    }
}

/// Along a covering path, cells `i` and `j` are at most `j - i` taxicab steps
/// apart.
proof fn lemma_path_distance(rows: int, cols: int, obstacles: Seq<u8>, path: Seq<usize>, i: int, j: int)
    requires
        0 <= rows,
        0 <= cols,
        rows * cols <= usize::MAX,
        valid_covering_path(rows, cols, obstacles, path),
        0 <= i <= j < path.len(),
    ensures
        cell_distance(cols, path[i] as int, path[j] as int) <= j - i,
    decreases j - i,
{
    if i < j {
        lemma_path_distance(rows, cols, obstacles, path, i, j - 1);
        assert(linked(rows, cols, path, j - 1));
        lemma_adjacent_distance(rows, cols, path[j - 1] as int, path[j] as int);
    }
}

/// No hint leg is shorter than the taxicab distance it spans: between two
/// hints that fit a covering path, the number of steps is at least the taxicab
/// distance between their positions.
pub proof fn lemma_hint_legs_not_shorter_than_distance(
    rows: int,
    cols: int,
    obstacles: Seq<u8>,
    path: Seq<usize>,
    waypoints: Seq<Waypoint>,
)
    requires
        0 <= rows,
        1 <= cols,
        rows * cols <= usize::MAX,
        valid_covering_path(rows, cols, obstacles, path),
        waypoints_fit(waypoints, path, cols),
    ensures
        forall|a: int, b: int|
            0 <= a < waypoints.len() && 0 <= b < waypoints.len() && (#[trigger] waypoints[a]).step
                <= (#[trigger] waypoints[b]).step ==> manhattan_spec(waypoints[a].pos, waypoints[b].pos)
                <= waypoints[b].step - waypoints[a].step,
{
    assert forall|a: int, b: int|
        0 <= a < waypoints.len() && 0 <= b < waypoints.len() && (#[trigger] waypoints[a]).step <= (
        #[trigger] waypoints[b]).step implies manhattan_spec(waypoints[a].pos, waypoints[b].pos)
        <= waypoints[b].step - waypoints[a].step by {
        assert(on_path(waypoints[a], path, cols));
        assert(on_path(waypoints[b], path, cols));
        let i = waypoints[a].step - 1;
        let j = waypoints[b].step - 1;
        assert(path[i] < rows * cols);
        assert(path[j] < rows * cols);
        lemma_cell_position(rows, cols, path[i] as int);
        lemma_cell_position(rows, cols, path[j] as int);
        lemma_path_distance(rows, cols, obstacles, path, i, j);
    }
}

} // verus!
