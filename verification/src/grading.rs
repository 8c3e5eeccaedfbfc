//! Laws of the measures that grade a puzzle: turns along the path, the legs
//! between hints, and the spread of the obstacles.
use vstd::prelude::*;

use crate::generator::{
    abs_diff, cell_king_distance, hint_legs_upto, obstacle_cells, spread_from, spread_upto, lemma_hint_legs_not_shorter_than_distance, turn_at, turn_count,
    turns_upto, waypoints_fit,
};
use crate::solver::valid_covering_path;
use crate::types::Waypoint;
use crate::grid::{cell_col, cell_row, lemma_cell_position, lemma_position_cell};

verus! {

/// Cell `c` of a board with `cols` columns, moved to the board with rows and
/// columns swapped (`rows` columns): row and column trade places.
pub open spec fn transpose_cell(rows: int, cols: int, c: int) -> usize {
    ((c % cols) * rows + c / cols) as usize
}

/// A path of a board with `cols` columns, drawn on the transposed board.
pub open spec fn transposed_path(rows: int, cols: int, path: Seq<usize>) -> Seq<usize> {
    Seq::new(path.len(), |i: int| transpose_cell(rows, cols, path[i] as int))
}

/// Transposing a cell swaps its row and column.
proof fn lemma_transpose_cell(rows: int, cols: int, c: int)
    requires
        0 < rows,
        0 < cols,
        rows * cols <= usize::MAX,
        0 <= c < rows * cols,
    ensures
        cell_row(rows, transpose_cell(rows, cols, c) as int) == cell_col(cols, c),
        cell_col(rows, transpose_cell(rows, cols, c) as int) == cell_row(cols, c),
{
    lemma_cell_position(rows, cols, c);
    let r = cell_row(cols, c);
    let k = cell_col(cols, c);
    lemma_position_cell(cols, rows, k, r);
    assert(cols * rows == rows * cols) by (nonlinear_arith);
    assert(transpose_cell(rows, cols, c) as int == k * rows + r);
}

proof fn lemma_straight_turns_upto(path: Seq<usize>, cols: int, n: int)
    requires
        0 < cols,
        n <= path.len() - 2,
        (forall|i: int, j: int|
            0 <= i < path.len() && 0 <= j < path.len() ==> (#[trigger] path[i]) as int % cols
                == (#[trigger] path[j]) as int % cols) || (forall|i: int, j: int|
            0 <= i < path.len() && 0 <= j < path.len() ==> (#[trigger] path[i]) as int / cols
                == (#[trigger] path[j]) as int / cols),
    ensures
        turns_upto(path, cols, n) == 0,
    decreases n,
{
    if n > 0 {
        lemma_straight_turns_upto(path, cols, n - 1);
        assert(!turn_at(path, cols, n - 1));
    }
}

/// A path that runs straight along one column, or along one row, never turns.
pub proof fn lemma_straight_path_has_no_turns(path: Seq<usize>, cols: int)
    requires
        0 < cols,
        (forall|i: int, j: int|
            0 <= i < path.len() && 0 <= j < path.len() ==> (#[trigger] path[i]) as int % cols
                == (#[trigger] path[j]) as int % cols) || (forall|i: int, j: int|
            0 <= i < path.len() && 0 <= j < path.len() ==> (#[trigger] path[i]) as int / cols
                == (#[trigger] path[j]) as int / cols),
    ensures
        turn_count(path, cols) == 0,
{
    if path.len() >= 2 {
        lemma_straight_turns_upto(path, cols, path.len() - 2);
    }
}

/// Three cells that go along a row and then along a column, or along a column
/// and then along a row, make exactly one turn.
pub proof fn lemma_corner_is_one_turn(a: usize, b: usize, c: usize, cols: int)
    requires
        0 < cols,
        (a as int / cols == b as int / cols && a as int % cols != b as int % cols && b as int % cols
            == c as int % cols && b as int / cols != c as int / cols) || (a as int % cols == b as int
            % cols && a as int / cols != b as int / cols && b as int / cols == c as int / cols
            && b as int % cols != c as int % cols),
    ensures
        turn_count(seq![a, b, c], cols) == 1,
{
    let path = seq![a, b, c];
    assert(turn_at(path, cols, 0));
    assert(turns_upto(path, cols, 0) == 0);
    assert(turns_upto(path, cols, 1) == 1);
}

proof fn lemma_transposed_turns_upto(rows: int, cols: int, path: Seq<usize>, n: int)
    requires
        0 < rows,
        0 < cols,
        rows * cols <= usize::MAX,
        forall|i: int| 0 <= i < path.len() ==> (#[trigger] path[i]) < rows * cols,
        n <= path.len() - 2,
    ensures
        turns_upto(transposed_path(rows, cols, path), rows, n) == turns_upto(path, cols, n),
    decreases n,
{
    if n > 0 {
        lemma_transposed_turns_upto(rows, cols, path, n - 1);
        let t = transposed_path(rows, cols, path);
        lemma_transpose_cell(rows, cols, path[n - 1] as int);
        lemma_transpose_cell(rows, cols, path[n] as int);
        lemma_transpose_cell(rows, cols, path[n + 1] as int);
        assert(t[n - 1] == transpose_cell(rows, cols, path[n - 1] as int));
        assert(t[n] == transpose_cell(rows, cols, path[n] as int));
        assert(t[n + 1] == transpose_cell(rows, cols, path[n + 1] as int));
        assert(turn_at(t, rows, n - 1) == turn_at(path, cols, n - 1));
    }
}

/// Turning the board on its diagonal, so that rows become columns, leaves the
/// number of turns along a path unchanged.
pub proof fn lemma_turns_transpose(rows: int, cols: int, path: Seq<usize>)
    requires
        0 < rows,
        0 < cols,
        rows * cols <= usize::MAX,
        forall|i: int| 0 <= i < path.len() ==> (#[trigger] path[i]) < rows * cols,
    ensures
        turn_count(transposed_path(rows, cols, path), rows) == turn_count(path, cols),
{
    if path.len() >= 2 {
        lemma_transposed_turns_upto(rows, cols, path, path.len() - 2);
    }
}

/// The taxicab distance between the positions of two hints, written out.
pub open spec fn hint_gap(a: Waypoint, b: Waypoint) -> int {
    abs_diff(a.pos[0] as int, b.pos[0] as int) + abs_diff(a.pos[1] as int, b.pos[1] as int)
}

/// Two hints sit on one cell.
pub open spec fn same_cell(a: Waypoint, b: Waypoint) -> bool {
    a.pos[0] == b.pos[0] && a.pos[1] == b.pos[1]
}

/// Among the first `n` hints, every leg joins two neighbouring hints on
/// different cells, and is the number of steps between them together with the
/// row distance plus the column distance between their cells.
pub proof fn lemma_hint_legs_are_taxicab(waypoints: Seq<Waypoint>, n: int)
    requires
        0 <= n <= waypoints.len(),
        forall|j: int| 1 <= j < waypoints.len() ==> hint_gap(#[trigger] waypoints[j - 1], waypoints[j]) <= usize::MAX,
    ensures
        forall|k: int|
            0 <= k < hint_legs_upto(waypoints, n).len() ==> exists|j: int|
                #![trigger waypoints[j]]
                1 <= j < n && !same_cell(waypoints[j - 1], waypoints[j])
                    && (#[trigger] hint_legs_upto(waypoints, n)[k]) == (
                    (waypoints[j].step - waypoints[j - 1].step) as usize,
                    hint_gap(waypoints[j - 1], waypoints[j]) as usize,
                ),
    decreases n,
{
    if n > 1 {
        lemma_hint_legs_are_taxicab(waypoints, n - 1);
        let rest = hint_legs_upto(waypoints, n - 1);
        let legs = hint_legs_upto(waypoints, n);
        let a = waypoints[n - 2];
        let b = waypoints[n - 1];
        assert(hint_gap(waypoints[n - 1 - 1], waypoints[n - 1]) <= usize::MAX);
        assert forall|k: int| 0 <= k < legs.len() implies exists|j: int|
            #![trigger waypoints[j]]
            1 <= j < n && !same_cell(waypoints[j - 1], waypoints[j]) && (#[trigger] legs[k]) == (
                (waypoints[j].step - waypoints[j - 1].step) as usize,
                hint_gap(waypoints[j - 1], waypoints[j]) as usize,
            ) by {
            if k < rest.len() {
                assert(legs[k] == rest[k]);
                let j = choose|j: int|
                    #![trigger waypoints[j]]
                    1 <= j < n - 1 && !same_cell(waypoints[j - 1], waypoints[j]) && rest[k] == (
                        (waypoints[j].step - waypoints[j - 1].step) as usize,
                        hint_gap(waypoints[j - 1], waypoints[j]) as usize,
                    );
                assert(1 <= j < n);
            } else {
                assert(!same_cell(a, b));
                assert(legs[k] == ((b.step - a.step) as usize, hint_gap(a, b) as usize));
                assert(waypoints[(n - 1) - 1] == a);
            }
        }
    }
}

/// Where every pair of neighbouring hints is at least as many steps apart as
/// its taxicab distance, every leg spans at least one cell and takes at least
/// as many steps as it spans.
proof fn lemma_legs_within_steps(waypoints: Seq<Waypoint>)
    requires
        forall|j: int|
            1 <= j < waypoints.len() ==> (#[trigger] waypoints[j - 1]).step <= waypoints[j].step
                && hint_gap(waypoints[j - 1], waypoints[j]) <= waypoints[j].step - waypoints[j - 1].step,
    ensures
        forall|k: int|
            0 <= k < hint_legs_upto(waypoints, waypoints.len() as int).len() ==> 1
                <= (#[trigger] hint_legs_upto(waypoints, waypoints.len() as int)[k]).1
                <= hint_legs_upto(waypoints, waypoints.len() as int)[k].0,
{
    let legs = hint_legs_upto(waypoints, waypoints.len() as int);
    assert forall|j: int| 1 <= j < waypoints.len() implies hint_gap(
        #[trigger] waypoints[j - 1],
        waypoints[j],
    ) <= usize::MAX by {
        assert(waypoints[j - 1].step <= waypoints[j].step);
    }
    lemma_hint_legs_are_taxicab(waypoints, waypoints.len() as int);
    assert forall|k: int| 0 <= k < legs.len() implies 1 <= (#[trigger] legs[k]).1 <= legs[k].0 by {
        let j = choose|j: int|
            #![trigger waypoints[j]]
            1 <= j < waypoints.len() && !same_cell(waypoints[j - 1], waypoints[j]) && legs[k] == (
                (waypoints[j].step - waypoints[j - 1].step) as usize,
                hint_gap(waypoints[j - 1], waypoints[j]) as usize,
            );
        assert(waypoints[j - 1].step <= waypoints[j].step);
        assert(hint_gap(waypoints[j - 1], waypoints[j]) <= waypoints[j].step - waypoints[j - 1].step);
    }
}

proof fn lemma_hint_legs_exact_upto(waypoints: Seq<Waypoint>, n: int)
    requires
        1 <= n <= waypoints.len(),
        forall|j: int|
            1 <= j < waypoints.len() ==> !same_cell(#[trigger] waypoints[j - 1], waypoints[j]),
        forall|j: int| 1 <= j < waypoints.len() ==> hint_gap(#[trigger] waypoints[j - 1], waypoints[j]) <= usize::MAX,
    ensures
        hint_legs_upto(waypoints, n).len() == n - 1,
        forall|k: int|
            0 <= k < n - 1 ==> (#[trigger] hint_legs_upto(waypoints, n)[k]) == (
                (waypoints[k + 1].step - waypoints[k].step) as usize,
                hint_gap(waypoints[k], waypoints[k + 1]) as usize,
            ),
    decreases n,
{
    if n > 1 {
        lemma_hint_legs_exact_upto(waypoints, n - 1);
        let a = waypoints[n - 2];
        let b = waypoints[n - 1];
        assert(!same_cell(waypoints[(n - 1) - 1], waypoints[n - 1]));
        assert(hint_gap(waypoints[(n - 1) - 1], waypoints[n - 1]) <= usize::MAX);
        assert(hint_gap(a, b) > 0);
        let legs = hint_legs_upto(waypoints, n);
        let rest = hint_legs_upto(waypoints, n - 1);
        assert(legs == rest.push(((b.step - a.step) as usize, hint_gap(a, b) as usize)));
        assert forall|k: int| 0 <= k < n - 1 implies (#[trigger] legs[k]) == (
            (waypoints[k + 1].step - waypoints[k].step) as usize,
            hint_gap(waypoints[k], waypoints[k + 1]) as usize,
        ) by {
            if k < n - 2 {
                assert(legs[k] == rest[k]);
            }
        }
    }
}

/// When no two neighbouring hints sit on one cell, there is a leg for each pair
/// of neighbouring hints, in order, and leg `k` is the steps from hint `k` to
/// hint `k + 1` together with the row distance plus the column distance
/// between their cells.
pub proof fn lemma_hint_legs_exact(waypoints: Seq<Waypoint>)
    requires
        1 <= waypoints.len(),
        forall|j: int|
            1 <= j < waypoints.len() ==> !same_cell(#[trigger] waypoints[j - 1], waypoints[j]),
        forall|j: int| 1 <= j < waypoints.len() ==> hint_gap(#[trigger] waypoints[j - 1], waypoints[j]) <= usize::MAX,
    ensures
        hint_legs_upto(waypoints, waypoints.len() as int).len() == waypoints.len() - 1,
        forall|k: int|
            0 <= k < waypoints.len() - 1 ==> (#[trigger] hint_legs_upto(
                waypoints,
                waypoints.len() as int,
            )[k]) == (
                (waypoints[k + 1].step - waypoints[k].step) as usize,
                hint_gap(waypoints[k], waypoints[k + 1]) as usize,
            ),
{
    lemma_hint_legs_exact_upto(waypoints, waypoints.len() as int);
}

/// For hints that fit a covering path, no leg takes fewer steps than the
/// taxicab distance it spans, and every leg spans at least one cell.
pub proof fn lemma_hint_legs_on_path(
    rows: int,
    cols: int,
    obstacles: Seq<u8>,
    path: Seq<usize>,
    waypoints: Seq<Waypoint>,
)
    requires
        0 <= rows,
        1 <= cols,
        rows * cols <= usize::MAX,
        valid_covering_path(rows, cols, obstacles, path),
        waypoints_fit(waypoints, path, cols),
    ensures
        forall|k: int|
            0 <= k < hint_legs_upto(waypoints, waypoints.len() as int).len() ==> 1
                <= (#[trigger] hint_legs_upto(waypoints, waypoints.len() as int)[k]).1
                <= hint_legs_upto(waypoints, waypoints.len() as int)[k].0,
{
    lemma_hint_legs_not_shorter_than_distance(rows, cols, obstacles, path, waypoints);
    assert forall|j: int| 1 <= j < waypoints.len() implies (#[trigger] waypoints[j - 1]).step
        <= waypoints[j].step && hint_gap(waypoints[j - 1], waypoints[j]) <= waypoints[j].step
        - waypoints[j - 1].step by {
        assert(waypoints[j - 1].step <= waypoints[j].step);
    }
    lemma_legs_within_steps(waypoints);
}

/// Cell `c` of a board with `cols` columns, mirrored left to right.
pub open spec fn mirror_cell(cols: int, c: int) -> int {
    cell_row(cols, c) * cols + (cols - 1 - cell_col(cols, c))
}

/// Cell `c` of a board with `rows` rows and `cols` columns, mirrored top to
/// bottom.
pub open spec fn flip_cell(rows: int, cols: int, c: int) -> int {
    (rows - 1 - cell_row(cols, c)) * cols + cell_col(cols, c)
}

/// A list of cells, each mirrored left to right.
pub open spec fn mirrored_cells(cols: int, cells: Seq<usize>) -> Seq<usize> {
    Seq::new(cells.len(), |i: int| mirror_cell(cols, cells[i] as int) as usize)
}

/// A list of cells, each mirrored top to bottom.
pub open spec fn flipped_cells(rows: int, cols: int, cells: Seq<usize>) -> Seq<usize> {
    Seq::new(cells.len(), |i: int| flip_cell(rows, cols, cells[i] as int) as usize)
}

/// The king-move distance from `a` to `b` is the distance from `b` to `a`.
pub proof fn lemma_king_distance_symmetric(cols: int, a: int, b: int)
    ensures
        cell_king_distance(cols, a, b) == cell_king_distance(cols, b, a),
{
}

/// The king-move distance between two cells of a board is the larger of the
/// number of rows and the number of columns between them.
pub proof fn lemma_king_distance_rows_and_columns(rows: int, cols: int, a: int, b: int)
    requires
        0 < cols,
        0 <= a < rows * cols,
        0 <= b < rows * cols,
    ensures
        cell_king_distance(cols, a, b) >= abs_diff(a / cols, b / cols),
        cell_king_distance(cols, a, b) >= abs_diff(a % cols, b % cols),
        cell_king_distance(cols, a, b) == abs_diff(a / cols, b / cols)
            || cell_king_distance(cols, a, b) == abs_diff(a % cols, b % cols),
        cell_king_distance(cols, a, b) == 0 <==> a == b,
{
    lemma_cell_position(rows, cols, a);
    lemma_cell_position(rows, cols, b);
}

/// Mirroring the board left to right, or top to bottom, keeps the king-move
/// distance between any two of its cells.
pub proof fn lemma_king_distance_mirror(rows: int, cols: int, a: int, b: int)
    requires
        0 < cols,
        0 <= a < rows * cols,
        0 <= b < rows * cols,
    ensures
        cell_king_distance(cols, mirror_cell(cols, a), mirror_cell(cols, b))
            == cell_king_distance(cols, a, b),
        cell_king_distance(cols, flip_cell(rows, cols, a), flip_cell(rows, cols, b))
            == cell_king_distance(cols, a, b),
{
    lemma_cell_position(rows, cols, a);
    lemma_cell_position(rows, cols, b);
    let ra = cell_row(cols, a);
    let ca = cell_col(cols, a);
    let rb = cell_row(cols, b);
    let cb = cell_col(cols, b);
    lemma_position_cell(rows, cols, ra, cols - 1 - ca);
    lemma_position_cell(rows, cols, rb, cols - 1 - cb);
    lemma_position_cell(rows, cols, rows - 1 - ra, ca);
    lemma_position_cell(rows, cols, rows - 1 - rb, cb);
}

proof fn lemma_mirror_cell_bounds(rows: int, cols: int, c: int)
    requires
        0 < cols,
        0 <= c < rows * cols,
    ensures
        0 <= mirror_cell(cols, c) < rows * cols,
        0 <= flip_cell(rows, cols, c) < rows * cols,
{
    lemma_cell_position(rows, cols, c);
    lemma_position_cell(rows, cols, cell_row(cols, c), cols - 1 - cell_col(cols, c));
    lemma_position_cell(rows, cols, rows - 1 - cell_row(cols, c), cell_col(cols, c));
}

proof fn lemma_spread_from_mirror(rows: int, cols: int, cells: Seq<usize>, i: int, j: int)
    requires
        0 < cols,
        rows * cols <= usize::MAX,
        forall|t: int| 0 <= t < cells.len() ==> (#[trigger] cells[t]) < rows * cols,
        0 <= i,
        j <= cells.len(),
    ensures
        spread_from(cols, mirrored_cells(cols, cells), i, j) == spread_from(cols, cells, i, j),
        spread_from(cols, flipped_cells(rows, cols, cells), i, j) == spread_from(cols, cells, i, j),
    decreases j - i,
{
    if j > i + 1 {
        lemma_spread_from_mirror(rows, cols, cells, i, j - 1);
        let a = cells[i] as int;
        let b = cells[j - 1] as int;
        lemma_mirror_cell_bounds(rows, cols, a);
        lemma_mirror_cell_bounds(rows, cols, b);
        lemma_king_distance_mirror(rows, cols, a, b);
        assert(mirrored_cells(cols, cells)[i] as int == mirror_cell(cols, a));
        assert(mirrored_cells(cols, cells)[j - 1] as int == mirror_cell(cols, b));
        assert(flipped_cells(rows, cols, cells)[i] as int == flip_cell(rows, cols, a));
        assert(flipped_cells(rows, cols, cells)[j - 1] as int == flip_cell(rows, cols, b));
    }
}

proof fn lemma_spread_upto_mirror(rows: int, cols: int, cells: Seq<usize>, m: int)
    requires
        0 < cols,
        rows * cols <= usize::MAX,
        forall|t: int| 0 <= t < cells.len() ==> (#[trigger] cells[t]) < rows * cols,
        m <= cells.len(),
    ensures
        spread_upto(cols, mirrored_cells(cols, cells), m) == spread_upto(cols, cells, m),
        spread_upto(cols, flipped_cells(rows, cols, cells), m) == spread_upto(cols, cells, m),
    decreases m,
{
    if m > 0 {
        lemma_spread_upto_mirror(rows, cols, cells, m - 1);
        lemma_spread_from_mirror(rows, cols, cells, m - 1, cells.len() as int);
    }
}

/// The obstacles' total king-move spread stays the same when every obstacle is
/// mirrored left to right, or top to bottom.
pub proof fn lemma_spread_mirror(rows: int, cols: int, cells: Seq<usize>)
    requires
        0 < cols,
        rows * cols <= usize::MAX,
        forall|t: int| 0 <= t < cells.len() ==> (#[trigger] cells[t]) < rows * cols,
    ensures
        spread_upto(cols, mirrored_cells(cols, cells), cells.len() as int) == spread_upto(
            cols,
            cells,
            cells.len() as int,
        ),
        spread_upto(cols, flipped_cells(rows, cols, cells), cells.len() as int) == spread_upto(
            cols,
            cells,
            cells.len() as int,
        ),
{
    lemma_spread_upto_mirror(rows, cols, cells, cells.len() as int);
}

proof fn lemma_two_obstacle_cells_upto(obstacles: Seq<u8>, a: int, b: int, n: int)
    requires
        0 <= a < b < obstacles.len(),
        obstacles.len() <= usize::MAX,
        forall|i: int| 0 <= i < obstacles.len() ==> ((#[trigger] obstacles[i]) == 1u8 <==> (i == a || i == b)),
        0 <= n <= obstacles.len(),
    ensures
        obstacle_cells(obstacles.take(n)) == (if a < n {
            seq![a as usize]
        } else {
            Seq::<usize>::empty()
        }) + (if b < n {
            seq![b as usize]
        } else {
            Seq::<usize>::empty()
        }),
    decreases n,
{
    let t = obstacles.take(n);
    if n == 0 {
        assert(t.len() == 0);
        assert(obstacle_cells(t) =~= Seq::<usize>::empty());
        assert(Seq::<usize>::empty() + Seq::<usize>::empty() =~= Seq::<usize>::empty());
    } else {
        lemma_two_obstacle_cells_upto(obstacles, a, b, n - 1);
        assert(t.drop_last() =~= obstacles.take(n - 1));
        assert(t.last() == obstacles[n - 1]);
        let before = obstacle_cells(obstacles.take(n - 1));
        if n - 1 == a {
            assert(before =~= Seq::<usize>::empty());
            assert(obstacle_cells(t) == before.push((t.len() - 1) as usize));
            assert(obstacle_cells(t) =~= seq![a as usize] + Seq::<usize>::empty());
        } else if n - 1 == b {
            assert(before =~= seq![a as usize]);
            assert(obstacle_cells(t) == before.push((t.len() - 1) as usize));
            assert(obstacle_cells(t) =~= seq![a as usize] + seq![b as usize]);
        } else {
            assert(obstacles[n - 1] != 1u8);
            assert(obstacle_cells(t) == before);
        }
    }
}

/// On a map with exactly two obstacles, the total spread is the king-move
/// distance between them: the larger of the number of rows and the number of
/// columns between the two cells.
pub proof fn lemma_spread_of_two_obstacles(rows: int, cols: int, obstacles: Seq<u8>, a: int, b: int)
    requires
        0 < cols,
        obstacles.len() == rows * cols,
        rows * cols <= usize::MAX,
        0 <= a < b < obstacles.len(),
        forall|i: int| 0 <= i < obstacles.len() ==> ((#[trigger] obstacles[i]) == 1u8 <==> (i == a || i == b)),
    ensures
        obstacle_cells(obstacles) == seq![a as usize, b as usize],
        spread_upto(cols, obstacle_cells(obstacles), 2) == if abs_diff(a / cols, b / cols) >= abs_diff(
            a % cols,
            b % cols,
        ) {
            abs_diff(a / cols, b / cols)
        } else {
            abs_diff(a % cols, b % cols)
        },
{
    lemma_two_obstacle_cells_upto(obstacles, a, b, obstacles.len() as int);
    assert(obstacles.take(obstacles.len() as int) =~= obstacles);
    let cells = obstacle_cells(obstacles);
    assert(cells =~= seq![a as usize, b as usize]);
    assert(spread_from(cols, cells, 1, 2) == 0);
    assert(spread_from(cols, cells, 0, 1) == 0);
    assert(spread_from(cols, cells, 0, 2) == cell_king_distance(cols, a, b));
    assert(spread_upto(cols, cells, 0) == 0);
    assert(spread_upto(cols, cells, 1) == cell_king_distance(cols, a, b));
    assert(spread_upto(cols, cells, 2) == cell_king_distance(cols, a, b));
}

} // verus!
