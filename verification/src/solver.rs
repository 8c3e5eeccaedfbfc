//! Covering paths: a path that walks through every open cell of the board
//! exactly once, moving between cardinal neighbours. The search below finds
//! such paths under waypoint constraints ("at step `s` the path is at cell `c`"),
//! which is how a puzzle is shown to have a single solution.
use vstd::prelude::*;

use crate::grid::{adjacent, cell_neighbors, lemma_cell_neighbors_facts, Grid};

verus! {

/// The number of open cells (value 0) in an obstacle map.
pub open spec fn open_cell_count(obstacles: Seq<u8>) -> nat
    decreases obstacles.len(),
{
    if obstacles.len() == 0 {
        0
    } else {
        open_cell_count(obstacles.drop_last()) + if obstacles.last() == 0u8 {
            1nat
        } else {
            0nat
        }
    }
}

/// Step `i` of the path moves to a cardinal neighbour.
pub open spec fn linked(rows: int, cols: int, path: Seq<usize>, i: int) -> bool {
    adjacent(rows, cols, path[i] as int, path[i + 1] as int)
}

/// `path` walks through every open cell of the `rows` × `cols` board exactly
/// once: as many steps as open cells, each on an open cell of the board, no cell
/// twice, and each move to a cardinal neighbour.
pub open spec fn valid_covering_path(
    rows: int,
    cols: int,
    obstacles: Seq<u8>,
    path: Seq<usize>,
) -> bool {
    &&& obstacles.len() == rows * cols
    &&& path.len() == open_cell_count(obstacles)
    &&& forall|i: int|
        0 <= i < path.len() ==> (#[trigger] path[i]) < obstacles.len() && obstacles[path[i] as int]
            == 0u8
    &&& path.no_duplicates()
    &&& forall|i: int| 0 <= i < path.len() - 1 ==> #[trigger] linked(rows, cols, path, i)
}

/// The path is at cell `cell` at step `step` (steps count from 1) for every
/// waypoint `(step, cell)`.
pub open spec fn satisfies_waypoints(path: Seq<usize>, waypoints: Seq<(usize, usize)>) -> bool {
    forall|k: int|
        0 <= k < waypoints.len() ==> {
            &&& 1 <= (#[trigger] waypoints[k]).0 <= path.len()
            &&& path[waypoints[k].0 - 1] == waypoints[k].1
        }
}

/// A solution of the puzzle given by the obstacles and the waypoints.
pub open spec fn constrained_path(
    rows: int,
    cols: int,
    obstacles: Seq<u8>,
    waypoints: Seq<(usize, usize)>,
    path: Seq<usize>,
) -> bool {
    valid_covering_path(rows, cols, obstacles, path) && satisfies_waypoints(path, waypoints)
}

/// `walk` is the start of a covering path: at least one and at most as many
/// steps as open cells, each on an open cell of the board, no cell twice, and
/// each move to a cardinal neighbour.
pub open spec fn walk_shape(rows: int, cols: int, obstacles: Seq<u8>, walk: Seq<usize>) -> bool {
    &&& 1 <= walk.len() <= open_cell_count(obstacles)
    &&& forall|i: int|
        0 <= i < walk.len() ==> (#[trigger] walk[i]) < obstacles.len() && obstacles[walk[i] as int]
            == 0u8
    &&& walk.no_duplicates()
    &&& forall|i: int| 0 <= i < walk.len() - 1 ==> #[trigger] linked(rows, cols, walk, i)
}

/// A walk the search can stand on: the start of a covering path that is at each
/// waypoint's cell at its step, for every step it has reached.
pub open spec fn partial_walk(
    rows: int,
    cols: int,
    obstacles: Seq<u8>,
    waypoints: Seq<(usize, usize)>,
    walk: Seq<usize>,
) -> bool {
    &&& walk_shape(rows, cols, obstacles, walk)
    &&& forall|k: int|
        0 <= k < waypoints.len() && 1 <= (#[trigger] waypoints[k]).0 <= walk.len() ==> walk[waypoints[k].0
            - 1] == waypoints[k].1
}

/// A walk the search stands on at some visit: the start of a covering path
/// that is at each waypoint's cell at its step, for every step it has reached,
/// and at no waypoint's cell at another step.
pub open spec fn search_walk(
    rows: int,
    cols: int,
    obstacles: Seq<u8>,
    waypoints: Seq<(usize, usize)>,
    walk: Seq<usize>,
) -> bool {
    &&& partial_walk(rows, cols, obstacles, waypoints, walk)
    &&& forall|k: int, i: int|
        #![trigger waypoints[k], walk[i]]
        0 <= k < waypoints.len() && 0 <= i < walk.len() && walk[i] == waypoints[k].1 ==> i
            == waypoints[k].0 - 1
}

/// `walks` are distinct walks the search can stand on.
pub open spec fn distinct_walks(
    rows: int,
    cols: int,
    obstacles: Seq<u8>,
    waypoints: Seq<(usize, usize)>,
    walks: Seq<Seq<usize>>,
) -> bool {
    &&& walks.no_duplicates()
    &&& forall|i: int|
        0 <= i < walks.len() ==> search_walk(rows, cols, obstacles, waypoints, #[trigger] walks[i])
}

/// `walks` holds every walk the search can stand on.
pub open spec fn every_search_walk(
    rows: int,
    cols: int,
    obstacles: Seq<u8>,
    waypoints: Seq<(usize, usize)>,
    walks: Seq<Seq<usize>>,
) -> bool {
    forall|w: Seq<usize>| #[trigger] search_walk(rows, cols, obstacles, waypoints, w) ==> walks.contains(w)
}

/// The waypoints can steer the search: there is an open cell, at least one
/// waypoint, each names a step of a covering path and an open cell, no step is
/// given two cells and no cell two steps, and one waypoint fixes the first step.
pub open spec fn waypoints_usable(obstacles: Seq<u8>, waypoints: Seq<(usize, usize)>) -> bool {
    &&& open_cell_count(obstacles) > 0
    &&& waypoints.len() > 0
    &&& forall|k: int|
        0 <= k < waypoints.len() ==> {
            &&& 1 <= (#[trigger] waypoints[k]).0 <= open_cell_count(obstacles)
            &&& waypoints[k].1 < obstacles.len()
            &&& obstacles[waypoints[k].1 as int] == 0u8
        }
    &&& forall|k: int, l: int|
        0 <= k < waypoints.len() && 0 <= l < waypoints.len() && (#[trigger] waypoints[k]).0
            == (#[trigger] waypoints[l]).0 ==> waypoints[k].1 == waypoints[l].1
    &&& forall|k: int, l: int|
        0 <= k < waypoints.len() && 0 <= l < waypoints.len() && (#[trigger] waypoints[k]).1
            == (#[trigger] waypoints[l]).1 ==> waypoints[k].0 == waypoints[l].0
    &&& exists|k: int| 0 <= k < waypoints.len() && (#[trigger] waypoints[k]).0 == 1
}

/// Counts the open cells of `obstacles`.
fn count_open(obstacles: &[u8]) -> (count: usize)
    ensures
        count == open_cell_count(obstacles@),
{
    let mut count: usize = 0;
    let mut i: usize = 0;
    while i < obstacles.len()
        invariant
            i <= obstacles@.len(),
            count == open_cell_count(obstacles@.take(i as int)),
            count <= i,
        decreases obstacles@.len() - i,
    {
        assert(obstacles@.take(i + 1).drop_last() =~= obstacles@.take(i as int));
        if obstacles[i] == 0 {
            count = count + 1;
        }
        i = i + 1;
    }
    assert(obstacles@.take(obstacles@.len() as int) =~= obstacles@);
    count
}

/// Whether `list` holds `x`.
fn slice_contains(list: &[usize], x: usize) -> (found: bool)
    ensures
        found == list@.contains(x),
{
    let mut i: usize = 0;
    while i < list.len()
        invariant
            i <= list@.len(),
            forall|j: int| 0 <= j < i ==> list@[j] != x,
        decreases list@.len() - i,
    {
        if list[i] == x {
            return true;
        }
        i = i + 1;
    }
    false
}

/// Whether `path` walks through every open cell exactly once, moving between
/// cardinal neighbours.
pub fn is_valid_covering_path(grid: &Grid, obstacles: &[u8], path: &[usize]) -> (valid: bool)
    requires
        grid.wf(),
    ensures
        valid == valid_covering_path(grid.rows() as int, grid.cols() as int, obstacles@, path@),
{
    proof {
        grid.lemma_wf_size();
    }
    let rows = grid.rows();
    let cols = grid.cols();
    if obstacles.len() != rows * cols {
        return false;
    }
    let playable_cell_count = count_open(obstacles);
    if path.len() != playable_cell_count {
        return false;
    }
    let ghost r = rows as int;
    let ghost c = cols as int;
    let mut seen: Vec<bool> = vec![false; rows * cols];
    let mut i: usize = 0;
    while i < path.len()
        invariant
            grid.wf(),
            rows == grid.rows(),
            cols == grid.cols(),
            r == rows,
            c == cols,
            obstacles@.len() == rows * cols,
            path@.len() == open_cell_count(obstacles@),
            seen@.len() == obstacles@.len(),
            i <= path@.len(),
            forall|j: int|
                0 <= j < i ==> (#[trigger] path@[j]) < obstacles@.len() && obstacles@[path@[j] as int]
                    == 0u8,
            path@.take(i as int).no_duplicates(),
            forall|j: int| 0 <= j < i - 1 ==> #[trigger] linked(r, c, path@, j),
            forall|x: int| 0 <= x < seen@.len() ==> seen@[x] == path@.take(i as int).contains(x as usize),
        decreases path@.len() - i,
    {
        let cell_idx = path[i];
        if cell_idx >= seen.len() || obstacles[cell_idx] != 0 || seen[cell_idx] {
            proof {
                if cell_idx < seen@.len() && seen@[cell_idx as int] {
                    let j = choose|j: int| 0 <= j < i && path@.take(i as int)[j] == cell_idx;
                    assert(path@[j] == path@[i as int]);
                }
            }
            return false;
        }
        if i > 0 && !slice_contains(grid.neighbors(path[i - 1]), cell_idx) {
            proof {
                assert(!linked(r, c, path@, i - 1));
            }
            return false;
        }
        proof {
            assert(path@.take(i + 1) =~= path@.take(i as int).push(cell_idx));
            assert forall|a: int, b: int|
                0 <= a < i + 1 && 0 <= b < i + 1 && a != b implies #[trigger] path@.take(i + 1)[a]
                != #[trigger] path@.take(i + 1)[b] by {
                if a < i && b < i {
                    assert(path@.take(i as int)[a] != path@.take(i as int)[b]);
                } else if a == i {
                    assert(path@.take(i as int).contains(path@.take(i + 1)[b]));
                } else {
                    assert(path@.take(i as int).contains(path@.take(i + 1)[a]));
                }
            }
            if i > 0 {
                assert(linked(r, c, path@, i - 1));
            }
        }
        seen.set(cell_idx, true);
        proof {
            assert forall|x: int| 0 <= x < seen@.len() implies seen@[x] == path@.take(i + 1).contains(
                x as usize,
            ) by {
                if x == cell_idx {
                    assert(path@.take(i + 1)[i as int] == cell_idx);
                } else {
                    if path@.take(i + 1).contains(x as usize) {
                        let j = choose|j: int| 0 <= j < i + 1 && #[trigger] path@.take(i + 1)[j] == x as usize;
                        assert(path@.take(i as int)[j] == x as usize);
                    }
                }
            }
        }
        i = i + 1;
    }
    assert(path@.take(path@.len() as int) =~= path@);
    true
}

/// The tables built from a usable waypoint list: `at_step[s]` is the cell a
/// waypoint fixes for step `s`, and `reserved[c]` the step a waypoint fixes for
/// cell `c`.
pub open spec fn tables_match(
    obstacles: Seq<u8>,
    waypoints: Seq<(usize, usize)>,
    at_step: Seq<Option<usize>>,
    reserved: Seq<Option<usize>>,
) -> bool {
    &&& at_step.len() == open_cell_count(obstacles) + 1
    &&& reserved.len() == obstacles.len()
    &&& forall|k: int|
        0 <= k < waypoints.len() ==> {
            &&& at_step[(#[trigger] waypoints[k]).0 as int] == Some(waypoints[k].1)
            &&& reserved[waypoints[k].1 as int] == Some(waypoints[k].0)
        }
    &&& forall|s: int|
        0 <= s < at_step.len() && (#[trigger] at_step[s]) is Some ==> exists|k: int|
            0 <= k < waypoints.len() && (#[trigger] waypoints[k]).0 as int == s && waypoints[k].1 == at_step[s]->0
    &&& forall|c: int|
        0 <= c < reserved.len() && (#[trigger] reserved[c]) is Some ==> exists|k: int|
            0 <= k < waypoints.len() && (#[trigger] waypoints[k]).1 as int == c && waypoints[k].0 == reserved[c]->0
}

/// What the search needs of the tables: each fixed cell is open and fixed for
/// exactly the step that names it, and the other way round.
pub open spec fn tables_sound(
    obstacles: Seq<u8>,
    at_step: Seq<Option<usize>>,
    reserved: Seq<Option<usize>>,
) -> bool {
    &&& at_step.len() == open_cell_count(obstacles) + 1
    &&& reserved.len() == obstacles.len()
    &&& forall|s: int|
        0 <= s < at_step.len() && (#[trigger] at_step[s]) is Some ==> {
            &&& 1 <= s
            &&& at_step[s]->0 < obstacles.len()
            &&& obstacles[at_step[s]->0 as int] == 0u8
            &&& reserved[at_step[s]->0 as int] == Some(s as usize)
        }
    &&& forall|c: int|
        0 <= c < reserved.len() && (#[trigger] reserved[c]) is Some ==> {
            &&& 1 <= reserved[c]->0 < at_step.len()
            &&& at_step[reserved[c]->0 as int] == Some(c as usize)
        }
}

/// Every cell of the path that is fixed for a step is there at that step.
pub open spec fn keeps_reserved(reserved: Seq<Option<usize>>, path: Seq<usize>) -> bool {
    forall|i: int|
        0 <= i < path.len() && (#[trigger] reserved[path[i] as int]) is Some ==> reserved[path[i] as int]->0
            == i + 1
}

/// The path is at the fixed cell at every fixed step it reaches.
pub open spec fn meets_steps(at_step: Seq<Option<usize>>, path: Seq<usize>) -> bool {
    forall|s: int|
        1 <= s <= path.len() && s < at_step.len() && (#[trigger] at_step[s]) is Some ==> path[s - 1]
            == at_step[s]->0
}

/// A covering path that is at every fixed cell at its step.
pub open spec fn search_solution(
    rows: int,
    cols: int,
    obstacles: Seq<u8>,
    at_step: Seq<Option<usize>>,
    path: Seq<usize>,
) -> bool {
    valid_covering_path(rows, cols, obstacles, path) && meets_steps(at_step, path)
}

/// `prefix` is where `path` starts.
pub open spec fn is_prefix(prefix: Seq<usize>, path: Seq<usize>) -> bool {
    prefix.len() <= path.len() && path.subrange(0, prefix.len() as int) == prefix
}

/// One of the paths in `paths` is `path`.
pub open spec fn found(paths: Seq<Vec<usize>>, path: Seq<usize>) -> bool {
    exists|i: int| 0 <= i < paths.len() && (#[trigger] paths[i])@ == path
}

/// No path occurs twice in `paths`.
pub open spec fn all_distinct(paths: Seq<Vec<usize>>) -> bool {
    forall|i: int, j: int|
        0 <= i < paths.len() && 0 <= j < paths.len() && i != j ==> (#[trigger] paths[i])@ != (
        #[trigger] paths[j])@
}

/// A usable waypoint list gives tables the search can trust.
proof fn lemma_tables_sound(
    obstacles: Seq<u8>,
    waypoints: Seq<(usize, usize)>,
    at_step: Seq<Option<usize>>,
    reserved: Seq<Option<usize>>,
)
    requires
        waypoints_usable(obstacles, waypoints),
        tables_match(obstacles, waypoints, at_step, reserved),
    ensures
        tables_sound(obstacles, at_step, reserved),
{
    assert forall|s: int| 0 <= s < at_step.len() && (#[trigger] at_step[s]) is Some implies {
        &&& 1 <= s
        &&& at_step[s]->0 < obstacles.len()
        &&& obstacles[at_step[s]->0 as int] == 0u8
        &&& reserved[at_step[s]->0 as int] == Some(s as usize)
    } by {
        let k = choose|k: int|
            0 <= k < waypoints.len() && (#[trigger] waypoints[k]).0 as int == s && waypoints[k].1 == at_step[s]->0;
        assert(waypoints[k].0 == s);
    }
    assert forall|c: int| 0 <= c < reserved.len() && (#[trigger] reserved[c]) is Some implies {
        &&& 1 <= reserved[c]->0 < at_step.len()
        &&& at_step[reserved[c]->0 as int] == Some(c as usize)
    } by {
        let k = choose|k: int|
            0 <= k < waypoints.len() && (#[trigger] waypoints[k]).1 as int == c && waypoints[k].0 == reserved[c]->0;
        assert(waypoints[k].1 == c);
    }
}

/// With tables built from a usable list, the paths the search looks for are
/// exactly the puzzle's solutions.
proof fn lemma_search_solution_iff_constrained(
    rows: int,
    cols: int,
    obstacles: Seq<u8>,
    waypoints: Seq<(usize, usize)>,
    at_step: Seq<Option<usize>>,
    reserved: Seq<Option<usize>>,
    path: Seq<usize>,
)
    requires
        waypoints_usable(obstacles, waypoints),
        tables_match(obstacles, waypoints, at_step, reserved),
    ensures
        search_solution(rows, cols, obstacles, at_step, path) <==> constrained_path(
            rows,
            cols,
            obstacles,
            waypoints,
            path,
        ),
{
    if search_solution(rows, cols, obstacles, at_step, path) {
        assert forall|k: int| 0 <= k < waypoints.len() implies {
            &&& 1 <= (#[trigger] waypoints[k]).0 <= path.len()
            &&& path[waypoints[k].0 - 1] == waypoints[k].1
        } by {
            assert(at_step[waypoints[k].0 as int] == Some(waypoints[k].1));
        }
    }
    if constrained_path(rows, cols, obstacles, waypoints, path) {
        assert forall|s: int|
            1 <= s <= path.len() && s < at_step.len() && (#[trigger] at_step[s]) is Some implies path[s
            - 1] == at_step[s]->0 by {
            let k = choose|k: int|
                0 <= k < waypoints.len() && (#[trigger] waypoints[k]).0 as int == s && waypoints[k].1 == at_step[s]->0;
            assert(waypoints[k].0 == s);
        }
    }
}

/// With tables built from usable waypoints, a walk meets the fixed steps it has
/// reached exactly when it meets the waypoints it has reached.
proof fn lemma_meets_steps_iff_partial(
    rows: int,
    cols: int,
    obstacles: Seq<u8>,
    waypoints: Seq<(usize, usize)>,
    at_step: Seq<Option<usize>>,
    reserved: Seq<Option<usize>>,
    walk: Seq<usize>,
)
    requires
        waypoints_usable(obstacles, waypoints),
        tables_match(obstacles, waypoints, at_step, reserved),
        walk_shape(rows, cols, obstacles, walk),
    ensures
        meets_steps(at_step, walk) <==> partial_walk(rows, cols, obstacles, waypoints, walk),
{
    if meets_steps(at_step, walk) {
        assert forall|k: int|
            0 <= k < waypoints.len() && 1 <= (#[trigger] waypoints[k]).0 <= walk.len() implies walk[waypoints[k].0
            - 1] == waypoints[k].1 by {
            assert(at_step[waypoints[k].0 as int] == Some(waypoints[k].1));
        }
    }
    if partial_walk(rows, cols, obstacles, waypoints, walk) {
        assert forall|s: int|
            1 <= s <= walk.len() && s < at_step.len() && (#[trigger] at_step[s]) is Some implies walk[s
            - 1] == at_step[s]->0 by {
            let k = choose|k: int|
                0 <= k < waypoints.len() && (#[trigger] waypoints[k]).0 as int == s && waypoints[k].1 == at_step[s]->0;
            assert(waypoints[k].0 == s);
        }
    }
}

/// With tables built from usable waypoints, a walk keeps each fixed cell for its
/// step exactly when it is at no waypoint's cell at another step.
proof fn lemma_keeps_reserved_iff(
    rows: int,
    cols: int,
    obstacles: Seq<u8>,
    waypoints: Seq<(usize, usize)>,
    at_step: Seq<Option<usize>>,
    reserved: Seq<Option<usize>>,
    walk: Seq<usize>,
)
    requires
        waypoints_usable(obstacles, waypoints),
        tables_match(obstacles, waypoints, at_step, reserved),
        walk_shape(rows, cols, obstacles, walk),
    ensures
        (meets_steps(at_step, walk) && keeps_reserved(reserved, walk)) <==> search_walk(
            rows,
            cols,
            obstacles,
            waypoints,
            walk,
        ),
{
    lemma_meets_steps_iff_partial(rows, cols, obstacles, waypoints, at_step, reserved, walk);
    if keeps_reserved(reserved, walk) {
        assert forall|k: int, i: int|
            #![trigger waypoints[k], walk[i]]
            0 <= k < waypoints.len() && 0 <= i < walk.len() && walk[i] == waypoints[k].1 implies i
                == waypoints[k].0 - 1 by {
            assert(reserved[waypoints[k].1 as int] == Some(waypoints[k].0));
            assert(reserved[walk[i] as int] is Some);
        }
    }
    if search_walk(rows, cols, obstacles, waypoints, walk) {
        assert forall|i: int|
            0 <= i < walk.len() && (#[trigger] reserved[walk[i] as int]) is Some implies reserved[walk[i] as int]->0
                == i + 1 by {
            let c = walk[i] as int;
            assert(c < reserved.len());
            let k = choose|k: int|
                0 <= k < waypoints.len() && (#[trigger] waypoints[k]).1 as int == c && waypoints[k].0 == reserved[c]->0;
            assert(walk[i] == waypoints[k].1);
        }
    }
}

/// Builds the step and cell tables of a waypoint list, or `None` when the list
/// cannot steer a search (see `waypoints_usable`).
fn normalize_waypoints(obstacles: &[u8], waypoints: &[(usize, usize)], open_count: usize) -> (tables:
    Option<(Vec<Option<usize>>, Vec<Option<usize>>, usize)>)
    requires
        open_count == open_cell_count(obstacles@),
        obstacles@.len() <= isize::MAX,
    ensures
        tables is Some <==> waypoints_usable(obstacles@, waypoints@),
        tables matches Some((at_step, reserved, start)) ==> {
            &&& tables_match(obstacles@, waypoints@, at_step@, reserved@)
            &&& at_step@[1] == Some(start)
        },
{
    if open_count == 0 || waypoints.len() == 0 {
        return None;
    }
    proof {
        assert(open_count <= obstacles@.len()) by {
            lemma_open_count_bound(obstacles@);
        }
    }
    let mut waypoint_at_step: Vec<Option<usize>> = vec![None; open_count + 1];
    let mut reserved_step_by_cell: Vec<Option<usize>> = vec![None; obstacles.len()];
    let mut i: usize = 0;
    while i < waypoints.len()
        invariant
            open_count == open_cell_count(obstacles@),
            0 < open_count,
            0 < waypoints@.len(),
            i <= waypoints@.len(),
            waypoint_at_step@.len() == open_count + 1,
            reserved_step_by_cell@.len() == obstacles@.len(),
            forall|k: int|
                0 <= k < i ==> {
                    &&& 1 <= (#[trigger] waypoints@[k]).0 <= open_count
                    &&& waypoints@[k].1 < obstacles@.len()
                    &&& obstacles@[waypoints@[k].1 as int] == 0u8
                    &&& waypoint_at_step@[waypoints@[k].0 as int] == Some(waypoints@[k].1)
                    &&& reserved_step_by_cell@[waypoints@[k].1 as int] == Some(waypoints@[k].0)
                },
            forall|s: int|
                0 <= s < waypoint_at_step@.len() && (#[trigger] waypoint_at_step@[s]) is Some
                    ==> exists|k: int|
                    0 <= k < i && (#[trigger] waypoints@[k]).0 as int == s && waypoints@[k].1 == waypoint_at_step@[s]->0,
            forall|c: int|
                0 <= c < reserved_step_by_cell@.len() && (#[trigger] reserved_step_by_cell@[c]) is Some
                    ==> exists|k: int|
                    0 <= k < i && (#[trigger] waypoints@[k]).1 as int == c && waypoints@[k].0 == reserved_step_by_cell@[c]->0,
        decreases waypoints@.len() - i,
    {
        let (step, cell) = waypoints[i];
        if step == 0 || step > open_count || cell >= obstacles.len() || obstacles[cell] != 0 {
            proof {
                assert(!waypoints_usable(obstacles@, waypoints@)) by {
                    if waypoints_usable(obstacles@, waypoints@) {
                        assert(waypoints@[i as int].0 == step);
                    }
                }
            }
            return None;
        }
        match waypoint_at_step[step] {
            Some(existing_cell) => {
                if existing_cell != cell {
                    proof {
                        let k = choose|k: int|
                            0 <= k < i && (#[trigger] waypoints@[k]).0 as int == step && waypoints@[k].1 == existing_cell;
                        assert(waypoints@[i as int] == (step, cell));
                        assert(!waypoints_usable(obstacles@, waypoints@)) by {
                            if waypoints_usable(obstacles@, waypoints@) {
                                assert(waypoints@[k].0 == waypoints@[i as int].0);
                            }
                        }
                    }
                    return None;
                }
            },
            None => {},
        }
        match reserved_step_by_cell[cell] {
            Some(existing_step) => {
                if existing_step != step {
                    proof {
                        let k = choose|k: int|
                            0 <= k < i && (#[trigger] waypoints@[k]).1 as int == cell && waypoints@[k].0 == existing_step;
                        assert(waypoints@[i as int] == (step, cell));
                        assert(!waypoints_usable(obstacles@, waypoints@)) by {
                            if waypoints_usable(obstacles@, waypoints@) {
                                assert(waypoints@[k].1 == waypoints@[i as int].1);
                            }
                        }
                    }
                    return None;
                }
            },
            None => {},
        }
        let ghost old_at = waypoint_at_step@;
        let ghost old_res = reserved_step_by_cell@;
        waypoint_at_step.set(step, Some(cell));
        reserved_step_by_cell.set(cell, Some(step));
        proof {
            assert(waypoints@[i as int] == (step, cell));
            assert forall|k: int| 0 <= k < i + 1 implies {
                &&& 1 <= (#[trigger] waypoints@[k]).0 <= open_count
                &&& waypoints@[k].1 < obstacles@.len()
                &&& obstacles@[waypoints@[k].1 as int] == 0u8
                &&& waypoint_at_step@[waypoints@[k].0 as int] == Some(waypoints@[k].1)
                &&& reserved_step_by_cell@[waypoints@[k].1 as int] == Some(waypoints@[k].0)
            } by {
                if k < i {
                    if waypoints@[k].0 == step {
                        assert(old_at[step as int] == Some(waypoints@[k].1));
                    }
                    if waypoints@[k].1 == cell {
                        assert(old_res[cell as int] == Some(waypoints@[k].0));
                    }
                }
            }
            assert forall|s: int|
                0 <= s < waypoint_at_step@.len() && (#[trigger] waypoint_at_step@[s]) is Some
                    implies exists|k: int|
                    0 <= k < i + 1 && (#[trigger] waypoints@[k]).0 as int == s && waypoints@[k].1 == waypoint_at_step@[s]->0 by {
                if s != step {
                    assert(old_at[s] is Some);
                    let k = choose|k: int|
                        0 <= k < i && (#[trigger] waypoints@[k]).0 as int == s && waypoints@[k].1 == old_at[s]->0;
                    
                } else {
                    assert(waypoints@[i as int].0 == step);
                }
            }
            assert forall|c: int|
                0 <= c < reserved_step_by_cell@.len() && (#[trigger] reserved_step_by_cell@[c]) is Some
                    implies exists|k: int|
                    0 <= k < i + 1 && (#[trigger] waypoints@[k]).1 as int == c && waypoints@[k].0 == reserved_step_by_cell@[c]->0 by {
                if c != cell {
                    assert(old_res[c] is Some);
                    let k = choose|k: int|
                        0 <= k < i && (#[trigger] waypoints@[k]).1 as int == c && waypoints@[k].0 == old_res[c]->0;
                    
                } else {
                    assert(waypoints@[i as int].1 == cell);
                }
            }
        }
        i = i + 1;
    }
    match waypoint_at_step[1] {
        Some(start) => {
            proof {
                let k = choose|k: int|
                    0 <= k < waypoints@.len() && (#[trigger] waypoints@[k]).0 as int == 1 && waypoints@[k].1 == start;
                assert(waypoints@[k].0 == 1);
            }
            Some((waypoint_at_step, reserved_step_by_cell, start))
        },
        None => {
            proof {
                assert(!waypoints_usable(obstacles@, waypoints@)) by {
                    if waypoints_usable(obstacles@, waypoints@) {
                        let k = choose|k: int|
                            0 <= k < waypoints@.len() && (#[trigger] waypoints@[k]).0 == 1;
                        assert(waypoint_at_step@[waypoints@[k].0 as int] == Some(waypoints@[k].1));
                    }
                }
            }
            None
        },
    }
}

/// There are no more open cells than cells.
pub proof fn lemma_open_count_bound(obstacles: Seq<u8>)
    ensures
        open_cell_count(obstacles) <= obstacles.len(),
    decreases obstacles.len(),
{
    if obstacles.len() > 0 {
        lemma_open_count_bound(obstacles.drop_last());
    }
}

/// `order` lists the positions `0..keys.len()` sorted by key, ties kept in
/// the order they came in: the order a stable sort by key puts them in.
pub open spec fn stable_order(keys: Seq<usize>, order: Seq<usize>) -> bool {
    &&& order.len() == keys.len()
    &&& forall|j: int| 0 <= j < order.len() ==> (#[trigger] order[j]) < keys.len()
    &&& order.no_duplicates()
    &&& forall|t: int| 0 <= t < keys.len() ==> #[trigger] order.contains(t as usize)
    &&& forall|a: int, b: int|
        0 <= a < b < order.len() ==> keys[(#[trigger] order[a]) as int] <= keys[(
        #[trigger] order[b]) as int]
    &&& forall|a: int, b: int|
        0 <= a < b < order.len() && keys[(#[trigger] order[a]) as int] == keys[(
        #[trigger] order[b]) as int] ==> order[a] < order[b]
}

/// The positions of `keys` in the order of a stable sort by key (insertion
/// sort: each position goes after every earlier one whose key is not larger).
pub(crate) fn stable_order_by_key(keys: &Vec<usize>) -> (order: Vec<usize>)
    ensures
        stable_order(keys@, order@),
{
    let mut order: Vec<usize> = Vec::new();
    let mut i: usize = 0;
    while i < keys.len()
        invariant
            i <= keys@.len(),
            order@.len() == i,
            forall|j: int| 0 <= j < order@.len() ==> (#[trigger] order@[j]) < i,
            order@.no_duplicates(),
            forall|t: int| 0 <= t < i ==> #[trigger] order@.contains(t as usize),
            forall|a: int, b: int|
                0 <= a < b < order@.len() ==> keys@[(#[trigger] order@[a]) as int] <= keys@[(
                #[trigger] order@[b]) as int],
            forall|a: int, b: int|
                0 <= a < b < order@.len() && keys@[(#[trigger] order@[a]) as int] == keys@[(
                #[trigger] order@[b]) as int] ==> order@[a] < order@[b],
        decreases keys@.len() - i,
    {
        let mut p: usize = 0;
        while p < order.len() && keys[order[p]] <= keys[i]
            invariant
                i < keys@.len(),
                p <= order@.len(),
                forall|j: int| 0 <= j < order@.len() ==> (#[trigger] order@[j]) < i,
                forall|a: int| 0 <= a < p ==> keys@[(#[trigger] order@[a]) as int] <= keys@[i as int],
            decreases order@.len() - p,
        {
            p = p + 1;
        }
        let ghost old_order = order@;
        proof {
            old_order.insert_ensures(p as int, i);
            assert forall|a: int| p <= a < old_order.len() implies keys@[(
            #[trigger] old_order[a]) as int] > keys@[i as int] by {
                assert(keys@[old_order[p as int] as int] <= keys@[old_order[a] as int]
                    || a == p);
            }
        }
        order.insert(p, i);
        proof {
            let n = order@;
            assert(forall|a: int| 0 <= a < p ==> n[a] == old_order[a]);
            assert(forall|a: int| p < a < n.len() ==> n[a] == old_order[a - 1]);
            assert(n[p as int] == i);
            assert forall|a: int, b: int| 0 <= a < b < n.len() implies #[trigger] n[a] != #[trigger] n[b]
                && n[b] != n[a] by {
                if a < p && b < p {
                } else if a < p && b > p {
                    assert(old_order[a] != old_order[b - 1]);
                } else if a > p && b > p {
                    assert(old_order[a - 1] != old_order[b - 1]);
                }
            }
            assert forall|t: int| 0 <= t < i + 1 implies #[trigger] n.contains(t as usize) by {
                if t < i {
                    assert(old_order.contains(t as usize));
                    let j = choose|j: int| 0 <= j < old_order.len() && old_order[j] == t as usize;
                    if j < p {
                        assert(n[j] == t);
                    } else {
                        assert(n[j + 1] == t);
                    }
                } else {
                    assert(n[p as int] == t);
                }
            }
            assert forall|a: int, b: int| 0 <= a < b < n.len() implies keys@[(
            #[trigger] n[a]) as int] <= keys@[(#[trigger] n[b]) as int] by {
                if b < p {
                } else if b == p {
                } else if a < p {
                    assert(keys@[n[a] as int] <= keys@[i as int]);
                } else if a == p {
                } else {
                    assert(keys@[old_order[a - 1] as int] <= keys@[old_order[b - 1] as int]);
                }
            }
            assert forall|a: int, b: int|
                0 <= a < b < n.len() && keys@[(#[trigger] n[a]) as int] == keys@[(
                #[trigger] n[b]) as int] implies n[a] < n[b] by {
                if b < p {
                } else if b == p {
                } else if a < p {
                } else if a == p {
                } else {
                    assert(old_order[a - 1] < old_order[b - 1]);
                }
            }
        }
        i = i + 1;
    }
    order
}

/// Whether `next` is fixed for some step other than `next_step`, so that
/// entering it now would leave its own step unreachable.
fn future_reserved_cell_is_early(
    reserved_step_by_cell: &[Option<usize>],
    next: usize,
    next_step: usize,
) -> (early: bool)
    requires
        next < reserved_step_by_cell@.len(),
    ensures
        early == (reserved_step_by_cell@[next as int] is Some && reserved_step_by_cell@[next as int]->0
            != next_step),
{
    match reserved_step_by_cell[next] {
        Some(reserved_step) => reserved_step != next_step,
        None => false,
    }
}

/// How many of `cells` are open and not yet visited.
pub open spec fn free_count(cells: Seq<usize>, obstacles: Seq<u8>, visited: Seq<bool>) -> nat
    decreases cells.len(),
{
    if cells.len() == 0 {
        0
    } else {
        free_count(cells.drop_last(), obstacles, visited) + if obstacles[cells.last() as int] == 0u8
            && !visited[cells.last() as int] {
            1nat
        } else {
            0nat
        }
    }
}

/// Which cells of a board of `n` cells a walk has visited.
pub open spec fn visited_by(n: nat, walk: Seq<usize>) -> Seq<bool> {
    Seq::new(n, |c: int| walk.contains(c as usize))
}

/// How many open, unvisited neighbours cell `x` has once `walk` is walked.
pub open spec fn onward_after(
    rows: int,
    cols: int,
    obstacles: Seq<u8>,
    walk: Seq<usize>,
    x: usize,
) -> nat {
    free_count(cell_neighbors(rows, cols, x as int), obstacles, visited_by(obstacles.len(), walk))
}

/// Whether, after `walk`, the search tries cell `x` before cell `y`: the cell
/// with fewer onward cells first, ties in the order the board lists the
/// neighbours of the walk's last cell.
pub open spec fn tried_before(
    rows: int,
    cols: int,
    obstacles: Seq<u8>,
    walk: Seq<usize>,
    x: usize,
    y: usize,
) -> bool {
    let kx = onward_after(rows, cols, obstacles, walk, x);
    let ky = onward_after(rows, cols, obstacles, walk, y);
    let listed = cell_neighbors(rows, cols, walk.last() as int);
    kx < ky || (kx == ky && listed.index_of(x) < listed.index_of(y))
}

/// Whether the search comes to path `p` before path `q`: at the first step
/// where they part, the cell of `p` is tried first.
pub open spec fn found_before(rows: int, cols: int, obstacles: Seq<u8>, p: Seq<usize>, q: Seq<usize>) -> bool {
    exists|d: int|
        #![trigger tried_before(rows, cols, obstacles, p.subrange(0, d), p[d], q[d])]
        1 <= d < p.len() && d < q.len() && p.subrange(0, d) == q.subrange(0, d) && p[d] != q[d]
            && tried_before(rows, cols, obstacles, p.subrange(0, d), p[d], q[d])
}

/// Whether the search visits walk `v` before walk `w`: `v` is where `w`
/// starts, or, where they part, the cell of `v` is tried first.
pub open spec fn visited_before(rows: int, cols: int, obstacles: Seq<u8>, v: Seq<usize>, w: Seq<usize>) -> bool {
    (v.len() < w.len() && is_prefix(v, w)) || found_before(rows, cols, obstacles, v, w)
}

/// A walk and a walk it starts do not part.
proof fn lemma_prefix_does_not_part(rows: int, cols: int, obstacles: Seq<u8>, v: Seq<usize>, w: Seq<usize>)
    requires
        is_prefix(v, w),
    ensures
        !found_before(rows, cols, obstacles, v, w),
        !found_before(rows, cols, obstacles, w, v),
{
    if found_before(rows, cols, obstacles, v, w) {
        let d = choose|d: int|
            #![trigger tried_before(rows, cols, obstacles, v.subrange(0, d), v[d], w[d])]
            1 <= d < v.len() && d < w.len() && v.subrange(0, d) == w.subrange(0, d) && v[d] != w[d]
                && tried_before(rows, cols, obstacles, v.subrange(0, d), v[d], w[d]);
        assert(w.subrange(0, v.len() as int)[d] == w[d]);
    }
    if found_before(rows, cols, obstacles, w, v) {
        let d = choose|d: int|
            #![trigger tried_before(rows, cols, obstacles, w.subrange(0, d), w[d], v[d])]
            1 <= d < w.len() && d < v.len() && w.subrange(0, d) == v.subrange(0, d) && w[d] != v[d]
                && tried_before(rows, cols, obstacles, w.subrange(0, d), w[d], v[d]);
        assert(w.subrange(0, v.len() as int)[d] == w[d]);
    }
}

/// Two paths that agree on their first `k` cells and part at cell `k`: one
/// comes first exactly when its cell there is tried first.
proof fn lemma_first_parting(
    rows: int,
    cols: int,
    obstacles: Seq<u8>,
    p: Seq<usize>,
    q: Seq<usize>,
    k: int,
)
    requires
        1 <= k < p.len(),
        k < q.len(),
        p.subrange(0, k) == q.subrange(0, k),
        p[k] != q[k],
    ensures
        found_before(rows, cols, obstacles, p, q) <==> tried_before(
            rows,
            cols,
            obstacles,
            p.subrange(0, k),
            p[k],
            q[k],
        ),
{
    if found_before(rows, cols, obstacles, p, q) {
        let d = choose|d: int|
            #![trigger tried_before(rows, cols, obstacles, p.subrange(0, d), p[d], q[d])]
            1 <= d < p.len() && d < q.len() && p.subrange(0, d) == q.subrange(0, d) && p[d] != q[d]
                && tried_before(rows, cols, obstacles, p.subrange(0, d), p[d], q[d]);
        if d < k {
            assert(p.subrange(0, k)[d] == p[d]);
            assert(q.subrange(0, k)[d] == q[d]);
            assert(false);
        } else if d > k {
            assert(p.subrange(0, d)[k] == p[k]);
            assert(q.subrange(0, d)[k] == q[k]);
            assert(false);
        }
        assert(d == k);
        assert(tried_before(rows, cols, obstacles, p.subrange(0, k), p[k], q[k]));
    }
    if tried_before(rows, cols, obstacles, p.subrange(0, k), p[k], q[k]) {
        assert(found_before(rows, cols, obstacles, p, q));
    }
}

/// A depth-first search over covering paths. `current_path` is the path being
/// extended and `visited` marks its cells; complete paths are collected in
/// `solutions` until `solution_cap` of them are found or `call_cap` visits are
/// spent (then `exhausted` is set).
struct PathSearch<'a> {
    grid: &'a Grid,
    obstacles: &'a [u8],
    visited: Vec<bool>,
    open_count: usize,
    solution_cap: u32,
    call_cap: u32,
    waypoint_at_step: Vec<Option<usize>>,
    reserved_step_by_cell: Vec<Option<usize>>,
    current_path: Vec<usize>,
    solutions: Vec<Vec<usize>>,
    solver_calls: u32,
    exhausted: bool,
    /// The walks the visits so far stood on, one per visit.
    explored: Ghost<Seq<Seq<usize>>>,
}

impl<'a> PathSearch<'a> {
    spec fn is_solution(&self, path: Seq<usize>) -> bool {
        search_solution(
            self.grid.rows() as int,
            self.grid.cols() as int,
            self.obstacles@,
            self.waypoint_at_step@,
            path,
        )
    }

    /// Whether the search visits walk `v` before walk `w`.
    spec fn walk_before(&self, v: Seq<usize>, w: Seq<usize>) -> bool {
        visited_before(self.grid.rows() as int, self.grid.cols() as int, self.obstacles@, v, w)
    }

    /// Whether the search comes to path `p` before path `q`.
    spec fn comes_before(&self, p: Seq<usize>, q: Seq<usize>) -> bool {
        found_before(self.grid.rows() as int, self.grid.cols() as int, self.obstacles@, p, q)
    }

    /// The search may not go on: the cap on solutions or on visits is reached.
    spec fn stopped(&self) -> bool {
        self.exhausted || self.solutions@.len() >= self.solution_cap
    }

    /// What stays fixed during a search.
    spec fn same_setting(&self, other: &Self) -> bool {
        &&& self.grid == other.grid
        &&& self.obstacles@ == other.obstacles@
        &&& self.open_count == other.open_count
        &&& self.solution_cap == other.solution_cap
        &&& self.call_cap == other.call_cap
        &&& self.waypoint_at_step@ == other.waypoint_at_step@
        &&& self.reserved_step_by_cell@ == other.reserved_step_by_cell@
    }

    spec fn can_visit_spec(&self, next: int, next_step: int) -> bool {
        &&& 0 <= next < self.obstacles@.len()
        &&& self.obstacles@[next] == 0u8
        &&& !self.visited@[next]
        &&& !(self.reserved_step_by_cell@[next] is Some && self.reserved_step_by_cell@[next]->0
            != next_step)
    }

    spec fn inv(&self) -> bool {
        &&& self.grid.wf()
        &&& self.obstacles@.len() == self.grid.rows() * self.grid.cols()
        &&& self.obstacles@.len() <= isize::MAX
        &&& self.open_count == open_cell_count(self.obstacles@)
        &&& 1 <= self.open_count
        &&& 1 <= self.solution_cap
        &&& 1 <= self.call_cap
        &&& tables_sound(self.obstacles@, self.waypoint_at_step@, self.reserved_step_by_cell@)
        &&& self.visited@.len() == self.obstacles@.len()
        &&& self.solutions@.len() <= self.solution_cap
        &&& forall|i: int| 0 <= i < self.solutions@.len() ==> self.is_solution(#[trigger] self.solutions@[i]@)
        &&& all_distinct(self.solutions@)
        &&& self.exhausted ==> self.solver_calls == self.call_cap
        &&& !self.exhausted ==> self.solver_calls < self.call_cap
        &&& self.explored@.len() == self.solver_calls
        &&& self.explored@.no_duplicates()
        &&& forall|i: int| 0 <= i < self.explored@.len() ==> self.is_partial(#[trigger] self.explored@[i])
        &&& self.exhausted ==> self.solutions@.len() < self.solution_cap
        &&& self.exhausted ==> self.explored@.len() > 0 && !found(self.solutions@, self.explored@.last())
        &&& (!self.exhausted && self.solutions@.len() >= self.solution_cap) ==> self.explored@.len() > 0
            && self.explored@.last() == self.solutions@.last()@
        &&& forall|i: int| 0 <= i < self.solutions@.len() ==> self.explored@.contains(#[trigger] self.solutions@[i]@)
        &&& forall|j: int|
            0 <= j < self.explored@.len() && (#[trigger] self.explored@[j]).len() == self.open_count
                && !(self.exhausted && j == self.explored@.len() - 1) ==> found(self.solutions@, self.explored@[j])
    }

    /// A walk the search can stand on, with the fixed steps read from the table.
    spec fn is_partial(&self, walk: Seq<usize>) -> bool {
        &&& walk_shape(self.grid.rows() as int, self.grid.cols() as int, self.obstacles@, walk)
        &&& meets_steps(self.waypoint_at_step@, walk)
        &&& keeps_reserved(self.reserved_step_by_cell@, walk)
    }

    /// The path being extended: a simple walk over open cells that meets every
    /// fixed step so far, with `visited` marking exactly its cells.
    spec fn path_ok(&self) -> bool {
        let path = self.current_path@;
        &&& 1 <= path.len() <= self.open_count
        &&& forall|i: int|
            0 <= i < path.len() ==> (#[trigger] path[i]) < self.obstacles@.len()
                && self.obstacles@[path[i] as int] == 0u8
        &&& path.no_duplicates()
        &&& forall|i: int|
            0 <= i < path.len() - 1 ==> #[trigger] linked(
                self.grid.rows() as int,
                self.grid.cols() as int,
                path,
                i,
            )
        &&& meets_steps(self.waypoint_at_step@, path)
        &&& keeps_reserved(self.reserved_step_by_cell@, path)
        &&& forall|c: int| 0 <= c < self.visited@.len() ==> #[trigger] self.visited@[c] == path.contains(c as usize)
    }

    fn can_visit(&self, next: usize, next_step: usize) -> (ok: bool)
        requires
            self.inv(),
            next < self.obstacles@.len(),
        ensures
            ok == self.can_visit_spec(next as int, next_step as int),
    {
        self.obstacles[next] == 0 && !self.visited[next] && !future_reserved_cell_is_early(
            self.reserved_step_by_cell.as_slice(),
            next,
            next_step,
        )
    }

    /// How many neighbours of `idx` are open and not yet visited.
    fn onward_count(&self, idx: usize) -> (count: usize)
        requires
            self.inv(),
            idx < self.obstacles@.len(),
        ensures
            count == free_count(
                cell_neighbors(self.grid.rows() as int, self.grid.cols() as int, idx as int),
                self.obstacles@,
                self.visited@,
            ),
    {
        proof {
            lemma_cell_neighbors_facts(self.grid.rows() as int, self.grid.cols() as int, idx as int);
        }
        let list = self.grid.neighbors(idx);
        let mut count: usize = 0;
        let mut i: usize = 0;
        while i < list.len()
            invariant
                self.inv(),
                list@ == cell_neighbors(self.grid.rows() as int, self.grid.cols() as int, idx as int),
                forall|j: int| 0 <= j < list@.len() ==> (#[trigger] list@[j]) < self.obstacles@.len(),
                list@.len() <= 4,
                i <= list@.len(),
                count <= i,
                count == free_count(list@.take(i as int), self.obstacles@, self.visited@),
            decreases list@.len() - i,
        {
            assert(list@.take(i + 1).drop_last() =~= list@.take(i as int));
            let next = list[i];
            if self.obstacles[next] == 0 && !self.visited[next] {
                count = count + 1;
            }
            i = i + 1;
        }
        assert(list@.take(list@.len() as int) =~= list@);
        count
    }

    /// A solution that extends the current path goes on to a cell the search
    /// offers next: a neighbour of the last cell that it may enter at the next
    /// step.
    proof fn lemma_solution_continues(&self, p: Seq<usize>)
        requires
            self.inv(),
            self.path_ok(),
            self.is_solution(p),
            is_prefix(self.current_path@, p),
            self.current_path@.len() < self.open_count,
        ensures
            ({
                let k = self.current_path@.len() as int;
                &&& k < p.len()
                &&& cell_neighbors(
                    self.grid.rows() as int,
                    self.grid.cols() as int,
                    self.current_path@.last() as int,
                ).contains(p[k])
                &&& self.can_visit_spec(p[k] as int, k + 1)
                &&& (self.waypoint_at_step@[k + 1] is Some ==> p[k] == self.waypoint_at_step@[k
                    + 1]->0)
            }),
    {
        let cp = self.current_path@;
        let k = cp.len() as int;
        let x = p[k];
        assert(p.subrange(0, k) == cp);
        assert(p[k - 1] == cp[k - 1]);
        assert(linked(self.grid.rows() as int, self.grid.cols() as int, p, k - 1));
        assert(x < self.obstacles@.len());
        assert(!self.visited@[x as int]) by {
            if cp.contains(x) {
                let j = choose|j: int| 0 <= j < cp.len() && cp[j] == x;
                assert(p.subrange(0, k)[j] == p[j]);
                assert(p[j] == p[k]);
            }
        }
        let res = self.reserved_step_by_cell@;
        let at = self.waypoint_at_step@;
        if res[x as int] is Some {
            let st = res[x as int]->0 as int;
            assert(at[st] == Some(x));
            assert(1 <= st <= p.len());
            assert(p[st - 1] == at[st]->0);
            assert(st - 1 == k);
        }
        if at[k + 1] is Some {
            assert(p[k] == at[k + 1]->0);
        }
    }

    /// A walk the search can stand on that extends the current path goes on to a
    /// cell the search offers next.
    proof fn lemma_walk_continues(&self, w: Seq<usize>)
        requires
            self.inv(),
            self.path_ok(),
            self.is_partial(w),
            is_prefix(self.current_path@, w),
            self.current_path@.len() < w.len(),
        ensures
            ({
                let k = self.current_path@.len() as int;
                &&& cell_neighbors(
                    self.grid.rows() as int,
                    self.grid.cols() as int,
                    self.current_path@.last() as int,
                ).contains(w[k])
                &&& self.can_visit_spec(w[k] as int, k + 1)
                &&& (self.waypoint_at_step@[k + 1] is Some ==> w[k] == self.waypoint_at_step@[k
                    + 1]->0)
            }),
    {
        let cp = self.current_path@;
        let k = cp.len() as int;
        let x = w[k];
        assert(w.subrange(0, k) == cp);
        assert(w[k - 1] == cp[k - 1]);
        assert(linked(self.grid.rows() as int, self.grid.cols() as int, w, k - 1));
        assert(x < self.obstacles@.len());
        assert(!self.visited@[x as int]) by {
            if cp.contains(x) {
                let j = choose|j: int| 0 <= j < cp.len() && cp[j] == x;
                assert(w.subrange(0, k)[j] == w[j]);
                assert(w[j] == w[k]);
            }
        }
        if self.reserved_step_by_cell@[x as int] is Some {
            assert(self.reserved_step_by_cell@[w[k] as int]->0 == k + 1);
        }
        let at = self.waypoint_at_step@;
        if at[k + 1] is Some {
            assert(w[k] == at[k + 1]->0);
        }
    }

    /// Explores every extension of the current path, collecting the complete
    /// ones, until the solution cap or the visit cap is reached.
    #[verifier::spinoff_prover]
    fn visit(&mut self, current: usize, visited_count: usize)
        requires
            old(self).inv(),
            old(self).path_ok(),
            visited_count == old(self).current_path@.len(),
            current == old(self).current_path@.last(),
            forall|i: int|
                0 <= i < old(self).solutions@.len() ==> !is_prefix(
                    old(self).current_path@,
                    #[trigger] old(self).solutions@[i]@,
                ),
            forall|i: int|
                0 <= i < old(self).explored@.len() ==> !is_prefix(
                    old(self).current_path@,
                    #[trigger] old(self).explored@[i],
                ),
        ensures
            final(self).inv(),
            final(self).same_setting(old(self)),
            final(self).current_path@ == old(self).current_path@,
            final(self).visited@ == old(self).visited@,
            final(self).solutions@.len() >= old(self).solutions@.len(),
            forall|i: int|
                0 <= i < old(self).solutions@.len() ==> final(self).solutions@[i] == old(
                    self,
                ).solutions@[i],
            forall|i: int|
                old(self).solutions@.len() <= i < final(self).solutions@.len() ==> is_prefix(
                    old(self).current_path@,
                    #[trigger] final(self).solutions@[i]@,
                ),
            final(self).explored@.len() >= old(self).explored@.len(),
            forall|i: int|
                0 <= i < old(self).explored@.len() ==> final(self).explored@[i] == old(
                    self,
                ).explored@[i],
            forall|i: int|
                old(self).explored@.len() <= i < final(self).explored@.len() ==> is_prefix(
                    old(self).current_path@,
                    #[trigger] final(self).explored@[i],
                ),
            old(self).exhausted ==> final(self).exhausted,
            old(self).stopped() ==> final(self).solutions@.len() == old(self).solutions@.len(),
            old(self).stopped() ==> final(self).explored@.len() == old(self).explored@.len(),
            forall|a: int, b: int|
                old(self).explored@.len() <= a < b < final(self).explored@.len()
                    ==> final(self).walk_before(
                    #[trigger] final(self).explored@[a],
                    #[trigger] final(self).explored@[b],
                ),
            forall|w: Seq<usize>, j: int|
                old(self).explored@.len() <= j < final(self).explored@.len() && final(self).is_partial(w)
                    && is_prefix(old(self).current_path@, w) && #[trigger] final(self).walk_before(
                    w,
                    final(self).explored@[j],
                ) ==> final(self).explored@.contains(w),
            !final(self).stopped() ==> forall|w: Seq<usize>|
                #[trigger] final(self).is_partial(w) && is_prefix(old(self).current_path@, w)
                    ==> final(self).explored@.contains(w),
            forall|a: int, b: int|
                old(self).solutions@.len() <= a < b < final(self).solutions@.len()
                    ==> final(self).comes_before(
                    (#[trigger] final(self).solutions@[a])@,
                    (#[trigger] final(self).solutions@[b])@,
                ),
            forall|q: Seq<usize>, j: int|
                old(self).solutions@.len() <= j < final(self).solutions@.len() && final(self).is_solution(q)
                    && is_prefix(old(self).current_path@, q) && #[trigger] final(self).comes_before(
                    q,
                    final(self).solutions@[j]@,
                ) ==> found(final(self).solutions@, q),
            final(self).solver_calls >= old(self).solver_calls,
            !old(self).stopped() ==> final(self).solver_calls >= 1,
            (!final(self).exhausted && final(self).solutions@.len() < final(self).solution_cap)
                ==> forall|p: Seq<usize>|
                #[trigger] final(self).is_solution(p) && is_prefix(old(self).current_path@, p)
                    ==> found(final(self).solutions@, p),
        decreases old(self).open_count - visited_count,
    {
        if self.solutions.len() as u32 >= self.solution_cap || self.exhausted {
            return;
        }
        self.solver_calls = self.solver_calls + 1;
        proof {
            let cp = self.current_path@;
            assert(is_prefix(cp, cp)) by {
                assert(cp.subrange(0, cp.len() as int) =~= cp);
            }
            assert(!old(self).explored@.contains(cp));
        }
        self.explored = Ghost(self.explored@.push(self.current_path@));
        proof {
            let ex = self.explored@;
            let oe = old(self).explored@;
            assert forall|i: int| 0 <= i < self.solutions@.len() implies ex.contains(
                #[trigger] self.solutions@[i]@,
            ) by {
                let t = choose|t: int| 0 <= t < oe.len() && oe[t] == self.solutions@[i]@;
                assert(ex[t] == oe[t]);
            }
            assert forall|j: int|
                0 <= j < ex.len() - 1 && (#[trigger] ex[j]).len() == self.open_count implies found(
                self.solutions@,
                ex[j],
            ) by {
                assert(ex[j] == oe[j]);
            }
        }
        if self.solver_calls >= self.call_cap {
            self.exhausted = true;
            return;
        }
        match self.waypoint_at_step[visited_count] {
            Some(expected) => {
                if expected != current {
                    proof {
                        assert(self.current_path@[visited_count - 1] == expected);
                    }
                    return;
                }
            },
            None => {},
        }
        let ghost cp = self.current_path@;
        let ghost vis0 = self.visited@;
        let ghost s0 = self.solutions@;
        let ghost e0 = self.explored@;
        let ghost k = visited_count as int;
        if visited_count == self.open_count {
            let done = self.current_path.clone();
            assert(done@ =~= cp);
            self.solutions.push(done);
            proof {
                let sols = self.solutions@;
                assert(sols[s0.len() as int]@ == cp);
                assert(is_prefix(cp, cp)) by {
                    assert(cp.subrange(0, cp.len() as int) =~= cp);
                }
                assert forall|i: int| 0 <= i < sols.len() implies self.is_solution(#[trigger] sols[i]@) by {
                    if i < s0.len() {
                        assert(sols[i] == s0[i]);
                    }
                }
                assert forall|i: int, j: int|
                    0 <= i < sols.len() && 0 <= j < sols.len() && i != j implies (#[trigger] sols[i])@
                    != (#[trigger] sols[j])@ by {
                    if i < s0.len() && j < s0.len() {
                        assert(s0[i]@ != s0[j]@);
                    } else if i < s0.len() {
                        assert(!is_prefix(cp, s0[i]@));
                    } else if j < s0.len() {
                        assert(!is_prefix(cp, s0[j]@));
                    }
                }
                assert forall|p: Seq<usize>| #[trigger]
                    self.is_solution(p) && is_prefix(cp, p) implies found(sols, p) by {
                    assert(p.len() == cp.len());
                    assert(p =~= p.subrange(0, cp.len() as int));
                    assert(sols[s0.len() as int]@ == p);
                }
                assert forall|w: Seq<usize>| #[trigger]
                    self.is_partial(w) && is_prefix(cp, w) implies self.explored@.contains(w) by {
                    assert(w =~= w.subrange(0, cp.len() as int));
                    assert(self.explored@[e0.len() - 1] == cp);
                }
                let ex = self.explored@;
                assert(ex[ex.len() - 1] == cp);
                assert forall|j: int|
                    0 <= j < ex.len() && (#[trigger] ex[j]).len() == self.open_count && !(self.exhausted
                        && j == ex.len() - 1) implies found(sols, ex[j]) by {
                    if j < ex.len() - 1 {
                        assert(found(s0, ex[j]));
                        let t = choose|t: int| 0 <= t < s0.len() && (#[trigger] s0[t])@ == ex[j];
                        assert(sols[t] == s0[t]);
                    }
                }
                assert forall|i: int| 0 <= i < sols.len() implies ex.contains(#[trigger] sols[i]@) by {
                    if i < s0.len() {
                        assert(sols[i] == s0[i]);
                    }
                }
            }
            return;
        }
        let next_step = visited_count + 1;
        proof {
            assert(self.explored@[self.explored@.len() - 1] == cp);
        }
        let available = self.available_neighbors(current, next_step);
        let neighbors = self.order_by_onward_count(available);
        let ghost after_check = *self;
        let mut i: usize = 0;
        while i < neighbors.len()
            invariant
                self.inv(),
                self.path_ok(),
                self.same_setting(old(self)),
                self.same_setting(&after_check),
                after_check.inv(),
                after_check.path_ok(),
                after_check.current_path@ == cp,
                k == cp.len(),
                k == visited_count,
                visited_count < self.open_count,
                next_step == visited_count + 1,
                current == cp.last(),
                self.current_path@ == cp,
                self.visited@ == vis0,
                after_check.visited@ == vis0,
                s0 == old(self).solutions@,
                cp == old(self).current_path@,
                vis0 == old(self).visited@,
                self.solver_calls >= 1,
                self.solver_calls >= old(self).solver_calls,
                i <= neighbors@.len(),
                neighbors@.no_duplicates(),
                forall|j: int| 0 <= j < neighbors@.len() ==> (#[trigger] neighbors@[j]) < self.obstacles@.len(),
                forall|x: usize|
                    #[trigger] neighbors@.contains(x) <==> {
                        &&& cell_neighbors(self.grid.rows() as int, self.grid.cols() as int, current as int).contains(x)
                        &&& after_check.can_visit_spec(x as int, next_step as int)
                        &&& (self.waypoint_at_step@[next_step as int] is Some ==> x
                            == self.waypoint_at_step@[next_step as int]->0)
                    },
                forall|j: int| 0 <= j < s0.len() ==> !is_prefix(cp, #[trigger] s0[j]@),
                forall|a: int, b: int|
                    0 <= a < b < neighbors@.len() ==> tried_before(
                        self.grid.rows() as int,
                        self.grid.cols() as int,
                        self.obstacles@,
                        cp,
                        #[trigger] neighbors@[a],
                        #[trigger] neighbors@[b],
                    ),
                forall|a: int, b: int|
                    s0.len() <= a < b < self.solutions@.len() ==> self.comes_before(
                        (#[trigger] self.solutions@[a])@,
                        (#[trigger] self.solutions@[b])@,
                    ),
                forall|q: Seq<usize>, j: int|
                    s0.len() <= j < self.solutions@.len() && self.is_solution(q) && is_prefix(cp, q)
                        && #[trigger] self.comes_before(q, self.solutions@[j]@) ==> found(self.solutions@, q),
                !self.stopped() ==> forall|w: Seq<usize>|
                    #[trigger] self.is_partial(w) && is_prefix(cp, w) && w.len() > k && neighbors@.take(
                        i as int,
                    ).contains(w[k]) ==> self.explored@.contains(w),
                forall|a: int, b: int|
                    e0.len() - 1 <= a < b < self.explored@.len() ==> self.walk_before(
                        #[trigger] self.explored@[a],
                        #[trigger] self.explored@[b],
                    ),
                forall|w: Seq<usize>, j: int|
                    e0.len() - 1 <= j < self.explored@.len() && self.is_partial(w) && is_prefix(cp, w)
                        && #[trigger] self.walk_before(w, self.explored@[j]) ==> self.explored@.contains(w),
                e0 == old(self).explored@.push(cp),
                forall|j: int| 0 <= j < e0.len() - 1 ==> !is_prefix(cp, #[trigger] e0[j]),
                self.explored@.len() >= e0.len(),
                forall|j: int| 0 <= j < e0.len() ==> self.explored@[j] == e0[j],
                forall|j: int|
                    e0.len() <= j < self.explored@.len() ==> is_prefix(cp, #[trigger] self.explored@[j])
                        && self.explored@[j].len() > k && neighbors@.take(i as int).contains(
                        self.explored@[j][k],
                    ),
                self.solutions@.len() >= s0.len(),
                forall|j: int| 0 <= j < s0.len() ==> self.solutions@[j] == s0[j],
                forall|j: int|
                    s0.len() <= j < self.solutions@.len() ==> is_prefix(cp, #[trigger] self.solutions@[j]@)
                        && neighbors@.take(i as int).contains(self.solutions@[j]@[k]),
                !self.stopped() ==> forall|p: Seq<usize>|
                    #[trigger] self.is_solution(p) && is_prefix(cp, p) && neighbors@.take(i as int).contains(p[k])
                        ==> found(self.solutions@, p),
            decreases neighbors@.len() - i,
        {
            let next = neighbors[i];
            let ghost before = *self;
            proof {
                assert(neighbors@.contains(next));
                assert(!neighbors@.take(i as int).contains(next)) by {
                    if neighbors@.take(i as int).contains(next) {
                        let j = choose|j: int| 0 <= j < i && #[trigger] neighbors@.take(i as int)[j] == next;
                        assert(neighbors@[j] == neighbors@[i as int]);
                    }
                }
                assert(!before.visited@[next as int]);
                assert(!cp.contains(next));
            }
            self.visited.set(next, true);
            self.current_path.push(next);
            proof {
                let np = self.current_path@;
                assert(np == cp.push(next));
                assert(np.subrange(0, k) =~= cp);
                assert forall|a: int, b: int| 0 <= a < np.len() && 0 <= b < np.len() && a != b implies
                    #[trigger] np[a] != #[trigger] np[b] by {
                    if a == k {
                        assert(cp.contains(np[b]));
                    } else if b == k {
                        assert(cp.contains(np[a]));
                    } else {
                        assert(cp[a] != cp[b]);
                    }
                }
                assert forall|j: int| 0 <= j < np.len() - 1 implies #[trigger] linked(
                    self.grid.rows() as int,
                    self.grid.cols() as int,
                    np,
                    j,
                ) by {
                    if j < k - 1 {
                        assert(linked(self.grid.rows() as int, self.grid.cols() as int, cp, j));
                    }
                }
                assert forall|c: int| 0 <= c < self.visited@.len() implies #[trigger] self.visited@[c]
                    == np.contains(c as usize) by {
                    if c == next {
                        assert(np[k] == next);
                    } else {
                        if np.contains(c as usize) {
                            let j = choose|j: int| 0 <= j < np.len() && np[j] == c as usize;
                            assert(cp[j] == c as usize);
                        }
                        if cp.contains(c as usize) {
                            let j = choose|j: int| 0 <= j < cp.len() && cp[j] == c as usize;
                            assert(np[j] == c as usize);
                        }
                    }
                }
                assert(meets_steps(self.waypoint_at_step@, np)) by {
                    assert forall|st: int|
                        1 <= st <= np.len() && st < self.waypoint_at_step@.len() && (
                        #[trigger] self.waypoint_at_step@[st]) is Some implies np[st - 1]
                        == self.waypoint_at_step@[st]->0 by {
                        if st <= k {
                            assert(cp[st - 1] == self.waypoint_at_step@[st]->0);
                        }
                    }
                }
                assert forall|j: int| 0 <= j < self.solutions@.len() implies !is_prefix(
                    np,
                    #[trigger] self.solutions@[j]@,
                ) by {
                    let x = self.solutions@[j]@;
                    if is_prefix(np, x) {
                        assert(x.subrange(0, np.len() as int)[k] == next);
                        assert(x[k] == next);
                        assert(x.subrange(0, k) =~= x.subrange(0, np.len() as int).subrange(0, k));
                        assert(is_prefix(cp, x));
                        if j < s0.len() {
                            assert(self.solutions@[j] == s0[j]);
                        } else {
                            assert(neighbors@.take(i as int).contains(x[k]));
                        }
                    }
                }
                assert forall|j: int| 0 <= j < self.explored@.len() implies !is_prefix(
                    np,
                    #[trigger] self.explored@[j],
                ) by {
                    let x = self.explored@[j];
                    if is_prefix(np, x) {
                        assert(x.subrange(0, np.len() as int)[k] == next);
                        assert(x[k] == next);
                        assert(x.subrange(0, k) =~= x.subrange(0, np.len() as int).subrange(0, k));
                        assert(is_prefix(cp, x));
                        if j < e0.len() {
                            assert(x == e0[j]);
                            if j == e0.len() - 1 {
                                assert(e0[j] == cp);
                            }
                        } else {
                            assert(neighbors@.take(i as int).contains(x[k]));
                        }
                    }
                }
            }
            let ghost pre_child = *self;
            self.visit(next, visited_count + 1);
            let ghost after_child = *self;
            self.current_path.pop();
            self.visited.set(next, false);
            proof {
                assert(self.current_path@ =~= cp);
                assert(self.visited@ =~= vis0);
                let sols = self.solutions@;
                assert(neighbors@.take(i + 1) =~= neighbors@.take(i as int).push(next));
                assert forall|j: int| s0.len() <= j < sols.len() implies is_prefix(
                    cp,
                    #[trigger] sols[j]@,
                ) && neighbors@.take(i + 1).contains(sols[j]@[k]) by {
                    if j < before.solutions@.len() {
                        assert(sols[j] == before.solutions@[j]);
                        let t = choose|t: int| 0 <= t < i && #[trigger] neighbors@.take(i as int)[t] == sols[j]@[k];
                        assert(neighbors@.take(i + 1)[t] == sols[j]@[k]);
                    } else {
                        let x = sols[j]@;
                        let np = cp.push(next);
                        assert(is_prefix(np, x));
                        assert(x.subrange(0, np.len() as int)[k] == next);
                        assert(x.subrange(0, k) =~= x.subrange(0, np.len() as int).subrange(0, k));
                        assert(neighbors@.take(i + 1)[i as int] == next);
                    }
                }
                let rows = self.grid.rows() as int;
                let cols = self.grid.cols() as int;
                let bl = before.solutions@.len() as int;
                let np = cp.push(next);
                assert(pre_child.solutions@ == before.solutions@);
                assert(pre_child.stopped() == before.stopped());
                assert forall|j: int| bl <= j < sols.len() implies (#[trigger] sols[j])@.subrange(0, k) == cp
                    && sols[j]@[k] == next && sols[j]@.len() > k by {
                    let y = sols[j]@;
                    assert(is_prefix(np, y));
                    assert(y.subrange(0, np.len() as int)[k] == next);
                    assert(y.subrange(0, k) =~= y.subrange(0, np.len() as int).subrange(0, k));
                }
                assert forall|a: int, b: int| s0.len() <= a < b < sols.len() implies self.comes_before(
                    (#[trigger] sols[a])@,
                    (#[trigger] sols[b])@,
                ) by {
                    if b < bl {
                        assert(sols[a] == before.solutions@[a]);
                        assert(sols[b] == before.solutions@[b]);
                        assert(before.comes_before(before.solutions@[a]@, before.solutions@[b]@));
                    } else if a >= bl {
                        assert(after_child.comes_before(
                            after_child.solutions@[a]@,
                            after_child.solutions@[b]@,
                        ));
                    } else {
                        let x = sols[a]@;
                        let y = sols[b]@;
                        assert(sols[a] == before.solutions@[a]);
                        assert(is_prefix(cp, x));
                        assert(neighbors@.take(i as int).contains(x[k]));
                        let t = choose|t: int| 0 <= t < i && #[trigger] neighbors@.take(i as int)[t] == x[k];
                        assert(neighbors@[t] == x[k]);
                        assert(neighbors@[i as int] == next);
                        assert(x[k] != next);
                        assert(self.is_solution(x));
                        assert(tried_before(rows, cols, self.obstacles@, cp, neighbors@[t], neighbors@[i as int]));
                        lemma_first_parting(rows, cols, self.obstacles@, x, y, k);
                    }
                }
                assert forall|q: Seq<usize>, j: int|
                    s0.len() <= j < sols.len() && self.is_solution(q) && is_prefix(cp, q)
                        && #[trigger] self.comes_before(q, sols[j]@) implies found(sols, q) by {
                    if j < bl {
                        assert(sols[j] == before.solutions@[j]);
                        assert(before.comes_before(q, before.solutions@[j]@));
                        assert(found(before.solutions@, q));
                        let t = choose|t: int| 0 <= t < before.solutions@.len() && (#[trigger] before.solutions@[t])@ == q;
                        assert(sols[t] == before.solutions@[t]);
                    } else {
                        assert(!before.stopped());
                        let y = sols[j]@;
                        assert(q.len() > k);
                        assert(q.subrange(0, k) == cp);
                        if q[k] == next {
                            assert(q.subrange(0, np.len() as int) =~= np);
                            assert(is_prefix(np, q));
                            assert(after_child.is_solution(q));
                            assert(after_child.comes_before(q, after_child.solutions@[j]@));
                        } else if neighbors@.take(i as int).contains(q[k]) {
                            assert(before.is_solution(q));
                            assert(found(before.solutions@, q));
                            let t = choose|t: int| 0 <= t < before.solutions@.len() && (#[trigger] before.solutions@[t])@ == q;
                            assert(sols[t] == before.solutions@[t]);
                        } else {
                            after_check.lemma_solution_continues(q);
                            assert(neighbors@.contains(q[k]));
                            let t = choose|t: int| 0 <= t < neighbors@.len() && neighbors@[t] == q[k];
                            if t < i {
                                assert(neighbors@.take(i as int)[t] == q[k]);
                            }
                            assert(t > i);
                            assert(tried_before(rows, cols, self.obstacles@, cp, neighbors@[i as int], neighbors@[t]));
                            lemma_first_parting(rows, cols, self.obstacles@, q, y, k);
                        }
                    }
                }
                if !self.stopped() {
                    assert(!before.stopped());
                    assert forall|w: Seq<usize>| #[trigger]
                        self.is_partial(w) && is_prefix(cp, w) && w.len() > k && neighbors@.take(
                            i + 1,
                        ).contains(w[k]) implies self.explored@.contains(w) by {
                        assert(w.subrange(0, k) == cp);
                        if w[k] == next {
                            assert(w.subrange(0, np.len() as int) =~= np);
                            assert(after_child.is_partial(w));
                            assert(after_child.explored@.contains(w));
                        } else {
                            let t = choose|t: int| 0 <= t < i + 1 && #[trigger] neighbors@.take(i + 1)[t] == w[k];
                            assert(t != i);
                            assert(neighbors@.take(i as int)[t] == w[k]);
                            assert(before.is_partial(w));
                            assert(before.explored@.contains(w));
                            let u = choose|u: int| 0 <= u < before.explored@.len() && before.explored@[u] == w;
                            assert(pre_child.explored@ == before.explored@);
                            assert(self.explored@[u] == before.explored@[u]);
                        }
                    }
                }
                let ex = self.explored@;
                let el = before.explored@.len() as int;
                assert(pre_child.explored@ == before.explored@);
                assert(pre_child.stopped() == before.stopped());
                assert forall|j: int| el <= j < ex.len() implies (#[trigger] ex[j]).subrange(0, k) == cp
                    && ex[j][k] == next && ex[j].len() > k by {
                    let y = ex[j];
                    assert(is_prefix(np, y));
                    assert(y.subrange(0, np.len() as int)[k] == next);
                    assert(y.subrange(0, k) =~= y.subrange(0, np.len() as int).subrange(0, k));
                }
                assert forall|a: int, b: int| e0.len() - 1 <= a < b < ex.len() implies self.walk_before(
                    #[trigger] ex[a],
                    #[trigger] ex[b],
                ) by {
                    if b < el {
                        assert(ex[a] == before.explored@[a]);
                        assert(ex[b] == before.explored@[b]);
                        assert(before.walk_before(before.explored@[a], before.explored@[b]));
                    } else if a >= el {
                        assert(after_child.walk_before(after_child.explored@[a], after_child.explored@[b]));
                    } else {
                        let x = ex[a];
                        let y = ex[b];
                        assert(ex[a] == before.explored@[a]);
                        if a == e0.len() - 1 {
                            assert(before.explored@[a] == e0[a]);
                            assert(x == cp);
                            assert(is_prefix(cp, y)) by {
                                assert(y.subrange(0, k) == cp);
                            }
                        } else {
                            assert(is_prefix(cp, x));
                            assert(x.len() > k);
                            assert(neighbors@.take(i as int).contains(x[k]));
                            let t = choose|t: int| 0 <= t < i && #[trigger] neighbors@.take(i as int)[t] == x[k];
                            assert(neighbors@[t] == x[k]);
                            assert(neighbors@[i as int] == next);
                            assert(x[k] != next);
                            assert(x.subrange(0, k) == cp);
                            assert(tried_before(rows, cols, self.obstacles@, cp, neighbors@[t], neighbors@[i as int]));
                            lemma_first_parting(rows, cols, self.obstacles@, x, y, k);
                        }
                    }
                }
                assert forall|w: Seq<usize>, j: int|
                    e0.len() - 1 <= j < ex.len() && self.is_partial(w) && is_prefix(cp, w)
                        && #[trigger] self.walk_before(w, ex[j]) implies ex.contains(w) by {
                    if j < el {
                        assert(ex[j] == before.explored@[j]);
                        assert(before.walk_before(w, before.explored@[j]));
                        assert(before.is_partial(w));
                        assert(before.explored@.contains(w));
                        let u = choose|u: int| 0 <= u < before.explored@.len() && before.explored@[u] == w;
                        assert(ex[u] == before.explored@[u]);
                    } else {
                        let y = ex[j];
                        assert(!before.stopped());
                        assert(w.subrange(0, k) == cp);
                        if w.len() == k {
                            assert(w =~= cp);
                            assert(ex[e0.len() - 1] == before.explored@[e0.len() - 1]);
                            assert(before.explored@[e0.len() - 1] == e0[e0.len() - 1]);
                        } else if w[k] == next {
                            assert(w.subrange(0, np.len() as int) =~= np);
                            assert(is_prefix(np, w));
                            assert(after_child.is_partial(w));
                            assert(after_child.walk_before(w, after_child.explored@[j]));
                        } else if neighbors@.take(i as int).contains(w[k]) {
                            assert(before.is_partial(w));
                            assert(before.explored@.contains(w));
                            let u = choose|u: int| 0 <= u < before.explored@.len() && before.explored@[u] == w;
                            assert(ex[u] == before.explored@[u]);
                        } else {
                            after_check.lemma_walk_continues(w);
                            assert(neighbors@.contains(w[k]));
                            let t = choose|t: int| 0 <= t < neighbors@.len() && neighbors@[t] == w[k];
                            if t < i {
                                assert(neighbors@.take(i as int)[t] == w[k]);
                            }
                            assert(t > i);
                            assert(tried_before(rows, cols, self.obstacles@, cp, neighbors@[i as int], neighbors@[t]));
                            lemma_first_parting(rows, cols, self.obstacles@, w, y, k);
                            if w.len() < y.len() && is_prefix(w, y) {
                                assert(y.subrange(0, w.len() as int)[k] == w[k]);
                            }
                            assert(false);
                        }
                    }
                }
                assert forall|j: int| e0.len() <= j < ex.len() implies is_prefix(
                    cp,
                    #[trigger] ex[j],
                ) && ex[j].len() > k && neighbors@.take(i + 1).contains(ex[j][k]) by {
                    if j < before.explored@.len() {
                        assert(ex[j] == before.explored@[j]);
                        let t = choose|t: int| 0 <= t < i && #[trigger] neighbors@.take(i as int)[t] == ex[j][k];
                        assert(neighbors@.take(i + 1)[t] == ex[j][k]);
                    } else {
                        let x = ex[j];
                        let np = cp.push(next);
                        assert(is_prefix(np, x));
                        assert(x.subrange(0, np.len() as int)[k] == next);
                        assert(x.subrange(0, k) =~= x.subrange(0, np.len() as int).subrange(0, k));
                        assert(neighbors@.take(i + 1)[i as int] == next);
                    }
                }
                if !self.stopped() {
                    assert(!before.stopped());
                    assert forall|p: Seq<usize>| #[trigger]
                        self.is_solution(p) && is_prefix(cp, p) && neighbors@.take(i + 1).contains(p[k])
                            implies found(self.solutions@, p) by {
                        assert(before.is_solution(p));
                        if neighbors@.take(i as int).contains(p[k]) {
                            assert(found(before.solutions@, p));
                            let t = choose|t: int| 0 <= t < before.solutions@.len() && (#[trigger] before.solutions@[t])@ == p;
                            assert(self.solutions@[t] == before.solutions@[t]);
                        } else {
                            let t = choose|t: int| 0 <= t < i + 1 && #[trigger] neighbors@.take(i + 1)[t] == p[k];
                            if t < i {
                                assert(neighbors@.take(i as int)[t] == p[k]);
                            }
                            assert(p[k] == next);
                            let np = cp.push(next);
                            assert(p.subrange(0, np.len() as int) =~= np) by {
                                assert(p.subrange(0, k) == cp);
                            }
                            assert(after_child.is_solution(p));
                        }
                    }
                }
            }
            i = i + 1;
        }
        proof {
            assert(neighbors@.take(neighbors@.len() as int) =~= neighbors@);
            assert(is_prefix(cp, cp)) by {
                assert(cp.subrange(0, cp.len() as int) =~= cp);
            }
            if !self.stopped() {
                assert forall|w: Seq<usize>| #[trigger]
                    self.is_partial(w) && is_prefix(cp, w) implies self.explored@.contains(w) by {
                    if w.len() == k {
                        assert(w =~= w.subrange(0, k));
                        assert(self.explored@[e0.len() - 1] == e0[e0.len() - 1]);
                    } else {
                        after_check.lemma_walk_continues(w);
                        assert(neighbors@.contains(w[k]));
                    }
                }
            }
            assert forall|j: int| 0 <= j < old(self).explored@.len() implies self.explored@[j] == old(
                self,
            ).explored@[j] by {
                assert(e0[j] == old(self).explored@[j]);
            }
            assert forall|j: int| old(self).explored@.len() <= j < self.explored@.len() implies is_prefix(
                cp,
                #[trigger] self.explored@[j],
            ) by {
                if j < e0.len() {
                    assert(self.explored@[j] == e0[j]);
                    assert(e0[j] == cp);
                }
            }
            if !self.stopped() {
                assert forall|p: Seq<usize>| #[trigger]
                    self.is_solution(p) && is_prefix(cp, p) implies found(self.solutions@, p) by {
                    after_check.lemma_solution_continues(p);
                    assert(neighbors@.contains(p[k]));
                }
            }
        }
    }

    /// `cells` reordered so that cells with fewer open, unvisited neighbours
    /// come first (a stable sort: ties keep their order).
    fn order_by_onward_count(&self, cells: Vec<usize>) -> (ordered: Vec<usize>)
        requires
            self.inv(),
            self.path_ok(),
            forall|j: int| 0 <= j < cells@.len() ==> (#[trigger] cells@[j]) < self.obstacles@.len(),
            forall|a: int, b: int|
                0 <= a < b < cells@.len() ==> cell_neighbors(
                    self.grid.rows() as int,
                    self.grid.cols() as int,
                    self.current_path@.last() as int,
                ).index_of(#[trigger] cells@[a]) < cell_neighbors(
                    self.grid.rows() as int,
                    self.grid.cols() as int,
                    self.current_path@.last() as int,
                ).index_of(#[trigger] cells@[b]),
        ensures
            ordered@.len() == cells@.len(),
            forall|j: int| 0 <= j < ordered@.len() ==> (#[trigger] ordered@[j]) < self.obstacles@.len(),
            forall|x: usize| #[trigger] ordered@.contains(x) <==> cells@.contains(x),
            cells@.no_duplicates() ==> ordered@.no_duplicates(),
            forall|a: int, b: int|
                0 <= a < b < ordered@.len() ==> tried_before(
                    self.grid.rows() as int,
                    self.grid.cols() as int,
                    self.obstacles@,
                    self.current_path@,
                    #[trigger] ordered@[a],
                    #[trigger] ordered@[b],
                ),
    {
        let ghost rows = self.grid.rows() as int;
        let ghost cols = self.grid.cols() as int;
        let ghost cp = self.current_path@;
        proof {
            assert(self.visited@ =~= visited_by(self.obstacles@.len(), cp));
        }
        let mut keys: Vec<usize> = Vec::new();
        let mut i: usize = 0;
        while i < cells.len()
            invariant
                self.inv(),
                rows == self.grid.rows(),
                cols == self.grid.cols(),
                cp == self.current_path@,
                self.visited@ == visited_by(self.obstacles@.len(), cp),
                forall|j: int| 0 <= j < cells@.len() ==> (#[trigger] cells@[j]) < self.obstacles@.len(),
                i <= cells@.len(),
                keys@.len() == i,
                forall|t: int|
                    0 <= t < i ==> #[trigger] keys@[t] == onward_after(
                        rows,
                        cols,
                        self.obstacles@,
                        cp,
                        cells@[t],
                    ),
            decreases cells@.len() - i,
        {
            keys.push(self.onward_count(cells[i]));
            i = i + 1;
        }
        let order = stable_order_by_key(&keys);
        let mut ordered: Vec<usize> = Vec::new();
        let mut j: usize = 0;
        while j < order.len()
            invariant
                stable_order(keys@, order@),
                keys@.len() == cells@.len(),
                j <= order@.len(),
                ordered@.len() == j,
                forall|a: int| 0 <= a < j ==> #[trigger] ordered@[a] == cells@[order@[a] as int],
            decreases order@.len() - j,
        {
            ordered.push(cells[order[j]]);
            j = j + 1;
        }
        proof {
            assert forall|a: int, b: int| 0 <= a < b < ordered@.len() implies tried_before(
                rows,
                cols,
                self.obstacles@,
                cp,
                #[trigger] ordered@[a],
                #[trigger] ordered@[b],
            ) by {
                let ta = order@[a] as int;
                let tb = order@[b] as int;
                assert(keys@[ta] == onward_after(rows, cols, self.obstacles@, cp, cells@[ta]));
                assert(keys@[tb] == onward_after(rows, cols, self.obstacles@, cp, cells@[tb]));
                assert(keys@[ta] <= keys@[tb]);
                if keys@[ta] == keys@[tb] {
                    assert(ta < tb);
                }
            }
            assert forall|x: usize| #[trigger] ordered@.contains(x) <==> cells@.contains(x) by {
                if ordered@.contains(x) {
                    let a = choose|a: int| 0 <= a < ordered@.len() && ordered@[a] == x;
                    assert(cells@[order@[a] as int] == x);
                }
                if cells@.contains(x) {
                    let t = choose|t: int| 0 <= t < cells@.len() && cells@[t] == x;
                    assert(order@.contains(t as usize));
                    let a = choose|a: int| 0 <= a < order@.len() && order@[a] == t as usize;
                    assert(ordered@[a] == x);
                }
            }
            if cells@.no_duplicates() {
                assert forall|a: int, b: int|
                    0 <= a < ordered@.len() && 0 <= b < ordered@.len() && a != b implies
                    #[trigger] ordered@[a] != #[trigger] ordered@[b] by {
                    assert(order@[a] != order@[b]);
                }
            }
            assert forall|a: int| 0 <= a < ordered@.len() implies (#[trigger] ordered@[a])
                < self.obstacles@.len() by {
                assert(order@[a] < cells@.len());
            }
        }
        ordered
    }

    /// The cells the walk may enter next from `idx`: the cell fixed for
    /// `next_step` when there is one, otherwise every enterable neighbour.
    fn available_neighbors(&self, idx: usize, next_step: usize) -> (next: Vec<usize>)
        requires
            self.inv(),
            idx < self.obstacles@.len(),
            next_step < self.waypoint_at_step@.len(),
        ensures
            next@.no_duplicates(),
            forall|j: int| 0 <= j < next@.len() ==> (#[trigger] next@[j]) < self.obstacles@.len(),
            forall|x: usize|
                #[trigger] next@.contains(x) <==> {
                    &&& cell_neighbors(self.grid.rows() as int, self.grid.cols() as int, idx as int).contains(x)
                    &&& self.can_visit_spec(x as int, next_step as int)
                    &&& (self.waypoint_at_step@[next_step as int] is Some ==> x
                        == self.waypoint_at_step@[next_step as int]->0)
                },
            forall|a: int, b: int|
                0 <= a < b < next@.len() ==> cell_neighbors(
                    self.grid.rows() as int,
                    self.grid.cols() as int,
                    idx as int,
                ).index_of(#[trigger] next@[a]) < cell_neighbors(
                    self.grid.rows() as int,
                    self.grid.cols() as int,
                    idx as int,
                ).index_of(#[trigger] next@[b]),
    {
        let ghost nbrs = cell_neighbors(self.grid.rows() as int, self.grid.cols() as int, idx as int);
        proof {
            lemma_cell_neighbors_facts(self.grid.rows() as int, self.grid.cols() as int, idx as int);
        }
        let list = self.grid.neighbors(idx);
        match self.waypoint_at_step[next_step] {
            Some(required_next) => {
                if slice_contains(list, required_next) && self.can_visit(required_next, next_step) {
                    let v = vec![required_next];
                    assert(v@ =~= seq![required_next]);
                    assert forall|x: usize| #[trigger] v@.contains(x) <==> x == required_next by {
                        if x == required_next {
                            assert(v@[0] == x);
                        }
                    }
                    v
                } else {
                    proof {
                        if list@.contains(required_next) {
                            assert(nbrs.contains(required_next));
                        }
                    }
                    let v: Vec<usize> = Vec::new();
                    v
                }
            },
            None => {
                let mut result: Vec<usize> = Vec::new();
                let mut i: usize = 0;
                while i < list.len()
                    invariant
                        self.inv(),
                        list@ == nbrs,
                        nbrs.no_duplicates(),
                        forall|j: int| 0 <= j < nbrs.len() ==> (#[trigger] nbrs[j]) < self.obstacles@.len(),
                        i <= list@.len(),
                        result@.no_duplicates(),
                        forall|x: usize|
                            #[trigger] result@.contains(x) <==> (list@.take(i as int).contains(x)
                                && self.can_visit_spec(x as int, next_step as int)),
                        forall|a: int, b: int|
                            0 <= a < b < result@.len() ==> nbrs.index_of(#[trigger] result@[a])
                                < nbrs.index_of(#[trigger] result@[b]),
                        forall|a: int| 0 <= a < result@.len() ==> nbrs.index_of(#[trigger] result@[a]) < i,
                    decreases list@.len() - i,
                {
                    let next = list[i];
                    let ghost before = result@;
                    let ghost cv = self.can_visit_spec(next as int, next_step as int);
                    proof {
                        assert(!list@.take(i as int).contains(next)) by {
                            if list@.take(i as int).contains(next) {
                                let j = choose|j: int|
                                    0 <= j < i && #[trigger] list@.take(i as int)[j] == next;
                                assert(list@[j] == list@[i as int]);
                            }
                        }
                        assert(!before.contains(next));
                    }
                    proof {
                        assert(nbrs.contains(next)) by {
                            assert(nbrs[i as int] == next);
                        }
                        let j = nbrs.index_of(next);
                        assert(nbrs[j] == next);
                        assert(j == i);
                    }
                    if self.can_visit(next, next_step) {
                        result.push(next);
                        proof {
                            assert forall|a: int| 0 <= a < result@.len() implies nbrs.index_of(
                                #[trigger] result@[a],
                            ) < i + 1 by {
                                if a < before.len() {
                                    assert(result@[a] == before[a]);
                                }
                            }
                            assert forall|a: int, b: int|
                                0 <= a < b < result@.len() implies nbrs.index_of(#[trigger] result@[a])
                                < nbrs.index_of(#[trigger] result@[b]) by {
                                assert(result@[a] == before[a]);
                                if b < before.len() {
                                    assert(result@[b] == before[b]);
                                }
                            }
                            assert forall|a: int, b: int|
                                0 <= a < result@.len() && 0 <= b < result@.len() && a != b implies
                                #[trigger] result@[a] != #[trigger] result@[b] by {
                                if a == before.len() {
                                    assert(before.contains(result@[b]));
                                } else if b == before.len() {
                                    assert(before.contains(result@[a]));
                                } else {
                                    assert(before[a] != before[b]);
                                }
                            }
                        }
                    }
                    proof {
                        assert(list@.take(i + 1) =~= list@.take(i as int).push(next));
                        assert forall|x: usize|
                            #[trigger] result@.contains(x) <==> (list@.take(i + 1).contains(x)
                                && self.can_visit_spec(x as int, next_step as int)) by {
                            assert(list@.take(i + 1).contains(x) <==> (list@.take(i as int).contains(x)
                                || x == next)) by {
                                if list@.take(i + 1).contains(x) && x != next {
                                    let j = choose|j: int|
                                        0 <= j < i + 1 && #[trigger] list@.take(i + 1)[j] == x;
                                    assert(list@.take(i as int)[j] == x);
                                }
                                if list@.take(i as int).contains(x) {
                                    let j = choose|j: int|
                                        0 <= j < i && #[trigger] list@.take(i as int)[j] == x;
                                    assert(list@.take(i + 1)[j] == x);
                                }
                                if x == next {
                                    assert(list@.take(i + 1)[i as int] == x);
                                }
                            }
                            if cv {
                                assert(result@ =~= before.push(next));
                                assert(result@.contains(x) <==> (before.contains(x) || x == next)) by {
                                    if result@.contains(x) && x != next {
                                        let j = choose|j: int| 0 <= j < result@.len() && #[trigger] result@[j] == x;
                                        assert(before[j] == x);
                                    }
                                    if before.contains(x) {
                                        let j = choose|j: int| 0 <= j < before.len() && #[trigger] before[j] == x;
                                        assert(result@[j] == x);
                                    }
                                    if x == next {
                                        assert(result@[before.len() as int] == x);
                                    }
                                }
                            } else {
                                assert(result@ == before);
                            }
                        }
                    }
                    i = i + 1;
                }
                proof {
                    assert(list@.take(list@.len() as int) =~= list@);
                    assert forall|j: int| 0 <= j < result@.len() implies (#[trigger] result@[j])
                        < self.obstacles@.len() by {
                        assert(result@.contains(result@[j]));
                    }
                }
                result
            },
        }
    }
}

/// `cap`, or 1 when `cap` is 0.
pub open spec fn at_least_one(cap: u32) -> u32 {
    if cap == 0 {
        1
    } else {
        cap
    }
}

/// `paths` are exactly the solutions of the puzzle, each once.
pub open spec fn solutions_are(
    rows: int,
    cols: int,
    obstacles: Seq<u8>,
    waypoints: Seq<(usize, usize)>,
    paths: Seq<Seq<usize>>,
) -> bool {
    &&& paths.no_duplicates()
    &&& forall|i: int|
        0 <= i < paths.len() ==> constrained_path(rows, cols, obstacles, waypoints, #[trigger] paths[i])
    &&& forall|p: Seq<usize>|
        #[trigger] constrained_path(rows, cols, obstacles, waypoints, p) ==> paths.contains(p)
}

/// The number of solutions, counted up to a cap.
#[derive(Clone, Copy, Debug, Eq, PartialEq)]
pub struct PathCount {
    pub solutions: u32,
    pub solver_calls: u32,
}

/// The solutions a search collected, how many visits it spent, and whether it
/// ran out of visits before it was done.
#[derive(Clone, Debug, Eq, PartialEq)]
pub struct SolutionSearchResult {
    pub solutions: Vec<Vec<usize>>,
    pub solver_calls: u32,
    pub exhausted: bool,
}

impl SolutionSearchResult {
    /// No solutions, no visits.
    fn empty() -> (result: Self)
        ensures
            result.solutions@.len() == 0,
            result.solver_calls == 0,
            !result.exhausted,
    {
        SolutionSearchResult { solutions: Vec::new(), solver_calls: 0, exhausted: false }
    }
}

/// The walks a search visited, one per visit, in the order it visited them:
/// distinct walks it can stand on, each visited before the next, and every walk
/// it can stand on that comes before a visited one visited too. The solutions
/// it reports are the complete walks among them, but for the last walk when
/// the visits ran out (that visit is spent before the walk is looked at); when
/// the solution cap stopped it, the last walk visited is the last solution;
/// when nothing stopped it, it visited every walk it can stand on.
pub open spec fn visit_trace(
    rows: int,
    cols: int,
    obstacles: Seq<u8>,
    waypoints: Seq<(usize, usize)>,
    solution_cap: u32,
    result: SolutionSearchResult,
    walks: Seq<Seq<usize>>,
) -> bool {
    &&& walks.len() == result.solver_calls
    &&& trace_shape(rows, cols, obstacles, waypoints, walks)
    &&& forall|i: int| 0 <= i < result.solutions@.len() ==> walks.contains(#[trigger] result.solutions@[i]@)
    &&& forall|j: int|
        0 <= j < walks.len() && constrained_path(rows, cols, obstacles, waypoints, #[trigger] walks[j]) && !(
        result.exhausted && j == walks.len() - 1) ==> found(result.solutions@, walks[j])
    &&& result.exhausted ==> walks.len() > 0 && !found(result.solutions@, walks.last())
    &&& (!result.exhausted && result.solutions@.len() >= at_least_one(solution_cap)) ==> walks.len() > 0
        && walks.last() == result.solutions@.last()@
    &&& (!result.exhausted && result.solutions@.len() < at_least_one(solution_cap)) ==> every_search_walk(
        rows,
        cols,
        obstacles,
        waypoints,
        walks,
    )
}

/// What a search over the puzzle given by `obstacles` and `waypoints` reports:
/// nothing when the obstacle map does not fit the board or the waypoints are
/// not usable; otherwise distinct solutions, at most the cap of them, in the
/// order the search comes to them and with every solution it comes to before a
/// reported one reported too; visits within the visit cap, one for each walk of
/// a visit trace (`visit_trace`); fewer solutions than the cap when the visits
/// ran out; and, unless the visits ran out or the cap was reached, all of the
/// solutions. These fix the report (`lemma_search_result_unique`).
pub open spec fn search_result_spec(
    rows: int,
    cols: int,
    obstacles: Seq<u8>,
    waypoints: Seq<(usize, usize)>,
    solution_cap: u32,
    call_cap: u32,
    result: SolutionSearchResult,
) -> bool {
    if obstacles.len() != rows * cols || !waypoints_usable(obstacles, waypoints) {
        &&& result.solutions@.len() == 0
        &&& result.solver_calls == 0
        &&& !result.exhausted
    } else {
        &&& forall|i: int|
            0 <= i < result.solutions@.len() ==> constrained_path(
                rows,
                cols,
                obstacles,
                waypoints,
                (#[trigger] result.solutions@[i])@,
            )
        &&& all_distinct(result.solutions@)
        &&& forall|a: int, b: int|
            0 <= a < b < result.solutions@.len() ==> found_before(
                rows,
                cols,
                obstacles,
                (#[trigger] result.solutions@[a])@,
                (#[trigger] result.solutions@[b])@,
            )
        &&& forall|q: Seq<usize>, j: int|
            0 <= j < result.solutions@.len() && constrained_path(rows, cols, obstacles, waypoints, q)
                && #[trigger] found_before(rows, cols, obstacles, q, result.solutions@[j]@) ==> found(
                result.solutions@,
                q,
            )
        &&& result.solutions@.len() <= at_least_one(solution_cap)
        &&& 1 <= result.solver_calls <= at_least_one(call_cap)
        &&& result.exhausted <==> result.solver_calls == at_least_one(call_cap)
        &&& result.exhausted ==> result.solutions@.len() < at_least_one(solution_cap)
        &&& exists|walks: Seq<Seq<usize>>|
            #[trigger] visit_trace(rows, cols, obstacles, waypoints, solution_cap, result, walks)
        &&& (!result.exhausted && result.solutions@.len() < at_least_one(solution_cap)) ==> forall|
            p: Seq<usize>,
        |
            #[trigger] constrained_path(rows, cols, obstacles, waypoints, p) ==> found(
                result.solutions@,
                p,
            )
    }
}

/// Searches for covering paths that meet every waypoint `(step, cell)`, until
/// `solution_cap` of them are found or `call_cap` search steps are spent (a cap
/// of 0 counts as 1).
#[verifier::spinoff_prover]
pub fn find_up_to_solutions_with_waypoints(
    grid: &Grid,
    obstacles: &[u8],
    waypoints: &[(usize, usize)],
    solution_cap: u32,
    call_cap: u32,
) -> (result: SolutionSearchResult)
    requires
        grid.wf(),
        obstacles@.len() <= isize::MAX,
    ensures
        search_result_spec(
            grid.rows() as int,
            grid.cols() as int,
            obstacles@,
            waypoints@,
            solution_cap,
            call_cap,
            result,
        ),
{
    proof {
        grid.lemma_wf_size();
    }
    if obstacles.len() != grid.rows() * grid.cols() {
        return SolutionSearchResult::empty();
    }
    let open_count = count_open(obstacles);
    let tables = normalize_waypoints(obstacles, waypoints, open_count);
    let (waypoint_at_step, reserved_step_by_cell, start) = match tables {
        Some(t) => t,
        None => {
            return SolutionSearchResult::empty();
        },
    };
    proof {
        lemma_tables_sound(obstacles@, waypoints@, waypoint_at_step@, reserved_step_by_cell@);
    }
    let mut visited = vec![false; obstacles.len()];
    visited.set(start, true);
    let mut current_path: Vec<usize> = Vec::new();
    current_path.push(start);
    let mut search = PathSearch {
        grid,
        obstacles,
        visited,
        open_count,
        solution_cap: if solution_cap == 0 { 1 } else { solution_cap },
        call_cap: if call_cap == 0 { 1 } else { call_cap },
        waypoint_at_step,
        reserved_step_by_cell,
        current_path,
        solutions: Vec::new(),
        solver_calls: 0,
        exhausted: false,
        explored: Ghost(Seq::empty()),
    };
    proof {
        let cp = search.current_path@;
        assert(cp =~= seq![start]);
        assert forall|c: int| 0 <= c < search.visited@.len() implies #[trigger] search.visited@[c]
            == cp.contains(c as usize) by {
            if c == start {
                assert(cp[0] == start);
            }
        }
        assert(meets_steps(search.waypoint_at_step@, cp)) by {
            assert forall|st: int|
                1 <= st <= cp.len() && st < search.waypoint_at_step@.len() && (
                #[trigger] search.waypoint_at_step@[st]) is Some implies cp[st - 1]
                == search.waypoint_at_step@[st]->0 by {
                assert(st == 1);
            }
        }
        assert(all_distinct(search.solutions@));
    }
    search.visit(start, 1);
    proof {
        let rows = grid.rows() as int;
        let cols = grid.cols() as int;
        assert forall|p: Seq<usize>|
            search.is_solution(p) <==> constrained_path(rows, cols, obstacles@, waypoints@, p) by {
            lemma_search_solution_iff_constrained(
                rows,
                cols,
                obstacles@,
                waypoints@,
                waypoint_at_step@,
                reserved_step_by_cell@,
                p,
            );
        }
        if !search.exhausted && search.solutions@.len() < search.solution_cap {
            assert forall|p: Seq<usize>| #[trigger]
                constrained_path(rows, cols, obstacles@, waypoints@, p) implies found(
                search.solutions@,
                p,
            ) by {
                assert(search.is_solution(p));
                assert(p.len() >= 1);
                assert(p[0] == start) by {
                    assert(search.waypoint_at_step@[1] == Some(start));
                }
                assert(is_prefix(seq![start], p)) by {
                    assert(p.subrange(0, 1) =~= seq![start]);
                }
            }
        }
        assert forall|q: Seq<usize>, j: int|
            0 <= j < search.solutions@.len() && constrained_path(rows, cols, obstacles@, waypoints@, q)
                && #[trigger] found_before(rows, cols, obstacles@, q, search.solutions@[j]@) implies found(
            search.solutions@,
            q,
        ) by {
            assert(search.is_solution(q));
            assert(q.len() >= 1);
            assert(q[0] == start) by {
                assert(search.waypoint_at_step@[1] == Some(start));
            }
            assert(is_prefix(seq![start], q)) by {
                assert(q.subrange(0, 1) =~= seq![start]);
            }
            assert(search.comes_before(q, search.solutions@[j]@));
        }
        let walks = search.explored@;
        assert forall|i: int| 0 <= i < walks.len() implies search_walk(
            rows,
            cols,
            obstacles@,
            waypoints@,
            #[trigger] walks[i],
        ) by {
            assert(search.is_partial(walks[i]));
            lemma_keeps_reserved_iff(
                rows,
                cols,
                obstacles@,
                waypoints@,
                waypoint_at_step@,
                reserved_step_by_cell@,
                walks[i],
            );
        }
        assert(distinct_walks(rows, cols, obstacles@, waypoints@, walks));
        assert forall|w: Seq<usize>, j: int|
            0 <= j < walks.len() && search_walk(rows, cols, obstacles@, waypoints@, w) && #[trigger] visited_before(
                rows,
                cols,
                obstacles@,
                w,
                walks[j],
            ) implies walks.contains(w) by {
            lemma_keeps_reserved_iff(
                rows,
                cols,
                obstacles@,
                waypoints@,
                waypoint_at_step@,
                reserved_step_by_cell@,
                w,
            );
            assert(search.is_partial(w));
            assert(w[0] == start) by {
                assert(search.waypoint_at_step@[1] == Some(start));
            }
            assert(is_prefix(seq![start], w)) by {
                assert(w.subrange(0, 1) =~= seq![start]);
            }
            assert(search.walk_before(w, walks[j]));
        }
        assert forall|j: int|
            0 <= j < walks.len() && constrained_path(rows, cols, obstacles@, waypoints@, #[trigger] walks[j])
                && !(search.exhausted && j == walks.len() - 1) implies found(search.solutions@, walks[j]) by {
            assert(search.is_solution(walks[j]));
        }
        if !search.exhausted && search.solutions@.len() < search.solution_cap {
            assert forall|w: Seq<usize>| #[trigger]
                search_walk(rows, cols, obstacles@, waypoints@, w) implies walks.contains(w) by {
                lemma_keeps_reserved_iff(
                    rows,
                    cols,
                    obstacles@,
                    waypoints@,
                    waypoint_at_step@,
                    reserved_step_by_cell@,
                    w,
                );
                assert(search.is_partial(w));
                assert(w[0] == start) by {
                    assert(search.waypoint_at_step@[1] == Some(start));
                }
                assert(is_prefix(seq![start], w)) by {
                    assert(w.subrange(0, 1) =~= seq![start]);
                }
            }
        }
        assert forall|i: int| 0 <= i < search.solutions@.len() implies constrained_path(
            rows,
            cols,
            obstacles@,
            waypoints@,
            (#[trigger] search.solutions@[i])@,
        ) by {
            assert(search.is_solution(search.solutions@[i]@));
        }
    }
    let ghost walks = search.explored@;
    let result = SolutionSearchResult {
        solutions: search.solutions,
        solver_calls: search.solver_calls,
        exhausted: search.exhausted,
    };
    proof {
        assert(visit_trace(
            grid.rows() as int,
            grid.cols() as int,
            obstacles@,
            waypoints@,
            solution_cap,
            result,
            walks,
        ));
    }
    result
}

/// What counting the solutions of the puzzle given by `obstacles` and
/// `waypoints` reports: 0 solutions and 0 steps when the obstacle map does not
/// fit the board or the waypoints are not usable; otherwise at most the cap,
/// within the step cap, one step for each of as many distinct walks, and a
/// count below the cap is the exact number of solutions, reached with one step
/// for each walk the search can stand on. When the steps did not run out, that
/// many distinct solutions exist.
pub open spec fn count_spec(
    rows: int,
    cols: int,
    obstacles: Seq<u8>,
    waypoints: Seq<(usize, usize)>,
    solution_cap: u32,
    call_cap: u32,
    count: PathCount,
) -> bool {
    if obstacles.len() != rows * cols || !waypoints_usable(obstacles, waypoints) {
        count.solutions == 0 && count.solver_calls == 0
    } else {
        &&& count.solutions <= at_least_one(solution_cap)
        &&& 1 <= count.solver_calls <= at_least_one(call_cap)
        &&& exists|walks: Seq<Seq<usize>>|
            walks.len() == count.solver_calls && #[trigger] distinct_walks(
                rows,
                cols,
                obstacles,
                waypoints,
                walks,
            ) && (count.solutions < at_least_one(solution_cap) ==> every_search_walk(
                rows,
                cols,
                obstacles,
                waypoints,
                walks,
            ))
        &&& count.solutions < at_least_one(solution_cap) ==> count.solver_calls < at_least_one(
            call_cap,
        )
        &&& count.solver_calls < at_least_one(call_cap) ==> exists|paths: Seq<Seq<usize>>|
            {
                &&& paths.len() == count.solutions
                &&& paths.no_duplicates()
                &&& forall|i: int|
                    0 <= i < paths.len() ==> constrained_path(
                        rows,
                        cols,
                        obstacles,
                        waypoints,
                        #[trigger] paths[i],
                    )
            }
        &&& count.solutions < at_least_one(solution_cap) ==> exists|paths: Seq<Seq<usize>>|
            paths.len() == count.solutions && solutions_are(rows, cols, obstacles, waypoints, paths)
    }
}

/// The search's report for the puzzle and the caps (it is unique:
/// `lemma_search_result_unique`).
pub open spec fn search_report(
    rows: int,
    cols: int,
    obstacles: Seq<u8>,
    waypoints: Seq<(usize, usize)>,
    solution_cap: u32,
    call_cap: u32,
) -> SolutionSearchResult {
    choose|r: SolutionSearchResult|
        search_result_spec(rows, cols, obstacles, waypoints, solution_cap, call_cap, r)
}

/// The count a search's report gives: the number of solutions it reports, or
/// the cap when it ran out of visits, and its visits.
pub open spec fn count_of_report(solution_cap: u32, report: SolutionSearchResult) -> PathCount {
    PathCount {
        solutions: if report.exhausted {
            at_least_one(solution_cap)
        } else {
            report.solutions@.len() as u32
        },
        solver_calls: report.solver_calls,
    }
}

/// The views of a list of paths.
pub open spec fn path_views(paths: Seq<Vec<usize>>) -> Seq<Seq<usize>> {
    paths.map_values(|v: Vec<usize>| v@)
}

/// The solutions a search reports are distinct solutions, and, when the search
/// was neither capped nor out of steps, all of them.
proof fn lemma_search_result_counts(
    rows: int,
    cols: int,
    obstacles: Seq<u8>,
    waypoints: Seq<(usize, usize)>,
    solution_cap: u32,
    call_cap: u32,
    result: SolutionSearchResult,
)
    requires
        obstacles.len() == rows * cols,
        waypoints_usable(obstacles, waypoints),
        search_result_spec(rows, cols, obstacles, waypoints, solution_cap, call_cap, result),
    ensures
        path_views(result.solutions@).len() == result.solutions@.len(),
        path_views(result.solutions@).no_duplicates(),
        forall|i: int|
            0 <= i < path_views(result.solutions@).len() ==> constrained_path(
                rows,
                cols,
                obstacles,
                waypoints,
                #[trigger] path_views(result.solutions@)[i],
            ),
        (!result.exhausted && result.solutions@.len() < at_least_one(solution_cap))
            ==> solutions_are(rows, cols, obstacles, waypoints, path_views(result.solutions@)),
{
    let sols = result.solutions@;
    let views = path_views(sols);
    assert forall|i: int| 0 <= i < views.len() implies #[trigger] views[i] == sols[i]@ by {}
    assert forall|i: int| 0 <= i < views.len() implies constrained_path(
        rows,
        cols,
        obstacles,
        waypoints,
        #[trigger] views[i],
    ) by {
        assert(views[i] == sols[i]@);
        assert(constrained_path(rows, cols, obstacles, waypoints, sols[i]@));
    }
    assert forall|a: int, b: int| 0 <= a < views.len() && 0 <= b < views.len() && a != b implies
        #[trigger] views[a] != #[trigger] views[b] by {
        assert(views[a] == sols[a]@);
        assert(views[b] == sols[b]@);
    }
    if !result.exhausted && result.solutions@.len() < at_least_one(solution_cap) {
        assert forall|p: Seq<usize>| #[trigger]
            constrained_path(rows, cols, obstacles, waypoints, p) implies views.contains(p) by {
            assert(found(sols, p));
            let i = choose|i: int| 0 <= i < sols.len() && (#[trigger] sols[i])@ == p;
            assert(views[i] == p);
        }
    }
}

/// Counts the covering paths that meet every waypoint, up to `solution_cap`
/// (a count that ran out of steps reports the cap).
pub fn count_covering_paths_with_waypoints(
    grid: &Grid,
    obstacles: &[u8],
    waypoints: &[(usize, usize)],
    solution_cap: u32,
    call_cap: u32,
) -> (count: PathCount)
    requires
        grid.wf(),
        obstacles@.len() <= isize::MAX,
    ensures
        count_spec(
            grid.rows() as int,
            grid.cols() as int,
            obstacles@,
            waypoints@,
            solution_cap,
            call_cap,
            count,
        ),
        count == count_of_report(
            solution_cap,
            search_report(
                grid.rows() as int,
                grid.cols() as int,
                obstacles@,
                waypoints@,
                solution_cap,
                call_cap,
            ),
        ),
{
    let result = find_up_to_solutions_with_waypoints(
        grid,
        obstacles,
        waypoints,
        solution_cap,
        call_cap,
    );
    let count = PathCount {
        solutions: if result.exhausted {
            if solution_cap == 0 {
                1
            } else {
                solution_cap
            }
        } else {
            result.solutions.len() as u32
        },
        solver_calls: result.solver_calls,
    };
    proof {
        let rows = grid.rows() as int;
        let cols = grid.cols() as int;
        if obstacles@.len() == rows * cols && waypoints_usable(obstacles@, waypoints@) {
            lemma_search_result_counts(
                rows,
                cols,
                obstacles@,
                waypoints@,
                solution_cap,
                call_cap,
                result,
            );
            let views = path_views(result.solutions@);
            if count.solver_calls < at_least_one(call_cap) {
                assert(views.len() == count.solutions);
            }
            if count.solutions < at_least_one(solution_cap) {
                assert(views.len() == count.solutions);
                assert(solutions_are(rows, cols, obstacles@, waypoints@, views));
            }
        }
        let report = search_report(rows, cols, obstacles@, waypoints@, solution_cap, call_cap);
        assert(search_result_spec(rows, cols, obstacles@, waypoints@, solution_cap, call_cap, result));
        assert(search_result_spec(rows, cols, obstacles@, waypoints@, solution_cap, call_cap, report));
        lemma_search_result_unique(rows, cols, obstacles@, waypoints@, solution_cap, call_cap, result, report);
        assert(path_views(result.solutions@).len() == result.solutions@.len());
        assert(path_views(report.solutions@).len() == report.solutions@.len());
    }
    count
}

/// Counts the covering paths from `start` to `end`, up to `solution_cap`.
pub fn count_covering_paths(
    grid: &Grid,
    obstacles: &[u8],
    start: usize,
    end: usize,
    solution_cap: u32,
    call_cap: u32,
) -> (count: PathCount)
    requires
        grid.wf(),
        obstacles@.len() <= isize::MAX,
    ensures
        count_spec(
            grid.rows() as int,
            grid.cols() as int,
            obstacles@,
            seq![(1usize, start), (open_cell_count(obstacles@) as usize, end)],
            solution_cap,
            call_cap,
            count,
        ),
        obstacles@.len() != grid.rows() * grid.cols() ==> count.solutions == 0 && count.solver_calls
            == 0,
        obstacles@.len() == grid.rows() * grid.cols() ==> count == count_of_report(
            solution_cap,
            search_report(
                grid.rows() as int,
                grid.cols() as int,
                obstacles@,
                seq![(1usize, start), (open_cell_count(obstacles@) as usize, end)],
                solution_cap,
                call_cap,
            ),
        ),
{
    proof {
        grid.lemma_wf_size();
    }
    if obstacles.len() != grid.rows() * grid.cols() {
        return PathCount { solutions: 0, solver_calls: 0 };
    }
    let open_count = count_open(obstacles);
    let endpoints = vec![(1usize, start), (open_count, end)];
    assert(endpoints@ =~= seq![(1usize, start), (open_cell_count(obstacles@) as usize, end)]);
    count_covering_paths_with_waypoints(grid, obstacles, endpoints.as_slice(), solution_cap, call_cap)
}

/// A count of exactly one under a cap of at least two proves the puzzle has a
/// single solution: that is how waypoints are shown to pin the path down.
pub proof fn lemma_count_of_one_is_unique(
    rows: int,
    cols: int,
    obstacles: Seq<u8>,
    waypoints: Seq<(usize, usize)>,
    solution_cap: u32,
    call_cap: u32,
    count: PathCount,
)
    requires
        count_spec(rows, cols, obstacles, waypoints, solution_cap, call_cap, count),
        solution_cap >= 2,
        count.solutions == 1,
    ensures
        exists|p: Seq<usize>|
            {
                &&& constrained_path(rows, cols, obstacles, waypoints, p)
                &&& forall|q: Seq<usize>|
                    #[trigger] constrained_path(rows, cols, obstacles, waypoints, q) ==> q == p
            },
{
    let paths = choose|paths: Seq<Seq<usize>>|
        paths.len() == count.solutions && solutions_are(rows, cols, obstacles, waypoints, paths);
    let p = paths[0];
    assert(constrained_path(rows, cols, obstacles, waypoints, p));
    assert forall|q: Seq<usize>| #[trigger]
        constrained_path(rows, cols, obstacles, waypoints, q) implies q == p by {
        assert(paths.contains(q));
    }
}

/// Two different sequences of the same length first differ at some position.
proof fn lemma_first_difference(p: Seq<usize>, q: Seq<usize>) -> (d: int)
    requires
        p.len() == q.len(),
        p != q,
    ensures
        0 <= d < p.len(),
        p[d] != q[d],
        p.subrange(0, d) == q.subrange(0, d),
    decreases p.len(),
{
    if p.len() == 0 {
        assert(p =~= q);
        0
    } else if p[0] != q[0] {
        assert(p.subrange(0, 0) =~= q.subrange(0, 0));
        0
    } else {
        let (p1, q1) = (p.drop_first(), q.drop_first());
        if p1 == q1 {
            assert(p =~= q) by {
                assert forall|i: int| 0 <= i < p.len() implies p[i] == q[i] by {
                    if i > 0 {
                        assert(p[i] == p1[i - 1]);
                        assert(q[i] == q1[i - 1]);
                    }
                }
            }
        }
        let d1 = lemma_first_difference(p1, q1);
        assert(p.subrange(0, d1 + 1) =~= q.subrange(0, d1 + 1)) by {
            assert forall|i: int| 0 <= i < d1 + 1 implies #[trigger] p[i] == q[i] by {
                if i > 0 {
                    assert(p1.subrange(0, d1)[i - 1] == q1.subrange(0, d1)[i - 1]);
                }
            }
        }
        d1 + 1
    }
}

/// Of two different solutions, the search comes to exactly one first: the
/// order the search comes to solutions in is a single, strict order, so the
/// solutions it reports are the first ones in that order.
pub proof fn lemma_search_order_is_strict(
    rows: int,
    cols: int,
    obstacles: Seq<u8>,
    waypoints: Seq<(usize, usize)>,
    p: Seq<usize>,
    q: Seq<usize>,
)
    requires
        waypoints_usable(obstacles, waypoints),
        constrained_path(rows, cols, obstacles, waypoints, p),
        constrained_path(rows, cols, obstacles, waypoints, q),
        p != q,
    ensures
        found_before(rows, cols, obstacles, p, q) != found_before(rows, cols, obstacles, q, p),
{
    let d = lemma_first_difference(p, q);
    let k = choose|k: int| 0 <= k < waypoints.len() && (#[trigger] waypoints[k]).0 == 1;
    assert(p[0] == waypoints[k].1 && q[0] == waypoints[k].1);
    assert(d >= 1);
    let w = p.subrange(0, d);
    assert(q.subrange(0, d) == w);
    lemma_first_parting(rows, cols, obstacles, p, q, d);
    lemma_first_parting(rows, cols, obstacles, q, p, d);
    let listed = cell_neighbors(rows, cols, w.last() as int);
    assert(w.last() == p[d - 1]);
    assert(q[d - 1] == p[d - 1]) by {
        assert(w[d - 1] == q.subrange(0, d)[d - 1]);
    }
    assert(linked(rows, cols, p, d - 1));
    assert(linked(rows, cols, q, d - 1));
    assert(listed.contains(p[d]));
    assert(listed.contains(q[d]));
    let ip = listed.index_of(p[d]);
    let iq = listed.index_of(q[d]);
    assert(listed[ip] == p[d]);
    assert(listed[iq] == q[d]);
}

/// A sequence of distinct items that all occur in another sequence is no
/// longer than it.
proof fn lemma_distinct_within<A>(a: Seq<A>, b: Seq<A>)
    requires
        a.no_duplicates(),
        forall|i: int| 0 <= i < a.len() ==> b.contains(#[trigger] a[i]),
    ensures
        a.len() <= b.len(),
{
    broadcast use vstd::seq_lib::seq_to_set_is_finite;

    a.unique_seq_to_set();
    b.lemma_cardinality_of_set();
    assert(a.to_set().subset_of(b.to_set())) by {
        assert forall|x: A| a.to_set().contains(x) implies b.to_set().contains(x) by {
            let i = choose|i: int| 0 <= i < a.len() && a[i] == x;
            assert(b.contains(a[i]));
        }
    }
    vstd::set_lib::lemma_len_subset(a.to_set(), b.to_set());
}

/// Two sequences of the same distinct items, each in increasing order under a
/// relation that never holds both ways, are the same sequence.
proof fn lemma_same_items_same_order(
    before: spec_fn(Seq<usize>, Seq<usize>) -> bool,
    s1: Seq<Seq<usize>>,
    s2: Seq<Seq<usize>>,
    j: int,
)
    requires
        s1.no_duplicates(),
        s2.no_duplicates(),
        s1.len() == s2.len(),
        forall|x: Seq<usize>| s1.contains(x) <==> s2.contains(x),
        forall|a: int, b: int| 0 <= a < b < s1.len() ==> #[trigger] before(s1[a], s1[b]),
        forall|a: int, b: int| 0 <= a < b < s2.len() ==> #[trigger] before(s2[a], s2[b]),
        forall|x: Seq<usize>, y: Seq<usize>| #[trigger] before(x, y) ==> !before(y, x),
        0 <= j < s1.len(),
    ensures
        forall|t: int| 0 <= t <= j ==> #[trigger] s1[t] == s2[t],
    decreases j,
{
    if j > 0 {
        lemma_same_items_same_order(before, s1, s2, j - 1);
    }
    let x = s1[j];
    let y = s2[j];
    if x != y {
        assert(s1.contains(x));
        assert(s2.contains(x));
        let a = choose|a: int| 0 <= a < s2.len() && s2[a] == x;
        assert(s2.contains(y));
        assert(s1.contains(y));
        let b = choose|b: int| 0 <= b < s1.len() && s1[b] == y;
        if a < j {
            assert(s1[a] == s2[a]);
        }
        if b < j {
            assert(s1[b] == s2[b]);
        }
        assert(before(s2[j], s2[a]));
        assert(before(s1[j], s1[b]));
    }
}

/// The walks a search visits, as a trace: distinct walks it can stand on, in
/// visiting order, closed under coming before a visited walk.
pub open spec fn trace_shape(
    rows: int,
    cols: int,
    obstacles: Seq<u8>,
    waypoints: Seq<(usize, usize)>,
    walks: Seq<Seq<usize>>,
) -> bool {
    &&& distinct_walks(rows, cols, obstacles, waypoints, walks)
    &&& forall|a: int, b: int|
        0 <= a < b < walks.len() ==> visited_before(rows, cols, obstacles, #[trigger] walks[a], #[trigger] walks[b])
    &&& forall|w: Seq<usize>, j: int|
        0 <= j < walks.len() && search_walk(rows, cols, obstacles, waypoints, w) && #[trigger] visited_before(
            rows,
            cols,
            obstacles,
            w,
            walks[j],
        ) ==> walks.contains(w)
}

/// Of two different walks the search can stand on, it visits exactly one
/// first.
pub proof fn lemma_visit_order_is_strict(
    rows: int,
    cols: int,
    obstacles: Seq<u8>,
    waypoints: Seq<(usize, usize)>,
    v: Seq<usize>,
    w: Seq<usize>,
)
    requires
        waypoints_usable(obstacles, waypoints),
        search_walk(rows, cols, obstacles, waypoints, v),
        search_walk(rows, cols, obstacles, waypoints, w),
        v != w,
    ensures
        visited_before(rows, cols, obstacles, v, w) != visited_before(rows, cols, obstacles, w, v),
{
    let k0 = choose|k: int| 0 <= k < waypoints.len() && (#[trigger] waypoints[k]).0 == 1;
    assert(v[0] == waypoints[k0].1 && w[0] == waypoints[k0].1);
    if is_prefix(v, w) {
        lemma_prefix_does_not_part(rows, cols, obstacles, v, w);
        if v.len() == w.len() {
            assert(w.subrange(0, w.len() as int) =~= w);
            assert(false);
        }
        assert(visited_before(rows, cols, obstacles, v, w));
        assert(!visited_before(rows, cols, obstacles, w, v));
    } else if is_prefix(w, v) {
        lemma_prefix_does_not_part(rows, cols, obstacles, w, v);
        if v.len() == w.len() {
            assert(v.subrange(0, v.len() as int) =~= v);
            assert(false);
        }
        assert(visited_before(rows, cols, obstacles, w, v));
        assert(!visited_before(rows, cols, obstacles, v, w));
    } else {
        let m = if v.len() <= w.len() {
            v.len() as int
        } else {
            w.len() as int
        };
        let vt = v.subrange(0, m);
        let wt = w.subrange(0, m);
        if vt == wt {
            if v.len() <= w.len() {
                assert(v =~= vt);
            } else {
                assert(w =~= wt);
            }
        }
        let d = lemma_first_difference(vt, wt);
        assert(v[d] == vt[d] && w[d] == wt[d]);
        assert(v.subrange(0, d) =~= vt.subrange(0, d));
        assert(w.subrange(0, d) =~= wt.subrange(0, d));
        assert(d >= 1);
        lemma_first_parting(rows, cols, obstacles, v, w, d);
        lemma_first_parting(rows, cols, obstacles, w, v, d);
        let u = v.subrange(0, d);
        let listed = cell_neighbors(rows, cols, u.last() as int);
        assert(u.last() == v[d - 1]);
        assert(w[d - 1] == v[d - 1]) by {
            assert(u[d - 1] == w.subrange(0, d)[d - 1]);
        }
        assert(linked(rows, cols, v, d - 1));
        assert(linked(rows, cols, w, d - 1));
        assert(listed.contains(v[d]));
        assert(listed.contains(w[d]));
        assert(listed[listed.index_of(v[d])] == v[d]);
        assert(listed[listed.index_of(w[d])] == w[d]);
        let tv = tried_before(rows, cols, obstacles, v.subrange(0, d), v[d], w[d]);
        let tw = tried_before(rows, cols, obstacles, w.subrange(0, d), w[d], v[d]);
        assert(tv != tw);
        assert(visited_before(rows, cols, obstacles, v, w) == tv);
        assert(visited_before(rows, cols, obstacles, w, v) == tw);
    }
}

/// Two traces of the same search agree as far as both go.
proof fn lemma_traces_agree(
    rows: int,
    cols: int,
    obstacles: Seq<u8>,
    waypoints: Seq<(usize, usize)>,
    t1: Seq<Seq<usize>>,
    t2: Seq<Seq<usize>>,
    j: int,
)
    requires
        waypoints_usable(obstacles, waypoints),
        trace_shape(rows, cols, obstacles, waypoints, t1),
        trace_shape(rows, cols, obstacles, waypoints, t2),
        0 <= j < t1.len(),
        j < t2.len(),
    ensures
        forall|t: int| 0 <= t <= j ==> #[trigger] t1[t] == t2[t],
    decreases j,
{
    if j > 0 {
        lemma_traces_agree(rows, cols, obstacles, waypoints, t1, t2, j - 1);
    }
    let x = t1[j];
    let y = t2[j];
    if x != y {
        assert(search_walk(rows, cols, obstacles, waypoints, x));
        assert(search_walk(rows, cols, obstacles, waypoints, y));
        lemma_visit_order_is_strict(rows, cols, obstacles, waypoints, x, y);
        if visited_before(rows, cols, obstacles, x, y) {
            assert(t2.contains(x));
            let a = choose|a: int| 0 <= a < t2.len() && t2[a] == x;
            if a < j {
                assert(t1[a] == t2[a]);
            } else {
                assert(visited_before(rows, cols, obstacles, t2[j], t2[a]));
            }
        } else {
            assert(t1.contains(y));
            let b = choose|b: int| 0 <= b < t1.len() && t1[b] == y;
            if b < j {
                assert(t1[b] == t2[b]);
            } else {
                assert(visited_before(rows, cols, obstacles, t1[j], t1[b]));
            }
        }
    }
}


/// The search comes to two paths in one order only.
proof fn lemma_found_before_asymmetric(rows: int, cols: int, obstacles: Seq<u8>, p: Seq<usize>, q: Seq<usize>)
    requires
        found_before(rows, cols, obstacles, p, q),
    ensures
        !found_before(rows, cols, obstacles, q, p),
{
    let d = choose|d: int|
        #![trigger tried_before(rows, cols, obstacles, p.subrange(0, d), p[d], q[d])]
        1 <= d < p.len() && d < q.len() && p.subrange(0, d) == q.subrange(0, d) && p[d] != q[d]
            && tried_before(rows, cols, obstacles, p.subrange(0, d), p[d], q[d]);
    lemma_first_parting(rows, cols, obstacles, q, p, d);
}

/// Found in a list of paths means one of their views.
proof fn lemma_found_in_views(paths: Seq<Vec<usize>>, x: Seq<usize>)
    ensures
        found(paths, x) <==> path_views(paths).contains(x),
{
    let views = path_views(paths);
    if found(paths, x) {
        let i = choose|i: int| 0 <= i < paths.len() && (#[trigger] paths[i])@ == x;
        assert(views[i] == x);
    }
    if views.contains(x) {
        let i = choose|i: int| 0 <= i < views.len() && views[i] == x;
        assert(paths[i]@ == x);
    }
}

/// Of two traces of reports of the same search, the shorter is as long as the
/// longer.
proof fn lemma_trace_lengths(
    rows: int,
    cols: int,
    obstacles: Seq<u8>,
    waypoints: Seq<(usize, usize)>,
    solution_cap: u32,
    call_cap: u32,
    r1: SolutionSearchResult,
    t1: Seq<Seq<usize>>,
    r2: SolutionSearchResult,
    t2: Seq<Seq<usize>>,
)
    requires
        obstacles.len() == rows * cols,
        waypoints_usable(obstacles, waypoints),
        search_result_spec(rows, cols, obstacles, waypoints, solution_cap, call_cap, r1),
        search_result_spec(rows, cols, obstacles, waypoints, solution_cap, call_cap, r2),
        visit_trace(rows, cols, obstacles, waypoints, solution_cap, r1, t1),
        visit_trace(rows, cols, obstacles, waypoints, solution_cap, r2, t2),
        t1.len() <= t2.len(),
    ensures
        t1.len() == t2.len(),
{
    if t1.len() < t2.len() {
        lemma_traces_agree(rows, cols, obstacles, waypoints, t1, t2, t1.len() - 1);
        let cap = at_least_one(solution_cap);
        if r1.exhausted {
            assert(false);
        } else if r1.solutions@.len() < cap {
            assert forall|i: int| 0 <= i < t2.len() implies t1.contains(#[trigger] t2[i]) by {
                assert(search_walk(rows, cols, obstacles, waypoints, t2[i]));
            }
            lemma_distinct_within(t2, t1);
        } else {
            lemma_search_result_counts(rows, cols, obstacles, waypoints, solution_cap, call_cap, r1);
            lemma_search_result_counts(rows, cols, obstacles, waypoints, solution_cap, call_cap, r2);
            let v1 = path_views(r1.solutions@);
            let v2 = path_views(r2.solutions@);
            let y = t2[t2.len() - 1];
            assert forall|i: int| 0 <= i < v1.len() implies v2.contains(#[trigger] v1[i]) && v1[i] != y by {
                let x = v1[i];
                assert(x == r1.solutions@[i]@);
                assert(t1.contains(x));
                let p = choose|p: int| 0 <= p < t1.len() && t1[p] == x;
                assert(t2[p] == t1[p]);
                assert(constrained_path(rows, cols, obstacles, waypoints, t2[p]));
                assert(found(r2.solutions@, t2[p]));
                lemma_found_in_views(r2.solutions@, x);
            }
            if !r2.exhausted && r2.solutions@.len() >= cap {
                let both = v1.push(y);
                assert(y == r2.solutions@.last()@);
                assert(v2[v2.len() - 1] == y);
                assert forall|i: int| 0 <= i < both.len() implies v2.contains(#[trigger] both[i]) by {
                    if i < v1.len() {
                        assert(both[i] == v1[i]);
                    }
                }
                assert(both.no_duplicates()) by {
                    assert forall|a: int, b: int|
                        0 <= a < both.len() && 0 <= b < both.len() && a != b implies both[a] != both[b] by {
                        if a < v1.len() && b < v1.len() {
                            assert(both[a] == v1[a] && both[b] == v1[b]);
                        } else if a < v1.len() {
                            assert(both[a] == v1[a]);
                        } else if b < v1.len() {
                            assert(both[b] == v1[b]);
                        }
                    }
                }
                lemma_distinct_within(both, v2);
            } else {
                lemma_distinct_within(v1, v2);
            }
        }
    }
}

/// The search's report is fixed by the puzzle and the caps: two reports that
/// both meet `search_result_spec` give the same solutions in the same order,
/// the same number of visits, and the same verdict on running out of visits.
pub proof fn lemma_search_result_unique(
    rows: int,
    cols: int,
    obstacles: Seq<u8>,
    waypoints: Seq<(usize, usize)>,
    solution_cap: u32,
    call_cap: u32,
    r1: SolutionSearchResult,
    r2: SolutionSearchResult,
)
    requires
        search_result_spec(rows, cols, obstacles, waypoints, solution_cap, call_cap, r1),
        search_result_spec(rows, cols, obstacles, waypoints, solution_cap, call_cap, r2),
    ensures
        path_views(r1.solutions@) == path_views(r2.solutions@),
        r1.solver_calls == r2.solver_calls,
        r1.exhausted == r2.exhausted,
{
    if obstacles.len() != rows * cols || !waypoints_usable(obstacles, waypoints) {
        assert(path_views(r1.solutions@) =~= path_views(r2.solutions@));
    } else {
        let t1 = choose|w: Seq<Seq<usize>>| visit_trace(rows, cols, obstacles, waypoints, solution_cap, r1, w);
        let t2 = choose|w: Seq<Seq<usize>>| visit_trace(rows, cols, obstacles, waypoints, solution_cap, r2, w);
        if t1.len() <= t2.len() {
            lemma_trace_lengths(rows, cols, obstacles, waypoints, solution_cap, call_cap, r1, t1, r2, t2);
        } else {
            lemma_trace_lengths(rows, cols, obstacles, waypoints, solution_cap, call_cap, r2, t2, r1, t1);
        }
        lemma_traces_agree(rows, cols, obstacles, waypoints, t1, t2, t1.len() - 1);
        assert(t1 =~= t2);
        lemma_search_result_counts(rows, cols, obstacles, waypoints, solution_cap, call_cap, r1);
        lemma_search_result_counts(rows, cols, obstacles, waypoints, solution_cap, call_cap, r2);
        let v1 = path_views(r1.solutions@);
        let v2 = path_views(r2.solutions@);
        assert forall|x: Seq<usize>| v1.contains(x) <==> v2.contains(x) by {
            lemma_found_in_views(r1.solutions@, x);
            lemma_found_in_views(r2.solutions@, x);
            if v1.contains(x) {
                assert(t1.contains(x));
                let p = choose|p: int| 0 <= p < t1.len() && t1[p] == x;
                if r1.exhausted && p == t1.len() - 1 {
                    assert(!found(r1.solutions@, t1.last()));
                }
                assert(constrained_path(rows, cols, obstacles, waypoints, t2[p]));
            }
            if v2.contains(x) {
                assert(t2.contains(x));
                let p = choose|p: int| 0 <= p < t2.len() && t2[p] == x;
                if r2.exhausted && p == t2.len() - 1 {
                    assert(!found(r2.solutions@, t2.last()));
                }
                assert(constrained_path(rows, cols, obstacles, waypoints, t1[p]));
            }
        }
        assert forall|i: int| 0 <= i < v1.len() implies v2.contains(#[trigger] v1[i]) by {
            assert(v1.contains(v1[i]));
        }
        assert forall|i: int| 0 <= i < v2.len() implies v1.contains(#[trigger] v2[i]) by {
            assert(v2.contains(v2[i]));
        }
        lemma_distinct_within(v1, v2);
        lemma_distinct_within(v2, v1);
        let before = |p: Seq<usize>, q: Seq<usize>| found_before(rows, cols, obstacles, p, q);
        assert forall|x: Seq<usize>, y: Seq<usize>| #[trigger] before(x, y) implies !before(y, x) by {
            lemma_found_before_asymmetric(rows, cols, obstacles, x, y);
        }
        assert forall|a: int, b: int| 0 <= a < b < v1.len() implies #[trigger] before(v1[a], v1[b]) by {
            assert(v1[a] == r1.solutions@[a]@ && v1[b] == r1.solutions@[b]@);
        }
        assert forall|a: int, b: int| 0 <= a < b < v2.len() implies #[trigger] before(v2[a], v2[b]) by {
            assert(v2[a] == r2.solutions@[a]@ && v2[b] == r2.solutions@[b]@);
        }
        if v1.len() > 0 {
            lemma_same_items_same_order(before, v1, v2, v1.len() - 1);
        }
        assert(v1 =~= v2);
    }
}


/// The open cells of an obstacle map.
pub open spec fn open_cells(obstacles: Seq<u8>) -> Set<usize> {
    Set::new(|c: usize| c < obstacles.len() && obstacles[c as int] == 0u8)
}

/// There are `open_cell_count` open cells.
pub proof fn lemma_open_cells_len(obstacles: Seq<u8>)
    requires
        obstacles.len() <= usize::MAX,
    ensures
        open_cells(obstacles).finite(),
        open_cells(obstacles).len() == open_cell_count(obstacles),
    decreases obstacles.len(),
{
    if obstacles.len() == 0 {
        assert(open_cells(obstacles) =~= Set::<usize>::empty());
    } else {
        let t = obstacles.drop_last();
        lemma_open_cells_len(t);
        let last = (obstacles.len() - 1) as usize;
        assert(!open_cells(t).contains(last));
        if obstacles.last() == 0u8 {
            assert(open_cells(obstacles) =~= open_cells(t).insert(last));
        } else {
            assert(open_cells(obstacles) =~= open_cells(t));
        }
    }
}

/// A covering path visits every open cell, and only open cells: the cells it
/// visits are exactly the open ones.
pub proof fn lemma_covering_path_visits_every_open_cell(
    rows: int,
    cols: int,
    obstacles: Seq<u8>,
    path: Seq<usize>,
)
    requires
        valid_covering_path(rows, cols, obstacles, path),
        obstacles.len() <= usize::MAX,
    ensures
        forall|c: usize| #[trigger] path.contains(c) <==> (c < obstacles.len() && obstacles[c as int] == 0u8),
{
    lemma_open_cells_len(obstacles);
    path.unique_seq_to_set();
    let visited = path.to_set();
    assert(visited.subset_of(open_cells(obstacles))) by {
        assert forall|c: usize| visited.contains(c) implies open_cells(obstacles).contains(c) by {
            let i = choose|i: int| 0 <= i < path.len() && path[i] == c;
            assert(path[i] < obstacles.len());
        }
    }
    vstd::set_lib::lemma_subset_equality(visited, open_cells(obstacles));
    assert forall|c: usize| #[trigger] path.contains(c) <==> (c < obstacles.len() && obstacles[c as int]
        == 0u8) by {
        assert(visited.contains(c) <==> path.contains(c));
        assert(open_cells(obstacles).contains(c) <==> (c < obstacles.len() && obstacles[c as int] == 0u8));
    }
}

} // verus!
