//! The reindeer's search for the cheapest ways through a maze.
//!
//! The reindeer's state is a tile and the direction it faces. With a
//! positive cost per rotation it can step one tile forward (cost 1) or turn
//! in place by one, two or three quarter turns (costs r, 2r and r). With a
//! rotation cost of zero, turning is ignored and it steps to any of the four
//! neighbouring ground tiles at cost 1, facing the way it moved.
//!
//! The search is a best-first label-correcting search: a list of states to
//! visit, sorted so that the cheapest (and, among equally cheap, the one
//! closest to the end) comes next; the best known cost of each state; and
//! for each state the set of states it is best reached from. It runs one
//! visited state at a time, reporting each tile it touches, so that a
//! driver can show the search as it goes.
use vstd::prelude::*;

use crate::coordinate::{Coordinate, in_bounds, row_major_index, manhattan};
use crate::direction::{Direction, direction_at, direction_index, direction_vector};
use crate::maze::{Maze, MazeModel, Tile, count_walls, is_open, maze_wf, tile_at};
use crate::maze_tile_state::MazeTileState;
use crate::path_info::PathInfo;

verus! {

/// A state of the reindeer: where it stands and which way it faces.
#[derive(Clone, Copy, Debug, PartialEq, Eq, Structural, Hash)]
pub struct CoordinateAndDirection {
    pub coordinate: Coordinate,
    pub direction: Direction,
}

/// The coordinate one tile away in a direction.
pub open spec fn shifted(c: Coordinate, d: Direction) -> Coordinate {
    Coordinate {
        x: (c.x + direction_vector(d).0) as isize,
        y: (c.y + direction_vector(d).1) as isize,
    }
}

/// A state on a ground tile of the maze.
pub open spec fn state_valid(m: MazeModel, s: CoordinateAndDirection) -> bool {
    is_open(m, s.coordinate)
}

/// Where a state's entry lives in per-state tables: four entries per tile.
pub open spec fn state_index(m: MazeModel, s: CoordinateAndDirection) -> int {
    row_major_index(s.coordinate, m.dim_x) * 4 + direction_index(s.direction)
}

/// The state the reindeer starts in.
pub open spec fn start_state(m: MazeModel) -> CoordinateAndDirection {
    CoordinateAndDirection { coordinate: m.start, direction: m.start_direction }
}

/// The cost of turning `k` quarter turns clockwise: 0, r, 2r or r.
pub open spec fn turn_cost(k: int, r: nat) -> nat {
    let q = k % 4;
    if q == 0 {
        0
    } else if q == 2 {
        2 * r
    } else {
        r
    }
}

/// The cost of moving from state `u` to state `v` in one action, if that is
/// one action (see the module documentation).
pub open spec fn step_cost(
    m: MazeModel,
    r: nat,
    u: CoordinateAndDirection,
    v: CoordinateAndDirection,
) -> Option<nat> {
    if !state_valid(m, u) || !state_valid(m, v) {
        None
    } else if r == 0 {
        if v.coordinate == shifted(u.coordinate, v.direction) {
            Some(1)
        } else {
            None
        }
    } else if v.direction == u.direction && v.coordinate == shifted(u.coordinate, u.direction) {
        Some(1)
    } else if v.coordinate == u.coordinate && v.direction != u.direction {
        Some(turn_cost(direction_index(v.direction) - direction_index(u.direction), r))
    } else {
        None
    }
}

/// A walk: a sequence of states from the start state in which each state is
/// one action away from the previous one.
pub open spec fn is_walk(m: MazeModel, r: nat, w: Seq<CoordinateAndDirection>) -> bool {
    &&& w.len() >= 1
    &&& w[0] == start_state(m)
    &&& forall|i: int| 0 <= i < w.len() - 1 ==> (#[trigger] step_cost(m, r, w[i], w[i + 1])) is Some
}

/// The total cost of the actions of a walk.
pub open spec fn walk_cost(m: MazeModel, r: nat, w: Seq<CoordinateAndDirection>) -> nat
    decreases w.len(),
{
    if w.len() <= 1 {
        0
    } else {
        walk_cost(m, r, w.drop_last()) + step_cost(m, r, w[w.len() - 2], w.last())->0
    }
}

/// The tiles a walk passes through, each consecutive repetition (from
/// turning in place) kept once.
pub open spec fn walk_tiles(w: Seq<CoordinateAndDirection>) -> Seq<Coordinate>
    decreases w.len(),
{
    if w.len() == 0 {
        Seq::empty()
    } else {
        let p = walk_tiles(w.drop_last());
        if p.len() > 0 && p.last() == w.last().coordinate {
            p
        } else {
            p.push(w.last().coordinate)
        }
    }
}

/// Some walk reaches a state on the end tile.
pub open spec fn end_reachable(m: MazeModel, r: nat) -> bool {
    exists|w: Seq<CoordinateAndDirection>| is_walk(m, r, w) && #[trigger] w.last().coordinate == m.end
}

/// `score` is the least cost of a walk that reaches the end tile.
pub open spec fn is_best_score(m: MazeModel, r: nat, score: nat) -> bool {
    &&& exists|w: Seq<CoordinateAndDirection>|
        is_walk(m, r, w) && #[trigger] w.last().coordinate == m.end && walk_cost(m, r, w) == score
    &&& forall|w: Seq<CoordinateAndDirection>|
        is_walk(m, r, w) && #[trigger] w.last().coordinate == m.end ==> score <= walk_cost(m, r, w)
}

/// A walk to state `e` that costs `score`.
pub open spec fn is_best_walk_to(
    m: MazeModel,
    r: nat,
    score: nat,
    e: CoordinateAndDirection,
    w: Seq<CoordinateAndDirection>,
) -> bool {
    is_walk(m, r, w) && w.last() == e && walk_cost(m, r, w) == score
}

/// The end state a finished search reports paths to: on the end tile, facing
/// the first direction (in the order North, East, South, West) in which the
/// end tile is reached at the best score.
pub open spec fn is_reported_end(
    m: MazeModel,
    r: nat,
    score: nat,
    e: CoordinateAndDirection,
) -> bool {
    &&& e.coordinate == m.end
    &&& exists|w: Seq<CoordinateAndDirection>| #[trigger] is_best_walk_to(m, r, score, e, w)
    &&& forall|d: Direction, w: Seq<CoordinateAndDirection>|
        direction_index(d) < direction_index(e.direction) ==> !#[trigger] is_best_walk_to(
            m,
            r,
            score,
            CoordinateAndDirection { coordinate: m.end, direction: d },
            w,
        )
}

/// `walks` are the walks of cost `score` to `e`, each exactly once, and
/// `paths` their tiles, in the same order.
pub open spec fn lists_best_walks(
    m: MazeModel,
    r: nat,
    score: nat,
    e: CoordinateAndDirection,
    walks: Seq<Seq<CoordinateAndDirection>>,
    paths: Seq<Seq<Coordinate>>,
) -> bool {
    &&& walks.no_duplicates()
    &&& forall|w: Seq<CoordinateAndDirection>|
        #[trigger] walks.contains(w) <==> is_best_walk_to(m, r, score, e, w)
    &&& paths == walks.map_values(|w: Seq<CoordinateAndDirection>| walk_tiles(w))
}

/// What a finished search reports: nothing when the end cannot be reached;
/// otherwise the best score, and the tiles of every walk of that cost to the
/// reported end state, each walk exactly once, in some order.
pub open spec fn search_result_correct(m: MazeModel, r: nat, result: Option<PathInfo>) -> bool {
    match result {
        None => !end_reachable(m, r),
        Some(info) => {
            &&& is_best_score(m, r, info.score() as nat)
            &&& exists|e: CoordinateAndDirection, walks: Seq<Seq<CoordinateAndDirection>>|
                #[trigger] is_reported_end(m, r, info.score() as nat, e) && #[trigger] lists_best_walks(
                    m,
                    r,
                    info.score() as nat,
                    e,
                    walks,
                    info.paths(),
                )
        },
    }
}

/// The most a single action can cost.
pub open spec fn max_step(r: nat) -> nat {
    if r == 0 {
        1
    } else {
        2 * r
    }
}

/// The search's bound on costs: every number it computes fits in a `usize`.
pub open spec fn search_fits(m: MazeModel, r: nat) -> bool {
    4 * m.dim_x * m.dim_y * (2 * r + 1) < usize::MAX
}

/// The number of entries that are set.
pub open spec fn count_some(s: Seq<Option<usize>>) -> nat
    decreases s.len(),
{
    if s.len() == 0 {
        0
    } else {
        count_some(s.drop_last()) + if s.last() is Some {
            1nat
        } else {
            0nat
        }
    }
}

/// One tile-state change reported by the search: tile `idx` (row-major)
/// takes `state`, shown facing `direction`.
#[derive(Clone, Copy, Debug, PartialEq, Eq, Structural)]
pub struct TileUpdate {
    pub idx: usize,
    pub state: MazeTileState,
    pub direction: Direction,
}

/// What one step of the search produced.
pub enum SearchProgress {
    /// A state was visited; these are the tile changes, in order.
    Running(Vec<TileUpdate>),
    /// Nothing was left to visit; the result of the search.
    Finished(Option<PathInfo>),
}

/// A search in progress.
pub struct PathSearch {
    tiles: Vec<Tile>,
    dim_x: usize,
    dim_y: usize,
    start: CoordinateAndDirection,
    end_coordinate: Coordinate,
    cost_per_rotation: u32,
    costs: Vec<Option<usize>>,
    preds: Vec<Vec<CoordinateAndDirection>>,
    to_visit: Vec<CoordinateAndDirection>,
    score: Option<usize>,
}

/// The score as a bound: unlimited (`usize::MAX`) while nothing is known.
pub open spec fn score_bound(score: Option<usize>) -> nat {
    match score {
        Some(v) => v as nat,
        None => usize::MAX as nat,
    }
}

impl PathSearch {
    /// The maze being searched.
    pub closed spec fn maze(&self) -> MazeModel {
        MazeModel {
            tiles: self.tiles@,
            dim_x: self.dim_x as nat,
            dim_y: self.dim_y as nat,
            n_walls: count_walls(self.tiles@),
            start: self.start.coordinate,
            end: self.end_coordinate,
            start_direction: self.start.direction,
        }
    }

    /// The cost of one quarter turn.
    pub closed spec fn rotation_cost(&self) -> nat {
        self.cost_per_rotation as nat
    }

    /// The best known cost of a state, if any.
    pub closed spec fn cost(&self, s: CoordinateAndDirection) -> Option<usize> {
        self.costs@[state_index(self.maze(), s)]
    }

    /// The states a state is best reached from, as far as known.
    pub closed spec fn preds_of(&self, s: CoordinateAndDirection) -> Seq<CoordinateAndDirection> {
        self.preds@[state_index(self.maze(), s)]@
    }

    /// The states still to visit, the next one last.
    pub closed spec fn pending(&self) -> Seq<CoordinateAndDirection> {
        self.to_visit@
    }

    /// The best cost at which the end tile has been visited, if any.
    pub closed spec fn best_score(&self) -> Option<usize> {
        self.score
    }

    /// The action from `u` to `v`, if there is one, has been tried at `u`'s
    /// current cost: it costs more than the score, or `v` is known at a lower
    /// cost, or at the same cost with `u` among its predecessors.
    pub closed spec fn relax_ok(&self, u: CoordinateAndDirection, v: CoordinateAndDirection) -> bool {
        let m = self.maze();
        let r = self.rotation_cost();
        step_cost(m, r, u, v) is Some ==> ({
            let w = step_cost(m, r, u, v)->0;
            let cu = self.cost(u)->0 as nat;
            ||| cu + w > score_bound(self.score)
            ||| (self.cost(v) matches Some(cv) && (cv < cu + w || (cv == cu + w
                && self.preds_of(v).contains(u))))
        })
    }

    /// State `u` has had every action out of it tried at its current cost.
    pub closed spec fn relaxed(&self, u: CoordinateAndDirection) -> bool {
        forall|v: CoordinateAndDirection| #[trigger] self.relax_ok(u, v)
    }

    /// `p` is a known state one action before the known state `v`, and its
    /// cost plus that action's cost is at most `v`'s cost.
    pub closed spec fn pred_ok(&self, p: CoordinateAndDirection, v: CoordinateAndDirection) -> bool {
        let m = self.maze();
        let r = self.rotation_cost();
        &&& state_valid(m, p)
        &&& self.cost(p) is Some
        &&& self.cost(v) is Some
        &&& step_cost(m, r, p, v) is Some
        &&& self.cost(p)->0 + step_cost(m, r, p, v)->0 <= self.cost(v)->0
    }

    /// The maze is well formed, the search's numbers fit, and the per-state
    /// tables have an entry for every state.
    pub closed spec fn shape_ok(&self) -> bool {
        let m = self.maze();
        let r = self.rotation_cost();
        let n = 4 * m.dim_x * m.dim_y;
        &&& maze_wf(m)
        &&& search_fits(m, r)
        &&& r <= u32::MAX / 2
        &&& self.costs@.len() == n
        &&& self.preds@.len() == n
    }

    /// The search's invariant, except for which states are relaxed.
    pub closed spec fn inv_core(&self) -> bool {
        let m = self.maze();
        let r = self.rotation_cost();
        let n = 4 * m.dim_x * m.dim_y;
        &&& self.shape_ok()
        &&& self.cost(start_state(m)) == Some(0usize)
        // costs stay within what a path through the states set so far can cost
        &&& forall|i: int|
            0 <= i < n ==> (#[trigger] self.costs@[i] matches Some(c) ==> c + max_step(r)
                <= count_some(self.costs@) * max_step(r))
        // every state to visit is a known ground state
        &&& forall|i: int|
            0 <= i < self.to_visit@.len() ==> state_valid(m, #[trigger] self.to_visit@[i])
                && self.cost(self.to_visit@[i]) is Some
        // predecessors are known states one action before, at no more cost
        &&& forall|v: CoordinateAndDirection|
            state_valid(m, v) ==> {
                &&& (#[trigger] self.preds_of(v)).no_duplicates()
                &&& (self.preds_of(v).len() > 0 <==> (self.cost(v) is Some && v != start_state(m)))
                &&& forall|j: int|
                    0 <= j < self.preds_of(v).len() ==> self.pred_ok(#[trigger] self.preds_of(v)[j], v)
            }
        // known end states not waiting to be visited are no better than the score
        &&& forall|u: CoordinateAndDirection|
            state_valid(m, u) && u.coordinate == m.end && #[trigger] self.cost(u) is Some
                && !self.to_visit@.contains(u) ==> (self.score matches Some(sv) && sv <= self.cost(
                u,
            )->0)
        // the score is the cost of a known end state
        &&& (self.score matches Some(sv) ==> exists|u: CoordinateAndDirection|
            state_valid(m, u) && u.coordinate == m.end && (#[trigger] self.cost(u) matches Some(
                cu,
            ) && cu <= sv))
    }

    /// Every known state that is not waiting to be visited, other than
    /// `except` when given, has been relaxed.
    pub closed spec fn relaxed_except(&self, except: Option<CoordinateAndDirection>) -> bool {
        forall|u: CoordinateAndDirection|
            state_valid(self.maze(), u) && self.cost(u) is Some && !self.to_visit@.contains(u)
                && except != Some(u) ==> #[trigger] self.relaxed(u)
    }

    /// The search's invariant.
    pub closed spec fn inv(&self) -> bool {
        self.inv_core() && self.relaxed_except(None)
    }
}

} // verus!

verus! {

/// The cost of turning `rotations` quarter turns clockwise at
/// `cost_per_rotation` per quarter turn: turning by one or three quarters
/// costs one rotation, by two quarters two rotations.
pub fn rotation_cost(rotations: usize, cost_per_rotation: u32) -> (c: u32)
    requires
        cost_per_rotation <= u32::MAX / 2,
    ensures
        c == turn_cost(rotations as int, cost_per_rotation as nat),
{
    let clamped = rotations % 4;
    if clamped == 0 {
        0
    } else if clamped == 2 {
        2 * cost_per_rotation
    } else {
        cost_per_rotation
    }
}

proof fn lemma_row_major_unique(y1: int, x1: int, y2: int, x2: int, w: int)
    requires
        0 <= x1 < w,
        0 <= x2 < w,
        0 <= y1,
        0 <= y2,
        y1 * w + x1 == y2 * w + x2,
    ensures
        y1 == y2,
        x1 == x2,
{
    if y1 < y2 {
        assert(y1 * w + x1 < (y1 + 1) * w) by (nonlinear_arith)
            requires
                x1 < w,
        ;
        assert((y1 + 1) * w <= y2 * w) by (nonlinear_arith)
            requires
                y1 + 1 <= y2,
                0 <= w,
        ;
    } else if y2 < y1 {
        assert(y2 * w + x2 < (y2 + 1) * w) by (nonlinear_arith)
            requires
                x2 < w,
        ;
        assert((y2 + 1) * w <= y1 * w) by (nonlinear_arith)
            requires
                y2 + 1 <= y1,
                0 <= w,
        ;
    }
}

proof fn lemma_row_major_bounds(y: int, x: int, w: int, h: int)
    requires
        0 <= x < w,
        0 <= y < h,
    ensures
        0 <= y * w + x < w * h,
        y * w + x < h * w,
{
    assert(y * w + x < (y + 1) * w) by (nonlinear_arith)
        requires
            x < w,
    ;
    assert((y + 1) * w <= h * w) by (nonlinear_arith)
        requires
            y + 1 <= h,
            0 <= w,
    ;
    assert(0 <= y * w) by (nonlinear_arith)
        requires
            0 <= y,
            0 <= w,
    ;
    assert(h * w == w * h) by (nonlinear_arith);
}

/// Entries of distinct states are distinct and lie within the tables.
pub proof fn lemma_state_index(m: MazeModel, s1: CoordinateAndDirection, s2: CoordinateAndDirection)
    requires
        maze_wf(m),
        state_valid(m, s1),
        state_valid(m, s2),
    ensures
        0 <= state_index(m, s1) < 4 * m.dim_x * m.dim_y,
        state_index(m, s1) == state_index(m, s2) ==> s1 == s2,
{
    let c1 = s1.coordinate;
    let c2 = s2.coordinate;
    lemma_row_major_bounds(c1.y as int, c1.x as int, m.dim_x as int, m.dim_y as int);
    let t1 = row_major_index(c1, m.dim_x);
    assert(4 * m.dim_x * m.dim_y == 4 * (m.dim_x * m.dim_y)) by (nonlinear_arith);
    if state_index(m, s1) == state_index(m, s2) {
        let t2 = row_major_index(c2, m.dim_x);
        assert(t1 == t2);
        lemma_row_major_unique(c1.y as int, c1.x as int, c2.y as int, c2.x as int, m.dim_x as int);
        assert(direction_index(s1.direction) == direction_index(s2.direction));
    }
}

} // verus!

verus! {

/// The row-major index of a coordinate on the grid lies within the tiles.
pub proof fn lemma_tile_index(m: MazeModel, c: Coordinate)
    requires
        maze_wf(m),
        in_bounds(c, m.dim_x, m.dim_y),
    ensures
        0 <= row_major_index(c, m.dim_x) < m.dim_x * m.dim_y,
        0 <= row_major_index(c, m.dim_x) < m.tiles.len(),
{
    lemma_row_major_bounds(c.y as int, c.x as int, m.dim_x as int, m.dim_y as int);
}

} // verus!

verus! {

proof fn lemma_count_some_push(s: Seq<Option<usize>>, v: Option<usize>)
    ensures
        count_some(s.push(v)) == count_some(s) + if v is Some {
            1nat
        } else {
            0nat
        },
{
    assert(s.push(v).drop_last() =~= s);
}

proof fn lemma_count_some_update(s: Seq<Option<usize>>, i: int, v: Option<usize>)
    requires
        0 <= i < s.len(),
    ensures
        count_some(s.update(i, v)) + (if s[i] is Some {
            1nat
        } else {
            0nat
        }) == count_some(s) + (if v is Some {
            1nat
        } else {
            0nat
        }),
    decreases s.len(),
{
    let t = s.update(i, v);
    if i == s.len() - 1 {
        assert(t.drop_last() =~= s.drop_last());
    } else {
        assert(t.drop_last() =~= s.drop_last().update(i, v));
        lemma_count_some_update(s.drop_last(), i, v);
    }
}

proof fn lemma_count_some_le(s: Seq<Option<usize>>)
    ensures
        count_some(s) <= s.len(),
    decreases s.len(),
{
    if s.len() > 0 {
        lemma_count_some_le(s.drop_last());
    }
}

/// The maze a search over these parts runs on.
pub open spec fn parts_model(
    tiles: Seq<Tile>,
    dim_x: usize,
    dim_y: usize,
    start: Coordinate,
    end: Coordinate,
    start_direction: Direction,
) -> MazeModel {
    MazeModel {
        tiles,
        dim_x: dim_x as nat,
        dim_y: dim_y as nat,
        n_walls: count_walls(tiles),
        start,
        end,
        start_direction,
    }
}

impl PathSearch {
    /// A search that has only the start state to visit, at cost 0.
    pub(crate) fn new(
        tiles: Vec<Tile>,
        dim_x: usize,
        dim_y: usize,
        start: Coordinate,
        end: Coordinate,
        start_direction: Direction,
        cost_per_rotation: u32,
    ) -> (s: PathSearch)
        requires
            maze_wf(parts_model(tiles@, dim_x, dim_y, start, end, start_direction)),
            search_fits(
                parts_model(tiles@, dim_x, dim_y, start, end, start_direction),
                cost_per_rotation as nat,
            ),
            cost_per_rotation <= u32::MAX / 2,
        ensures
            s.inv(),
            s.maze() == parts_model(tiles@, dim_x, dim_y, start, end, start_direction),
            s.rotation_cost() == cost_per_rotation,
            s.pending() == seq![start_state(s.maze())],
            s.best_score() is None,
            forall|v: CoordinateAndDirection|
                state_valid(s.maze(), v) ==> #[trigger] s.cost(v) == if v == start_state(
                    s.maze(),
                ) {
                    Some(0usize)
                } else {
                    None
                },
    {
        let ghost m = parts_model(tiles@, dim_x, dim_y, start, end, start_direction);
        proof {
            assert(4 * dim_x * dim_y <= 4 * dim_x * dim_y * (2 * cost_per_rotation + 1))
                by (nonlinear_arith)
                requires
                    0 <= 4 * dim_x * dim_y,
                    1 <= 2 * cost_per_rotation + 1,
            ;
        }
        proof {
            lemma_tile_index(m, start);
            assert(4 * dim_x <= 4 * dim_x * dim_y) by (nonlinear_arith)
                requires
                    dim_y >= 1,
            ;
        }
        let n: usize = 4 * dim_x * dim_y;
        let mut costs: Vec<Option<usize>> = Vec::new();
        let mut preds: Vec<Vec<CoordinateAndDirection>> = Vec::new();
        let mut i: usize = 0;
        while i < n
            invariant
                i <= n,
                costs@.len() == i,
                preds@.len() == i,
                forall|j: int| 0 <= j < i ==> #[trigger] costs@[j] is None,
                forall|j: int| 0 <= j < i ==> (#[trigger] preds@[j])@.len() == 0,
                count_some(costs@) == 0,
            decreases n - i,
        {
            proof {
                lemma_count_some_push(costs@, None);
            }
            costs.push(None);
            preds.push(Vec::new());
            i = i + 1;
        }
        let start_state_exec = CoordinateAndDirection { coordinate: start, direction: start_direction };
        proof {
            lemma_state_index(m, start_state_exec, start_state_exec);
            lemma_tile_index(m, start);
        }
        let start_tile: usize = (start.y as usize) * dim_x + (start.x as usize);
        let start_index: usize = start_tile * 4 + start_direction.index();
        proof {
            lemma_count_some_update(costs@, start_index as int, Some(0usize));
        }
        costs.set(start_index, Some(0));
        let mut to_visit: Vec<CoordinateAndDirection> = Vec::new();
        to_visit.push(start_state_exec);
        let s = PathSearch {
            tiles,
            dim_x,
            dim_y,
            start: start_state_exec,
            end_coordinate: end,
            cost_per_rotation,
            costs,
            preds,
            to_visit,
            score: None,
        };
        proof {
            assert(s.maze() == m);
            assert forall|v: CoordinateAndDirection|
                state_valid(s.maze(), v) implies #[trigger] s.cost(v) == if v == start_state(
                    s.maze(),
                ) {
                    Some(0usize)
                } else {
                    None
                } by {
                lemma_state_index(m, v, start_state_exec);
            }
            assert forall|v: CoordinateAndDirection| state_valid(m, v) implies {
                &&& (#[trigger] s.preds_of(v)).no_duplicates()
                &&& (s.preds_of(v).len() > 0 <==> (s.cost(v) is Some && v != start_state(m)))
                &&& forall|j: int|
                    0 <= j < s.preds_of(v).len() ==> s.pred_ok(#[trigger] s.preds_of(v)[j], v)
            } by {
                lemma_state_index(m, v, start_state_exec);
            }
            assert forall|u: CoordinateAndDirection|
                state_valid(m, u) && s.cost(u) is Some && !s.to_visit@.contains(u)
                    implies #[trigger] s.relaxed(u) by {
                lemma_state_index(m, u, start_state_exec);
                assert(s.to_visit@[0] == u);
            }
            assert forall|u: CoordinateAndDirection|
                state_valid(m, u) && u.coordinate == m.end && #[trigger] s.cost(u) is Some
                    && !s.to_visit@.contains(u) implies (s.score matches Some(sv) && sv <= s.cost(
                    u,
                )->0) by {
                lemma_state_index(m, u, start_state_exec);
                assert(s.to_visit@[0] == u);
            }
            assert forall|j: int|
                0 <= j < n implies (#[trigger] s.costs@[j] matches Some(c) ==> c + max_step(
                    cost_per_rotation as nat,
                ) <= count_some(s.costs@) * max_step(cost_per_rotation as nat)) by {
                assert(count_some(s.costs@) == 1);
                if j != start_index {
                    assert(s.costs@[j] is None);
                }
            }
        }
        s
    }
}

} // verus!

verus! {

/// The steps to the ground tiles among the first `k` neighbours of `cur`
/// in the order North, East, South, West, each facing the way it moves and
/// costing 1.
pub open spec fn free_moves(m: MazeModel, cur: CoordinateAndDirection, k: nat) -> Seq<
    (CoordinateAndDirection, nat),
>
    decreases k,
{
    if k == 0 {
        Seq::empty()
    } else {
        let d = direction_at(k - 1);
        let t = shifted(cur.coordinate, d);
        free_moves(m, cur, (k - 1) as nat) + if is_open(m, t) {
            seq![(CoordinateAndDirection { coordinate: t, direction: d }, 1nat)]
        } else {
            Seq::empty()
        }
    }
}

/// The turns in place out of `cur` by the first `k` of one, two and three
/// quarter turns clockwise, with their costs.
pub open spec fn turn_moves(cur: CoordinateAndDirection, r: nat, k: nat) -> Seq<
    (CoordinateAndDirection, nat),
>
    decreases k,
{
    if k == 0 {
        Seq::empty()
    } else {
        turn_moves(cur, r, (k - 1) as nat).push(
            (
                CoordinateAndDirection {
                    coordinate: cur.coordinate,
                    direction: direction_at(direction_index(cur.direction) + k),
                },
                turn_cost(k as int, r),
            ),
        )
    }
}

/// The moves out of `cur`, in the order the search tries them, with their
/// costs: with free turning, the steps to the ground tiles North, East,
/// South and West of it; otherwise the step forward (onto ground), then the
/// turns by one, two and three quarter turns clockwise.
pub open spec fn candidate_moves(m: MazeModel, r: nat, cur: CoordinateAndDirection) -> Seq<
    (CoordinateAndDirection, nat),
> {
    if r == 0 {
        free_moves(m, cur, 4)
    } else {
        let t = shifted(cur.coordinate, cur.direction);
        (if is_open(m, t) {
            seq![(CoordinateAndDirection { coordinate: t, direction: cur.direction }, 1nat)]
        } else {
            Seq::empty()
        }) + turn_moves(cur, r, 3)
    }
}

/// Moves with their costs as numbers.
pub open spec fn moves_view(c: Seq<(CoordinateAndDirection, u32)>) -> Seq<
    (CoordinateAndDirection, nat),
> {
    c.map_values(|p: (CoordinateAndDirection, u32)| (p.0, p.1 as nat))
}

/// The candidate moves out of a state: target states and action costs.
pub open spec fn candidates_ok(
    m: MazeModel,
    r: nat,
    cur: CoordinateAndDirection,
    cands: Seq<(CoordinateAndDirection, u32)>,
) -> bool {
    &&& forall|i: int|
        0 <= i < cands.len() ==> state_valid(m, (#[trigger] cands[i]).0) && step_cost(
            m,
            r,
            cur,
            cands[i].0,
        ) == Some(cands[i].1 as nat) && cands[i].0 != cur
    &&& forall|v: CoordinateAndDirection|
        #[trigger] step_cost(m, r, cur, v) is Some ==> exists|i: int|
            0 <= i < cands.len() && (#[trigger] cands[i]).0 == v
    &&& forall|i: int, j: int| 0 <= i < j < cands.len() ==> cands[i].0 != cands[j].0
}

/// Moves lead to ground states, no two to the same state.
pub open spec fn targets_ok(m: MazeModel, moves: Seq<(CoordinateAndDirection, nat)>) -> bool {
    &&& forall|i: int| 0 <= i < moves.len() ==> state_valid(m, (#[trigger] moves[i]).0)
    &&& forall|i: int, j: int| 0 <= i < j < moves.len() ==> moves[i].0 != moves[j].0
}

impl PathSearch {
    fn is_ground(&self, c: &Coordinate) -> (b: bool)
        requires
            self.shape_ok(),
        ensures
            b == is_open(self.maze(), *c),
    {
        proof {
            if in_bounds(*c, self.maze().dim_x, self.maze().dim_y) {
                lemma_tile_index(self.maze(), *c);
            }
        }
        match c.try_to_index(self.dim_x, self.dim_y) {
            Some(i) => self.tiles[i] == Tile::Ground,
            None => false,
        }
    }

    fn tile_idx(&self, c: &Coordinate) -> (i: usize)
        requires
            self.shape_ok(),
            in_bounds(*c, self.maze().dim_x, self.maze().dim_y),
        ensures
            i == row_major_index(*c, self.maze().dim_x),
            i < self.maze().dim_x * self.maze().dim_y,
    {
        proof {
            lemma_tile_index(self.maze(), *c);
        }
        (c.y as usize) * self.dim_x + (c.x as usize)
    }

    fn state_idx(&self, s: &CoordinateAndDirection) -> (i: usize)
        requires
            self.shape_ok(),
            state_valid(self.maze(), *s),
        ensures
            i == state_index(self.maze(), *s),
            i < self.costs@.len(),
    {
        proof {
            lemma_state_index(self.maze(), *s, *s);
        }
        let t = self.tile_idx(&s.coordinate);
        proof {
            let m = self.maze();
            assert(self.costs.len() <= usize::MAX);
            assert(t * 4 + 3 < 4 * m.dim_x * m.dim_y) by (nonlinear_arith)
                requires
                    t < m.dim_x * m.dim_y,
            ;
        }
        t * 4 + s.direction.index()
    }

    fn get_cost(&self, s: &CoordinateAndDirection) -> (c: Option<usize>)
        requires
            self.shape_ok(),
            state_valid(self.maze(), *s),
        ensures
            c == self.cost(*s),
    {
        let i = self.state_idx(s);
        self.costs[i]
    }

    /// The states one action away from `cur`, with the actions' costs.
    fn candidates(&self, cur: &CoordinateAndDirection) -> (r: Vec<(CoordinateAndDirection, u32)>)
        requires
            self.shape_ok(),
            state_valid(self.maze(), *cur),
        ensures
            candidates_ok(self.maze(), self.rotation_cost(), *cur, r@),
            moves_view(r@) == candidate_moves(self.maze(), self.rotation_cost(), *cur),
    {
        let ghost m = self.maze();
        let ghost rc = self.rotation_cost();
        let mut results: Vec<(CoordinateAndDirection, u32)> = Vec::new();
        let c = cur.coordinate;
        if self.cost_per_rotation == 0 {
            let dirs: [Direction; 4] = [
                Direction::North,
                Direction::East,
                Direction::South,
                Direction::West,
            ];
            let mut k: usize = 0;
            while k < 4
                invariant
                    self.shape_ok(),
                    m == self.maze(),
                    rc == self.rotation_cost(),
                    rc == 0,
                    state_valid(m, *cur),
                    c == cur.coordinate,
                    k <= 4,
                    dirs@ == seq![Direction::North, Direction::East, Direction::South, Direction::West],
                    forall|i: int|
                        0 <= i < results@.len() ==> state_valid(m, (#[trigger] results@[i]).0)
                            && step_cost(m, rc, *cur, results@[i].0) == Some(
                            results@[i].1 as nat,
                        ) && results@[i].0 != *cur && direction_index(results@[i].0.direction)
                            < k,
                    forall|v: CoordinateAndDirection|
                        #[trigger] step_cost(m, rc, *cur, v) is Some && direction_index(
                            v.direction,
                        ) < k ==> exists|i: int|
                            0 <= i < results@.len() && (#[trigger] results@[i]).0 == v,
                    forall|i: int, j: int|
                        0 <= i < j < results@.len() ==> direction_index(results@[i].0.direction)
                            < direction_index(results@[j].0.direction),
                    moves_view(results@) == free_moves(m, *cur, k as nat),
                decreases 4 - k,
            {
                let direction = dirs[k];
                assert(direction_index(direction) == k);
                let move_target = c + direction.to_vector();
                assert(move_target == shifted(c, direction));
                let ghost old_results = results@;
                if self.is_ground(&move_target) {
                    let target = CoordinateAndDirection { coordinate: move_target, direction };
                    results.push((target, 1));
                }
                proof {
                    assert(direction_at(k as int) == direction);
                    if is_open(m, move_target) {
                        assert(moves_view(results@) =~= moves_view(old_results) + seq![
                            (CoordinateAndDirection { coordinate: move_target, direction }, 1nat),
                        ]);
                    } else {
                        assert(moves_view(results@) =~= moves_view(old_results) + Seq::empty());
                    }
                    assert forall|v: CoordinateAndDirection|
                        #[trigger] step_cost(m, rc, *cur, v) is Some && direction_index(
                            v.direction,
                        ) < k + 1 implies exists|i: int|
                        0 <= i < results@.len() && (#[trigger] results@[i]).0 == v by {
                        if direction_index(v.direction) < k {
                            let i = choose|i: int|
                                0 <= i < old_results.len() && (#[trigger] old_results[i]).0 == v;
                            assert(results@[i] == old_results[i]);
                        } else {
                            assert(v.direction == direction);
                            assert(v.coordinate == move_target);
                            assert(results@[results@.len() - 1].0 == v);
                        }
                    }
                }
                k = k + 1;
            }
        } else {
            let move_target = c + cur.direction.to_vector();
            assert(move_target == shifted(c, cur.direction));
            if self.is_ground(&move_target) {
                let target = CoordinateAndDirection { coordinate: move_target, direction: cur.direction };
                results.push((target, 1));
            }
            proof {
                assert forall|v: CoordinateAndDirection|
                    #[trigger] step_cost(m, rc, *cur, v) is Some && (v.direction == cur.direction
                        || (4 + direction_index(v.direction) - direction_index(cur.direction)) % 4
                        < 1) implies exists|i: int|
                    0 <= i < results@.len() && (#[trigger] results@[i]).0 == v by {
                    assert(v.direction == cur.direction);
                    assert(v.coordinate == move_target);
                    assert(results@[0].0 == v);
                }
            }
            let ghost forward = moves_view(results@);
            proof {
                if is_open(m, move_target) {
                    assert(forward =~= seq![
                        (CoordinateAndDirection { coordinate: move_target, direction: cur.direction }, 1nat),
                    ]);
                } else {
                    assert(forward =~= Seq::<(CoordinateAndDirection, nat)>::empty());
                }
                assert(turn_moves(*cur, rc, 0) =~= Seq::<(CoordinateAndDirection, nat)>::empty());
                assert(forward + turn_moves(*cur, rc, 0) =~= forward);
            }
            let mut steps: usize = 1;
            while steps < 4
                invariant
                    self.shape_ok(),
                    m == self.maze(),
                    rc == self.rotation_cost(),
                    rc > 0,
                    rc <= u32::MAX / 2,
                    state_valid(m, *cur),
                    c == cur.coordinate,
                    1 <= steps <= 4,
                    forall|i: int|
                        0 <= i < results@.len() ==> state_valid(m, (#[trigger] results@[i]).0)
                            && step_cost(m, rc, *cur, results@[i].0) == Some(
                            results@[i].1 as nat,
                        ) && results@[i].0 != *cur,
                    forall|v: CoordinateAndDirection|
                        #[trigger] step_cost(m, rc, *cur, v) is Some && (v.direction
                            == cur.direction || (4 + direction_index(v.direction)
                            - direction_index(cur.direction)) % 4 < steps) ==> exists|i: int|
                            0 <= i < results@.len() && (#[trigger] results@[i]).0 == v,
                    forall|i: int|
                        0 <= i < results@.len() ==> (#[trigger] results@[i]).0.direction
                            == cur.direction || (1 <= (4 + direction_index(
                            results@[i].0.direction,
                        ) - direction_index(cur.direction)) % 4 < steps),
                    forall|i: int|
                        0 <= i < results@.len() && (#[trigger] results@[i]).0.direction
                            == cur.direction ==> i == 0,
                    forall|i: int, j: int|
                        0 <= i < j < results@.len() ==> results@[i].0 != results@[j].0,
                    forward == if is_open(m, shifted(c, cur.direction)) {
                        seq![
                            (CoordinateAndDirection {
                                coordinate: shifted(c, cur.direction),
                                direction: cur.direction,
                            }, 1nat),
                        ]
                    } else {
                        Seq::<(CoordinateAndDirection, nat)>::empty()
                    },
                    moves_view(results@) == forward + turn_moves(*cur, rc, (steps - 1) as nat),
                decreases 4 - steps,
            {
                let new_direction = cur.direction.rotate_clockwise_by_steps(steps);
                let target = CoordinateAndDirection { coordinate: c, direction: new_direction };
                let cost = rotation_cost(steps, self.cost_per_rotation);
                proof {
                    assert(direction_index(new_direction) == (direction_index(cur.direction)
                        + steps) % 4);
                    assert((4 + direction_index(new_direction) - direction_index(cur.direction))
                        % 4 == steps);
                    assert(turn_cost(direction_index(new_direction) - direction_index(
                        cur.direction,
                    ), rc) == turn_cost(steps as int, rc));
                }
                let ghost old_results = results@;
                results.push((target, cost));
                proof {
                    assert(moves_view(results@) =~= moves_view(old_results).push((target, cost as nat)));
                    assert(turn_moves(*cur, rc, steps as nat) == turn_moves(*cur, rc, (steps - 1) as nat).push((target, turn_cost(steps as int, rc))));
                    assert(moves_view(results@) =~= forward + turn_moves(*cur, rc, steps as nat));
                    assert forall|v: CoordinateAndDirection|
                        #[trigger] step_cost(m, rc, *cur, v) is Some && (v.direction
                            == cur.direction || (4 + direction_index(v.direction)
                            - direction_index(cur.direction)) % 4 < steps + 1) implies exists|i: int|
                        0 <= i < results@.len() && (#[trigger] results@[i]).0 == v by {
                        if v.direction == cur.direction || (4 + direction_index(v.direction)
                            - direction_index(cur.direction)) % 4 < steps {
                            let i = choose|i: int|
                                0 <= i < old_results.len() && (#[trigger] old_results[i]).0 == v;
                            assert(results@[i] == old_results[i]);
                        } else {
                            assert(direction_index(v.direction) == direction_index(new_direction));
                            assert(v.direction == new_direction);
                            assert(v.coordinate == c);
                            assert(results@[results@.len() - 1].0 == v);
                        }
                    }
                }
                steps = steps + 1;
            }
        }
        results
    }
}

} // verus!

verus! {

/// No action leads from a state to itself.
pub proof fn lemma_no_self_step(m: MazeModel, r: nat, s: CoordinateAndDirection)
    requires
        maze_wf(m),
    ensures
        step_cost(m, r, s, s) is None,
{
    let (dx, dy) = direction_vector(s.direction);
    assert(dx != 0 || dy != 0);
    if state_valid(m, s) {
        let c = s.coordinate;
        assert(isize::MIN <= c.x + dx <= isize::MAX);
        assert(isize::MIN <= c.y + dy <= isize::MAX);
    }
}

/// Every action costs at least 1 (the rotation cost being positive when
/// turning costs anything) and at most `max_step(r)`.
pub proof fn lemma_step_cost_range(m: MazeModel, r: nat, u: CoordinateAndDirection, v: CoordinateAndDirection)
    requires
        step_cost(m, r, u, v) is Some,
    ensures
        1 <= step_cost(m, r, u, v)->0 <= max_step(r),
{
}

impl PathSearch {
    /// `new` differs from `self` only at state `t`, whose cost may only go
    /// down (staying known once known) and whose predecessors, if its cost
    /// is unchanged, may only grow; the score may only go down.
    pub closed spec fn evolves_at(&self, new: &PathSearch, t: CoordinateAndDirection) -> bool {
        let m = self.maze();
        &&& new.maze() == m
        &&& new.rotation_cost() == self.rotation_cost()
        &&& score_bound(new.score) <= score_bound(self.score)
        &&& forall|s: CoordinateAndDirection|
            state_valid(m, s) && s != t ==> #[trigger] new.cost(s) == self.cost(s) && new.preds_of(s)
                == self.preds_of(s)
        &&& (self.cost(t) matches Some(c) ==> new.cost(t) matches Some(c2) && c2 <= c)
        &&& (new.cost(t) == self.cost(t) ==> forall|p: CoordinateAndDirection|
            self.preds_of(t).contains(p) ==> new.preds_of(t).contains(p))
    }

    proof fn lemma_relax_ok_frame(
        &self,
        new: &PathSearch,
        t: CoordinateAndDirection,
        x: CoordinateAndDirection,
        v: CoordinateAndDirection,
    )
        requires
            self.evolves_at(new, t),
            maze_wf(self.maze()),
            state_valid(self.maze(), x),
            x != t || new.cost(t) == self.cost(t),
            self.relax_ok(x, v),
        ensures
            new.relax_ok(x, v),
    {
        let m = self.maze();
        let r = self.rotation_cost();
        lemma_no_self_step(m, r, x);
        if step_cost(m, r, x, v) is Some {
            assert(state_valid(m, v));
            assert(new.cost(x) == self.cost(x));
            if v != t {
                assert(new.cost(v) == self.cost(v));
                assert(new.preds_of(v) == self.preds_of(v));
            }
        }
    }

    fn set_cost(&mut self, s: &CoordinateAndDirection, c: usize)
        requires
            old(self).shape_ok(),
            state_valid(old(self).maze(), *s),
        ensures
            final(self).shape_ok(),
            final(self).costs@ == old(self).costs@.update(state_index(old(self).maze(), *s), Some(c)),
            final(self).tiles == old(self).tiles,
            final(self).dim_x == old(self).dim_x,
            final(self).dim_y == old(self).dim_y,
            final(self).start == old(self).start,
            final(self).end_coordinate == old(self).end_coordinate,
            final(self).cost_per_rotation == old(self).cost_per_rotation,
            final(self).preds == old(self).preds,
            final(self).to_visit == old(self).to_visit,
            final(self).score == old(self).score,
    {
        let i = self.state_idx(s);
        self.costs.set(i, Some(c));
        assert(self.maze() == old(self).maze());
    }

    fn set_preds(&mut self, s: &CoordinateAndDirection, ps: Vec<CoordinateAndDirection>)
        requires
            old(self).shape_ok(),
            state_valid(old(self).maze(), *s),
        ensures
            final(self).shape_ok(),
            final(self).preds@ == old(self).preds@.update(state_index(old(self).maze(), *s), ps),
            final(self).tiles == old(self).tiles,
            final(self).dim_x == old(self).dim_x,
            final(self).dim_y == old(self).dim_y,
            final(self).start == old(self).start,
            final(self).end_coordinate == old(self).end_coordinate,
            final(self).cost_per_rotation == old(self).cost_per_rotation,
            final(self).costs == old(self).costs,
            final(self).to_visit == old(self).to_visit,
            final(self).score == old(self).score,
    {
        let i = self.state_idx(s);
        self.preds.set(i, ps);
        assert(self.maze() == old(self).maze());
    }

    /// Records `new_predecessor` as a way to reach `target`: as its only
    /// one when the cost is strictly better, else in addition to the others
    /// (once).
    fn add_predecessor(
        &mut self,
        target: &CoordinateAndDirection,
        new_predecessor: &CoordinateAndDirection,
        strictly_better_cost: bool,
    )
        requires
            old(self).shape_ok(),
            state_valid(old(self).maze(), *target),
        ensures
            final(self).shape_ok(),
            final(self).preds@.len() == old(self).preds@.len(),
            forall|j: int|
                0 <= j < old(self).preds@.len() && j != state_index(old(self).maze(), *target)
                    ==> final(self).preds@[j] == old(self).preds@[j],
            *target == *new_predecessor ==> final(self).preds_of(*target) == old(self).preds_of(
                *target,
            ),
            *target != *new_predecessor && strictly_better_cost ==> final(self).preds_of(*target)
                == seq![*new_predecessor],
            *target != *new_predecessor && !strictly_better_cost ==> final(self).preds_of(*target)
                == if old(self).preds_of(*target).contains(*new_predecessor) {
                old(self).preds_of(*target)
            } else {
                old(self).preds_of(*target).push(*new_predecessor)
            },
            final(self).tiles == old(self).tiles,
            final(self).dim_x == old(self).dim_x,
            final(self).dim_y == old(self).dim_y,
            final(self).start == old(self).start,
            final(self).end_coordinate == old(self).end_coordinate,
            final(self).cost_per_rotation == old(self).cost_per_rotation,
            final(self).costs == old(self).costs,
            final(self).to_visit == old(self).to_visit,
            final(self).score == old(self).score,
    {
        proof {
            lemma_state_index(self.maze(), *target, *target);
        }
        if *target == *new_predecessor {
            return;
        }
        if strictly_better_cost {
            let mut v: Vec<CoordinateAndDirection> = Vec::new();
            v.push(*new_predecessor);
            let ghost before = self.preds@;
            self.set_preds(target, v);
            assert(self.preds@ == before.update(state_index(self.maze(), *target), v));
            assert(self.preds@.len() == before.len());
        } else {
            let mut v = self.preds_vec(target);
            let n = v.len();
            let mut i: usize = 0;
            let mut found = false;
            while i < n
                invariant
                    n == v@.len(),
                    i <= n,
                    found <==> exists|j: int| 0 <= j < i && v@[j] == *new_predecessor,
                decreases n - i,
            {
                if v[i] == *new_predecessor {
                    found = true;
                }
                i = i + 1;
            }
            if !found {
                v.push(*new_predecessor);
            }
            let ghost before = self.preds@;
            self.set_preds(target, v);
            assert(self.preds@.len() == before.len());
        }
    }

    fn preds_vec(&self, s: &CoordinateAndDirection) -> (ps: Vec<CoordinateAndDirection>)
        requires
            self.shape_ok(),
            state_valid(self.maze(), *s),
        ensures
            ps@ == self.preds_of(*s),
    {
        let i = self.state_idx(s);
        let v = self.preds[i].clone();
        proof {
            assert(v@ =~= self.preds@[i as int]@);
        }
        v
    }
}

} // verus!

verus! {

impl PathSearch {
    /// The invariant survives trying the action from `current` to `cand`,
    /// as `process_candidate` does it.
    proof fn lemma_process_candidate(
        s0: &PathSearch,
        s1: &PathSearch,
        current: CoordinateAndDirection,
        cost_here: usize,
        cand: CoordinateAndDirection,
        add: nat,
        new_cost: nat,
        commit: bool,
        equal: bool,
    )
        requires
            s0.inv_core(),
            s0.relaxed_except(Some(current)),
            state_valid(s0.maze(), current),
            s0.cost(current) == Some(cost_here),
            state_valid(s0.maze(), cand),
            cand != current,
            step_cost(s0.maze(), s0.rotation_cost(), current, cand) == Some(add),
            new_cost == cost_here + add,
            new_cost < usize::MAX,
            equal == (s0.cost(cand) == Some(new_cost as usize)),
            commit == (new_cost <= score_bound(s0.score) && (s0.cost(cand) matches Some(c)
                ==> new_cost < c)),
            s1.tiles == s0.tiles,
            s1.dim_x == s0.dim_x,
            s1.dim_y == s0.dim_y,
            s1.start == s0.start,
            s1.end_coordinate == s0.end_coordinate,
            s1.cost_per_rotation == s0.cost_per_rotation,
            s1.score == s0.score,
            s1.preds@.len() == s0.preds@.len(),
            commit ==> s1.costs@ == s0.costs@.update(
                state_index(s0.maze(), cand),
                Some(new_cost as usize),
            ),
            !commit ==> s1.costs@ == s0.costs@,
            forall|j: int|
                0 <= j < s0.preds@.len() && j != state_index(s0.maze(), cand) ==> s1.preds@[j]
                    == s0.preds@[j],
            commit ==> s1.preds_of(cand) == seq![current],
            !commit && equal ==> s1.preds_of(cand) == if s0.preds_of(cand).contains(current) {
                s0.preds_of(cand)
            } else {
                s0.preds_of(cand).push(current)
            },
            !commit && !equal ==> s1.preds_of(cand) == s0.preds_of(cand),
            commit ==> s1.to_visit@ == s0.to_visit@.push(cand),
            !commit ==> s1.to_visit@ == s0.to_visit@,
        ensures
            s1.inv_core(),
            s1.relaxed_except(Some(current)),
            s1.maze() == s0.maze(),
            s1.rotation_cost() == s0.rotation_cost(),
            s1.cost(current) == Some(cost_here),
            s1.relax_ok(current, cand),
            forall|v: CoordinateAndDirection| s0.relax_ok(current, v) ==> s1.relax_ok(current, v),
            s0.evolves_at(s1, cand),
            commit ==> s1.cost(cand) == Some(new_cost as usize),
            !commit ==> s1.cost(cand) == s0.cost(cand),
    {
        let m = s0.maze();
        let r = s0.rotation_cost();
        let ci = state_index(m, cand);
        assert(s1.maze() == m);
        lemma_state_index(m, cand, cand);
        lemma_step_cost_range(m, r, current, cand);
        // costs and predecessors elsewhere are unchanged
        assert forall|v: CoordinateAndDirection| state_valid(m, v) && v != cand implies s1.cost(v)
            == s0.cost(v) && s1.preds_of(v) == s0.preds_of(v) by {
            lemma_state_index(m, v, cand);
        }
        let start = start_state(m);
        // the candidate is not the start: its new cost is at least one
        assert(commit || equal ==> cand != start);
        assert(s1.cost(current) == Some(cost_here));
        // preds at the candidate
        if commit {
            assert(s1.cost(cand) == Some(new_cost as usize));
        } else {
            assert(s1.cost(cand) == s0.cost(cand));
        }
        assert(score_bound(s1.score) <= score_bound(s0.score));
        assert(s0.cost(cand) matches Some(c) ==> s1.cost(cand) matches Some(c2) && c2 <= c);
        assert(s1.cost(cand) == s0.cost(cand) ==> forall|p: CoordinateAndDirection|
            s0.preds_of(cand).contains(p) ==> s1.preds_of(cand).contains(p)) by {
            if s1.cost(cand) == s0.cost(cand) {
                assert forall|p: CoordinateAndDirection|
                    s0.preds_of(cand).contains(p) implies s1.preds_of(cand).contains(p) by {
                    let k = choose|k: int| 0 <= k < s0.preds_of(cand).len() && s0.preds_of(cand)[k] == p;
                    assert(s1.preds_of(cand)[k] == p);
                }
            }
        }
        assert(s0.evolves_at(s1, cand));
        // the bound on costs
        let ms = max_step(r);
        let n = 4 * m.dim_x * m.dim_y;
        if commit {
            lemma_count_some_update(s0.costs@, ci, Some(new_cost as usize));
        }
        assert(count_some(s0.costs@) <= count_some(s1.costs@));
        assert(cost_here + ms <= count_some(s0.costs@) * ms) by {
            lemma_state_index(m, current, current);
        }
        assert forall|i: int|
            0 <= i < n implies (#[trigger] s1.costs@[i] matches Some(c) ==> c + ms <= count_some(
                s1.costs@,
            ) * ms) by {
            if s1.costs@[i] is Some {
                if commit && i == ci {
                    if s0.costs@[ci] is None {
                        assert(count_some(s1.costs@) == count_some(s0.costs@) + 1);
                        assert(count_some(s1.costs@) * ms == count_some(s0.costs@) * ms + ms)
                            by (nonlinear_arith)
                            requires
                                count_some(s1.costs@) == count_some(s0.costs@) + 1,
                        ;
                    } else {
                        assert(s0.costs@[ci] is Some);
                    }
                } else {
                    assert(s1.costs@[i] == s0.costs@[i]);
                    assert(count_some(s0.costs@) * ms <= count_some(s1.costs@) * ms)
                        by (nonlinear_arith)
                        requires
                            count_some(s0.costs@) <= count_some(s1.costs@),
                    ;
                }
            }
        }
        // states to visit
        assert forall|i: int|
            0 <= i < s1.to_visit@.len() implies state_valid(m, #[trigger] s1.to_visit@[i])
            && s1.cost(s1.to_visit@[i]) is Some by {
            if i < s0.to_visit@.len() {
                assert(s1.to_visit@[i] == s0.to_visit@[i]);
                if s1.to_visit@[i] != cand {
                } else {
                }
            }
        }
        // predecessors
        assert forall|v: CoordinateAndDirection| state_valid(m, v) implies {
            &&& (#[trigger] s1.preds_of(v)).no_duplicates()
            &&& (s1.preds_of(v).len() > 0 <==> (s1.cost(v) is Some && v != start))
            &&& forall|j: int|
                0 <= j < s1.preds_of(v).len() ==> s1.pred_ok(#[trigger] s1.preds_of(v)[j], v)
        } by {
            assert(s0.preds_of(v).no_duplicates());
            if v != cand {
                assert forall|j: int| 0 <= j < s1.preds_of(v).len() implies s1.pred_ok(
                    #[trigger] s1.preds_of(v)[j],
                    v,
                ) by {
                    let p = s1.preds_of(v)[j];
                    assert(s0.pred_ok(s0.preds_of(v)[j], v));
                    if p == cand {
                    } else {
                    }
                }
            } else if commit {
                assert(s1.preds_of(v)[0] == current);
            } else if equal {
                assert forall|j: int| 0 <= j < s1.preds_of(v).len() implies s1.pred_ok(
                    #[trigger] s1.preds_of(v)[j],
                    v,
                ) by {
                    if j < s0.preds_of(v).len() {
                        assert(s1.preds_of(v)[j] == s0.preds_of(v)[j]);
                        assert(s0.pred_ok(s0.preds_of(v)[j], v));
                    } else {
                        assert(s1.preds_of(v)[j] == current);
                    }
                }
                if !s0.preds_of(v).contains(current) {
                    assert forall|a: int, b: int|
                        0 <= a < b < s1.preds_of(v).len() implies s1.preds_of(v)[a] != s1.preds_of(
                        v,
                    )[b] by {
                        if b == s0.preds_of(v).len() {
                            assert(s0.preds_of(v)[a] == s1.preds_of(v)[a]);
                        }
                    }
                }
            } else {
                assert forall|j: int| 0 <= j < s1.preds_of(v).len() implies s1.pred_ok(
                    #[trigger] s1.preds_of(v)[j],
                    v,
                ) by {
                    assert(s0.pred_ok(s0.preds_of(v)[j], v));
                }
            }
        }
        // relaxation of the current state at the candidate
        assert(s1.relax_ok(current, cand)) by {
            if commit {
                assert(s1.preds_of(cand)[0] == current);
            } else if equal {
                if s0.preds_of(cand).contains(current) {
                } else {
                    assert(s1.preds_of(cand)[s1.preds_of(cand).len() - 1] == current);
                }
            }
        }
        assert forall|v: CoordinateAndDirection| s0.relax_ok(current, v) implies s1.relax_ok(
            current,
            v,
        ) by {
            s0.lemma_relax_ok_frame(s1, cand, current, v);
        }
        // relaxation of the other states
        assert forall|u: CoordinateAndDirection|
            state_valid(m, u) && s1.cost(u) is Some && !s1.to_visit@.contains(u) && Some(current)
                != Some(u) implies #[trigger] s1.relaxed(u) by {
            assert(!s0.to_visit@.contains(u)) by {
                if s0.to_visit@.contains(u) {
                    let k = choose|k: int| 0 <= k < s0.to_visit@.len() && s0.to_visit@[k] == u;
                    if commit {
                        assert(s1.to_visit@[k] == u);
                    }
                }
            }
            if u == cand {
                if commit {
                    assert(s1.to_visit@[s1.to_visit@.len() - 1] == cand);
                }
            }
            assert(s0.relaxed(u));
            assert forall|v: CoordinateAndDirection| #[trigger] s1.relax_ok(u, v) by {
                assert(s0.relax_ok(u, v));
                s0.lemma_relax_ok_frame(s1, cand, u, v);
            }
        }
        // end states and the score
        assert forall|u: CoordinateAndDirection|
            state_valid(m, u) && u.coordinate == m.end && #[trigger] s1.cost(u) is Some
                && !s1.to_visit@.contains(u) implies (s1.score matches Some(sv) && sv <= s1.cost(
                u,
            )->0) by {
            if u == cand && commit {
                assert(s1.to_visit@[s1.to_visit@.len() - 1] == cand);
            }
            if s0.to_visit@.contains(u) {
                let k = choose|k: int| 0 <= k < s0.to_visit@.len() && s0.to_visit@[k] == u;
                if commit {
                    assert(s1.to_visit@[k] == u);
                }
            }
        }
        if s1.score is Some {
            let sv = s1.score->0;
            let u = choose|u: CoordinateAndDirection|
                state_valid(m, u) && u.coordinate == m.end && (#[trigger] s0.cost(u) matches Some(
                    cu,
                ) && cu <= sv);
            assert(state_valid(m, u) && u.coordinate == m.end && (s1.cost(u) matches Some(cu)
                && cu <= sv));
        }
        assert(s1.cost(start) == Some(0usize)) by {
            lemma_state_index(m, start, cand);
        }
    }
}

} // verus!

verus! {

impl PathSearch {
    /// Tries the action from `current` (at cost `cost_here`) to `cand` (of
    /// cost `add`): when it reaches `cand` at exactly its known cost, the
    /// current state becomes one more way to reach it; when it is strictly
    /// cheaper and no dearer than the score, `cand` takes the new cost, with
    /// `current` as its only predecessor, and is queued to be visited.
    /// Returns whether that happened.
    fn process_candidate(
        &mut self,
        current: &CoordinateAndDirection,
        cost_here: usize,
        cand: &CoordinateAndDirection,
        add: u32,
    ) -> (committed: bool)
        requires
            old(self).inv_core(),
            old(self).relaxed_except(Some(*current)),
            state_valid(old(self).maze(), *current),
            old(self).cost(*current) == Some(cost_here),
            state_valid(old(self).maze(), *cand),
            *cand != *current,
            step_cost(old(self).maze(), old(self).rotation_cost(), *current, *cand) == Some(
                add as nat,
            ),
        ensures
            final(self).inv_core(),
            final(self).relaxed_except(Some(*current)),
            final(self).maze() == old(self).maze(),
            final(self).rotation_cost() == old(self).rotation_cost(),
            final(self).score == old(self).score,
            final(self).cost(*current) == Some(cost_here),
            final(self).relax_ok(*current, *cand),
            forall|v: CoordinateAndDirection|
                old(self).relax_ok(*current, v) ==> final(self).relax_ok(*current, v),
            old(self).evolves_at(final(self), *cand),
            committed == (cost_here + add <= score_bound(old(self).score) && (old(self).cost(
                *cand,
            ) matches Some(c) ==> cost_here + add < c)),
            committed ==> final(self).to_visit@ == old(self).to_visit@.push(*cand)
                && final(self).cost(*cand) == Some((cost_here + add) as usize),
            !committed ==> final(self).to_visit@ == old(self).to_visit@ && final(self).cost(*cand)
                == old(self).cost(*cand),
    {
        let ghost s0 = *self;
        let ghost m = self.maze();
        let ghost r = self.rotation_cost();
        proof {
            lemma_step_cost_range(m, r, *current, *cand);
            lemma_state_index(m, *current, *current);
            lemma_count_some_le(self.costs@);
            let ms = max_step(r);
            let n = 4 * m.dim_x * m.dim_y;
            assert(cost_here + ms <= count_some(self.costs@) * ms);
            assert(count_some(self.costs@) * ms <= n * ms) by (nonlinear_arith)
                requires
                    count_some(self.costs@) <= n,
            ;
            assert(n * ms <= n * (2 * r + 1)) by (nonlinear_arith)
                requires
                    ms <= 2 * r + 1,
            ;
            assert(n * (2 * r + 1) == 4 * m.dim_x * m.dim_y * (2 * r + 1)) by (nonlinear_arith)
                requires
                    n == 4 * m.dim_x * m.dim_y,
            ;
        }
        let new_cost: usize = cost_here + add as usize;
        let other: usize = match self.get_cost(cand) {
            Some(v) => v,
            None => usize::MAX,
        };
        let equal = new_cost == other;
        if equal && add != 0 {
            self.add_predecessor(cand, current, false);
        }
        let bound: usize = match self.score {
            Some(v) => v,
            None => usize::MAX,
        };
        let commit = new_cost < other && new_cost <= bound;
        if commit {
            self.set_cost(cand, new_cost);
            self.to_visit.push(*cand);
            self.add_predecessor(cand, current, true);
        }
        proof {
            PathSearch::lemma_process_candidate(
                &s0,
                self,
                *current,
                cost_here,
                *cand,
                add as nat,
                new_cost as nat,
                commit,
                equal,
            );
        }
        commit
    }
}

} // verus!

verus! {

/// The Manhattan distance from a state's tile to the end tile.
pub open spec fn end_distance(m: MazeModel, s: CoordinateAndDirection) -> nat {
    manhattan(m.end.x - s.coordinate.x, m.end.y - s.coordinate.y) as nat
}

/// Key `(c1, h1)` comes no later than `(c2, h2)` in visiting order from the
/// back: a larger cost, or the same cost and a larger distance to the end.
pub open spec fn key_ge(c1: nat, h1: nat, c2: nat, h2: nat) -> bool {
    c1 > c2 || (c1 == c2 && h1 >= h2)
}

impl PathSearch {
    /// The order key of a state waiting to be visited: its cost and its
    /// distance to the end.
    pub closed spec fn visit_cost(&self, s: CoordinateAndDirection) -> nat {
        self.cost(s)->0 as nat
    }

    /// The states to visit are sorted by cost, then distance to the end,
    /// both decreasing, so that the cheapest, closest state is visited next.
    pub closed spec fn pending_sorted(&self) -> bool {
        forall|i: int, j: int|
            0 <= i < j < self.to_visit@.len() ==> key_ge(
                self.visit_cost(self.to_visit@[i]),
                end_distance(self.maze(), self.to_visit@[i]),
                self.visit_cost(self.to_visit@[j]),
                end_distance(self.maze(), self.to_visit@[j]),
            )
    }

    fn visit_key(&self, s: &CoordinateAndDirection) -> (k: (usize, usize))
        requires
            self.shape_ok(),
            state_valid(self.maze(), *s),
            self.cost(*s) is Some,
        ensures
            k.0 == self.visit_cost(*s),
            k.1 == end_distance(self.maze(), *s),
    {
        let c = match self.get_cost(s) {
            Some(c) => c,
            None => 0,
        };
        let v = self.end_coordinate - s.coordinate;
        let h = v.manhattan_distance();
        (c, h)
    }

    /// Sorts the states to visit (see `pending_sorted`); equally keyed
    /// states keep their order.
    #[verifier::rlimit(50)]
    #[verifier::spinoff_prover]
    fn sort_to_visit(&mut self)
        requires
            old(self).inv_core(),
        ensures
            final(self).tiles == old(self).tiles,
            final(self).dim_x == old(self).dim_x,
            final(self).dim_y == old(self).dim_y,
            final(self).start == old(self).start,
            final(self).end_coordinate == old(self).end_coordinate,
            final(self).cost_per_rotation == old(self).cost_per_rotation,
            final(self).costs == old(self).costs,
            final(self).preds == old(self).preds,
            final(self).score == old(self).score,
            final(self).to_visit@.len() == old(self).to_visit@.len(),
            forall|x: CoordinateAndDirection|
                final(self).to_visit@.contains(x) <==> old(self).to_visit@.contains(x),
            final(self).to_visit@.to_multiset() == old(self).to_visit@.to_multiset(),
            final(self).pending_sorted(),
    {
        let ghost m = self.maze();
        let n = self.to_visit.len();
        let mut sorted: Vec<CoordinateAndDirection> = Vec::new();
        let mut i: usize = 0;
        assert(self.to_visit@.take(0) =~= sorted@);
        while i < n
            invariant
                self.inv_core(),
                m == self.maze(),
                n == self.to_visit@.len(),
                i <= n,
                sorted@.len() == i,
                forall|x: CoordinateAndDirection|
                    sorted@.contains(x) <==> self.to_visit@.take(i as int).contains(x),
                sorted@.to_multiset() == self.to_visit@.take(i as int).to_multiset(),
                forall|q: int|
                    0 <= q < sorted@.len() ==> state_valid(m, #[trigger] sorted@[q]) && self.cost(
                        sorted@[q],
                    ) is Some,
                forall|a: int, b: int|
                    0 <= a < b < sorted@.len() ==> key_ge(
                        self.visit_cost(sorted@[a]),
                        end_distance(m, sorted@[a]),
                        self.visit_cost(sorted@[b]),
                        end_distance(m, sorted@[b]),
                    ),
            decreases n - i,
        {
            let x = self.to_visit[i];
            let kx = self.visit_key(&x);
            let mut p: usize = 0;
            while p < sorted.len()
                invariant
                    self.inv_core(),
                    m == self.maze(),
                    p <= sorted@.len(),
                    state_valid(m, x),
                    kx.0 == self.visit_cost(x),
                    kx.1 == end_distance(m, x),
                    forall|q: int|
                        0 <= q < sorted@.len() ==> state_valid(m, #[trigger] sorted@[q])
                            && self.cost(sorted@[q]) is Some,
                    forall|q: int|
                        0 <= q < p ==> key_ge(
                            self.visit_cost(#[trigger] sorted@[q]),
                            end_distance(m, sorted@[q]),
                            kx.0 as nat,
                            kx.1 as nat,
                        ),
                ensures
                    p <= sorted@.len(),
                    p < sorted@.len() ==> !key_ge(
                        self.visit_cost(sorted@[p as int]),
                        end_distance(m, sorted@[p as int]),
                        kx.0 as nat,
                        kx.1 as nat,
                    ),
                    forall|q: int|
                        0 <= q < p ==> key_ge(
                            self.visit_cost(#[trigger] sorted@[q]),
                            end_distance(m, sorted@[q]),
                            kx.0 as nat,
                            kx.1 as nat,
                        ),
                decreases sorted@.len() - p,
            {
                let kp = self.visit_key(&sorted[p]);
                if !(kp.0 > kx.0 || (kp.0 == kx.0 && kp.1 >= kx.1)) {
                    break;
                }
                p = p + 1;
            }
            let ghost before = sorted@;
            proof {
                if p < before.len() {
                    assert(!key_ge(
                        self.visit_cost(before[p as int]),
                        end_distance(m, before[p as int]),
                        kx.0 as nat,
                        kx.1 as nat,
                    ));
                }
            }
            sorted.insert(p, x);
            proof {
                before.insert_ensures(p as int, x);
                let t0 = self.to_visit@.take(i as int);
                let t1 = self.to_visit@.take(i + 1);
                assert(t1 =~= t0.push(x));
                vstd::seq_lib::to_multiset_insert(before, p as int, x);
                t0.to_multiset_ensures();
                assert(sorted@.to_multiset() == t1.to_multiset());
                assert forall|y: CoordinateAndDirection|
                    sorted@.contains(y) <==> t1.contains(y) by {
                    if sorted@.contains(y) {
                        let q = choose|q: int| 0 <= q < sorted@.len() && sorted@[q] == y;
                        if q < p {
                            assert(before[q] == y);
                            assert(before.contains(y));
                        } else if q > p {
                            assert(before[q - 1] == y);
                            assert(before.contains(y));
                        }
                        if y != x {
                            assert(t0.contains(y));
                            let k = choose|k: int| 0 <= k < t0.len() && t0[k] == y;
                            assert(t1[k] == y);
                        } else {
                            assert(t1[i as int] == y);
                        }
                    }
                    if t1.contains(y) {
                        let k = choose|k: int| 0 <= k < t1.len() && t1[k] == y;
                        if k < i {
                            assert(t0[k] == y);
                            assert(before.contains(y));
                            let q = choose|q: int| 0 <= q < before.len() && before[q] == y;
                            if q < p {
                                assert(sorted@[q] == y);
                            } else {
                                assert(sorted@[q + 1] == y);
                            }
                        } else {
                            assert(sorted@[p as int] == y);
                        }
                    }
                }
                assert forall|a: int, b: int|
                    0 <= a < b < sorted@.len() implies key_ge(
                    self.visit_cost(sorted@[a]),
                    end_distance(m, sorted@[a]),
                    self.visit_cost(sorted@[b]),
                    end_distance(m, sorted@[b]),
                ) by {
                    if b < p {
                        assert(sorted@[a] == before[a] && sorted@[b] == before[b]);
                    } else if b == p {
                        assert(sorted@[a] == before[a]);
                    } else if a < p {
                        assert(sorted@[a] == before[a] && sorted@[b] == before[b - 1]);
                    } else if a == p {
                        assert(sorted@[b] == before[b - 1]);
                        assert(key_ge(
                            self.visit_cost(before[p as int]),
                            end_distance(m, before[p as int]),
                            self.visit_cost(before[b - 1]),
                            end_distance(m, before[b - 1]),
                        ) || b - 1 == p);
                    } else {
                        assert(sorted@[a] == before[a - 1] && sorted@[b] == before[b - 1]);
                    }
                }
                assert forall|q: int|
                    0 <= q < sorted@.len() implies state_valid(m, #[trigger] sorted@[q])
                    && self.cost(sorted@[q]) is Some by {
                    if q < p {
                        assert(sorted@[q] == before[q]);
                    } else if q > p {
                        assert(sorted@[q] == before[q - 1]);
                    }
                }
            }
            i = i + 1;
        }
        proof {
            assert(self.to_visit@.take(n as int) =~= self.to_visit@);
        }
        let ghost pre = *self;
        self.to_visit = sorted;
        proof {
            assert(self.maze() == pre.maze());
            assert forall|y: CoordinateAndDirection| #[trigger] self.visit_cost(y) == pre.visit_cost(y) by {
            }
            assert forall|a: int, b: int|
                0 <= a < b < self.to_visit@.len() implies key_ge(
                self.visit_cost(self.to_visit@[a]),
                end_distance(self.maze(), self.to_visit@[a]),
                self.visit_cost(self.to_visit@[b]),
                end_distance(self.maze(), self.to_visit@[b]),
            ) by {
                assert(self.to_visit@[a] == sorted@[a]);
            }
        }
    }
}

} // verus!

verus! {

/// The shape of the tile changes of one step that visits a state on tile
/// `tile` facing `dir`: first that tile turns active; then, for each
/// action tried, its target tile is touched (shown facing `dir`) and then
/// either committed (the action found a better way there) or back to
/// normal; finally the visited tile turns back to normal.
pub open spec fn updates_shape(ups: Seq<TileUpdate>, tile: int, dir: Direction) -> bool {
    &&& ups.len() >= 2
    &&& ups.len() % 2 == 0
    &&& ups[0] == (TileUpdate { idx: tile as usize, state: MazeTileState::Active, direction: dir })
    &&& ups.last() == (TileUpdate { idx: tile as usize, state: MazeTileState::Normal, direction: dir })
    &&& forall|j: int|
        0 <= j < (ups.len() - 2) / 2 ==> (#[trigger] ups[1 + 2 * j]).state == MazeTileState::Touched
            && ups[1 + 2 * j].direction == dir && (ups[2 + 2 * j].state == MazeTileState::Normal
            || ups[2 + 2 * j].state == MazeTileState::Committed) && ups[2 + 2 * j].idx == ups[1 + 2
            * j].idx
}

impl PathSearch {
    /// Known costs are below `usize::MAX`.
    proof fn lemma_cost_below_max(&self, s: CoordinateAndDirection)
        requires
            self.inv_core(),
            state_valid(self.maze(), s),
            self.cost(s) is Some,
        ensures
            self.cost(s)->0 < usize::MAX,
            self.cost(s)->0 + max_step(self.rotation_cost()) < usize::MAX,
    {
        let m = self.maze();
        let r = self.rotation_cost();
        let ms = max_step(r);
        let n = 4 * m.dim_x * m.dim_y;
        lemma_state_index(m, s, s);
        lemma_count_some_le(self.costs@);
        assert(self.cost(s)->0 + ms <= count_some(self.costs@) * ms);
        assert(count_some(self.costs@) * ms <= n * ms) by (nonlinear_arith)
            requires
                count_some(self.costs@) <= n,
        ;
        assert(n * ms <= n * (2 * r + 1)) by (nonlinear_arith)
            requires
                ms <= 2 * r + 1,
        ;
        assert(n * (2 * r + 1) == 4 * m.dim_x * m.dim_y * (2 * r + 1)) by (nonlinear_arith)
            requires
                n == 4 * m.dim_x * m.dim_y,
        ;
    }

    /// The move from a state known at `cost_here` to `t`, costing `w`, is
    /// taken: it stays within `bound` and reaches `t` more cheaply than its
    /// known cost.
    pub open spec fn commits(&self, bound: nat, cost_here: nat, t: CoordinateAndDirection, w: nat) -> bool {
        cost_here + w <= bound && (self.cost(t) matches Some(c) ==> cost_here + w < c)
    }

    /// The known cost of `x` once `moves` (to distinct targets) have been
    /// tried from a state known at `cost_here`.
    pub open spec fn cost_after_moves(
        &self,
        bound: nat,
        cost_here: nat,
        moves: Seq<(CoordinateAndDirection, nat)>,
        x: CoordinateAndDirection,
    ) -> Option<usize>
        decreases moves.len(),
    {
        if moves.len() == 0 {
            self.cost(x)
        } else if moves.last().0 == x && self.commits(bound, cost_here, x, moves.last().1) {
            Some((cost_here + moves.last().1) as usize)
        } else {
            self.cost_after_moves(bound, cost_here, moves.drop_last(), x)
        }
    }

    /// The targets of the moves that are taken, in order.
    pub open spec fn taken_targets(
        &self,
        bound: nat,
        cost_here: nat,
        moves: Seq<(CoordinateAndDirection, nat)>,
    ) -> Seq<CoordinateAndDirection>
        decreases moves.len(),
    {
        if moves.len() == 0 {
            Seq::empty()
        } else {
            self.taken_targets(bound, cost_here, moves.drop_last()) + if self.commits(
                bound,
                cost_here,
                moves.last().0,
                moves.last().1,
            ) {
                seq![moves.last().0]
            } else {
                Seq::empty()
            }
        }
    }

    /// Trying moves never raises a known cost, and never forgets one.
    pub proof fn law_costs_only_fall(
        &self,
        bound: nat,
        cost_here: nat,
        moves: Seq<(CoordinateAndDirection, nat)>,
        x: CoordinateAndDirection,
    )
        ensures
            self.cost(x) matches Some(c) ==> (self.cost_after_moves(bound, cost_here, moves, x) matches Some(
                c2,
            ) && c2 <= c),
        decreases moves.len(),
    {
        if moves.len() > 0 {
            self.law_costs_only_fall(bound, cost_here, moves.drop_last(), x);
        }
    }

    /// A state that no move targets keeps its cost.
    proof fn lemma_cost_after_untargeted(
        &self,
        bound: nat,
        cost_here: nat,
        moves: Seq<(CoordinateAndDirection, nat)>,
        x: CoordinateAndDirection,
    )
        requires
            forall|j: int| 0 <= j < moves.len() ==> (#[trigger] moves[j]).0 != x,
        ensures
            self.cost_after_moves(bound, cost_here, moves, x) == self.cost(x),
        decreases moves.len(),
    {
        if moves.len() > 0 {
            assert(moves[moves.len() - 1].0 != x);
            assert forall|j: int| 0 <= j < moves.drop_last().len() implies (
            #[trigger] moves.drop_last()[j]).0 != x by {
                assert(moves.drop_last()[j] == moves[j]);
            }
            self.lemma_cost_after_untargeted(bound, cost_here, moves.drop_last(), x);
        }
    }

    /// Two searches that know the same costs try moves alike.
    proof fn lemma_moves_same_costs(
        &self,
        other: &PathSearch,
        bound: nat,
        cost_here: nat,
        moves: Seq<(CoordinateAndDirection, nat)>,
    )
        requires
            forall|x: CoordinateAndDirection| #[trigger] self.cost(x) == other.cost(x),
        ensures
            forall|x: CoordinateAndDirection|
                #[trigger] self.cost_after_moves(bound, cost_here, moves, x)
                    == other.cost_after_moves(bound, cost_here, moves, x),
            self.taken_targets(bound, cost_here, moves) == other.taken_targets(
                bound,
                cost_here,
                moves,
            ),
        decreases moves.len(),
    {
        if moves.len() > 0 {
            self.lemma_moves_same_costs(other, bound, cost_here, moves.drop_last());
            assert(self.commits(bound, cost_here, moves.last().0, moves.last().1) == other.commits(
                bound,
                cost_here,
                moves.last().0,
                moves.last().1,
            ));
            assert forall|x: CoordinateAndDirection|
                #[trigger] self.cost_after_moves(bound, cost_here, moves, x)
                    == other.cost_after_moves(bound, cost_here, moves, x) by {
                assert(self.commits(bound, cost_here, x, moves.last().1) == other.commits(
                    bound,
                    cost_here,
                    x,
                    moves.last().1,
                ));
                assert(self.cost_after_moves(bound, cost_here, moves.drop_last(), x)
                    == other.cost_after_moves(bound, cost_here, moves.drop_last(), x));
            }
        }
    }

    /// Takes the next state to visit off the list; if it lies on the end
    /// tile and is cheaper than the score, its cost becomes the score.
    fn begin_visit(&mut self) -> (res: (CoordinateAndDirection, usize))
        requires
            old(self).inv(),
            old(self).pending().len() > 0,
        ensures
            final(self).inv_core(),
            final(self).relaxed_except(Some(res.0)),
            res.0 == old(self).pending().last(),
            state_valid(final(self).maze(), res.0),
            final(self).cost(res.0) == Some(res.1),
            final(self).maze() == old(self).maze(),
            final(self).rotation_cost() == old(self).rotation_cost(),
            final(self).to_visit@ == old(self).to_visit@.drop_last(),
            final(self).costs == old(self).costs,
            final(self).preds == old(self).preds,
            final(self).score == if res.0.coordinate == old(self).maze().end && res.1
                < score_bound(old(self).score) {
                Some(res.1)
            } else {
                old(self).score
            },
    {
        let ghost s_old = *self;
        let ghost m = self.maze();
        proof {
            assert(s_old.to_visit@[s_old.to_visit@.len() - 1] == s_old.to_visit@.last());
        }
        let current = self.to_visit.pop().unwrap();
        assert(self.to_visit@ =~= s_old.to_visit@.drop_last());
        let cost_here: usize = match self.get_cost(&current) {
            Some(c) => c,
            None => 0,
        };
        if current.coordinate == self.end_coordinate {
            let previous: usize = match self.score {
                Some(v) => v,
                None => usize::MAX,
            };
            if cost_here < previous {
                self.score = Some(cost_here);
            }
        }
        proof {
            assert(self.maze() == m);
            s_old.lemma_cost_below_max(current);
            assert forall|v: CoordinateAndDirection| #[trigger] self.cost(v) == s_old.cost(v) by {}
            assert forall|v: CoordinateAndDirection| #[trigger] self.preds_of(v) == s_old.preds_of(
                v,
            ) by {}
            assert forall|p: CoordinateAndDirection, v: CoordinateAndDirection| #[trigger]
                self.pred_ok(p, v) == s_old.pred_ok(p, v) by {}
            assert forall|i: int|
                0 <= i < self.to_visit@.len() implies state_valid(m, #[trigger] self.to_visit@[i])
                && self.cost(self.to_visit@[i]) is Some by {
                assert(self.to_visit@[i] == s_old.to_visit@[i]);
            }
            assert forall|u: CoordinateAndDirection|
                state_valid(m, u) && u.coordinate == m.end && #[trigger] self.cost(u) is Some
                    && !self.to_visit@.contains(u) implies (self.score matches Some(sv) && sv
                    <= self.cost(u)->0) by {
                if u != current {
                    assert(!s_old.to_visit@.contains(u)) by {
                        if s_old.to_visit@.contains(u) {
                            let k = choose|k: int|
                                0 <= k < s_old.to_visit@.len() && s_old.to_visit@[k] == u;
                            assert(self.to_visit@[k] == u);
                        }
                    }
                    assert(s_old.cost(u) == self.cost(u));
                }
            }
            if self.score is Some && self.score != s_old.score {
                assert(self.cost(current) matches Some(cu) && cu <= self.score->0);
            } else if self.score is Some {
                let sv = self.score->0;
                let u = choose|u: CoordinateAndDirection|
                    state_valid(m, u) && u.coordinate == m.end && (#[trigger] s_old.cost(u) matches Some(
                        cu,
                    ) && cu <= sv);
                assert(self.cost(u) == s_old.cost(u));
            }
            assert(self.inv_core());
            assert forall|u: CoordinateAndDirection|
                state_valid(m, u) && self.cost(u) is Some && !self.to_visit@.contains(u) && Some(
                    current,
                ) != Some(u) implies #[trigger] self.relaxed(u) by {
                assert(!s_old.to_visit@.contains(u)) by {
                    if s_old.to_visit@.contains(u) {
                        let k = choose|k: int| 0 <= k < s_old.to_visit@.len() && s_old.to_visit@[k] == u;
                        assert(self.to_visit@[k] == u);
                    }
                }
                assert(s_old.relaxed(u));
                assert forall|v: CoordinateAndDirection| #[trigger] self.relax_ok(u, v) by {
                    assert(s_old.relax_ok(u, v));
                }
            }
        }
        (current, cost_here)
    }

    /// Tries every action out of `current`, appending to `updates`, for each
    /// action, the touch of its target tile and what came of it. Returns
    /// whether any state got a better cost.
    #[verifier::rlimit(40)]
    fn try_candidates(
        &mut self,
        current: &CoordinateAndDirection,
        cost_here: usize,
        updates: &mut Vec<TileUpdate>,
    ) -> (any_new: bool)
        requires
            old(self).inv_core(),
            old(self).relaxed_except(Some(*current)),
            state_valid(old(self).maze(), *current),
            old(self).cost(*current) == Some(cost_here),
            old(updates)@.len() == 1,
        ensures
            final(self).inv(),
            final(self).maze() == old(self).maze(),
            final(self).rotation_cost() == old(self).rotation_cost(),
            final(self).score == old(self).score,
            final(updates)@.len() % 2 == 1,
            final(updates)@[0] == old(updates)@[0],
            forall|j: int|
                0 <= j < (final(updates)@.len() - 1) / 2 ==> (#[trigger] final(updates)@[1 + 2
                    * j]).state == MazeTileState::Touched && final(updates)@[1 + 2 * j].direction
                    == current.direction && (final(updates)@[2 + 2 * j].state
                    == MazeTileState::Normal || final(updates)@[2 + 2 * j].state
                    == MazeTileState::Committed) && final(updates)@[2 + 2 * j].idx
                    == final(updates)@[1 + 2 * j].idx,
            ({
                let mv = candidate_moves(old(self).maze(), old(self).rotation_cost(), *current);
                let bound = score_bound(old(self).best_score());
                &&& final(updates)@.len() == 1 + 2 * mv.len()
                &&& forall|j: int|
                    0 <= j < mv.len() ==> {
                        &&& (#[trigger] final(updates)@[1 + 2 * j]).idx == row_major_index(
                            mv[j].0.coordinate,
                            old(self).maze().dim_x,
                        )
                        &&& final(updates)@[2 + 2 * j].idx == final(updates)@[1 + 2 * j].idx
                        &&& final(updates)@[2 + 2 * j].state == if old(self).commits(
                            bound,
                            cost_here as nat,
                            mv[j].0,
                            mv[j].1,
                        ) {
                            MazeTileState::Committed
                        } else {
                            MazeTileState::Normal
                        }
                        &&& final(updates)@[2 + 2 * j].direction == mv[j].0.direction
                    }
                &&& forall|x: CoordinateAndDirection|
                    state_valid(old(self).maze(), x) ==> #[trigger] final(self).cost(x) == old(
                        self,
                    ).cost_after_moves(bound, cost_here as nat, mv, x)
                &&& final(self).to_visit@ == old(self).to_visit@ + old(self).taken_targets(
                    bound,
                    cost_here as nat,
                    mv,
                )
                &&& any_new == (old(self).taken_targets(bound, cost_here as nat, mv).len() > 0)
                &&& targets_ok(old(self).maze(), mv)
            }),
    {
        let ghost s_pop = *self;
        let ghost m = self.maze();
        let ghost r = self.rotation_cost();
        let ghost first = updates@[0];
        let cands = self.candidates(current);
        let n_cands = cands.len();
        let mut any_new = false;
        let mut i: usize = 0;
        while i < n_cands
            invariant
                self.inv_core(),
                self.relaxed_except(Some(*current)),
                self.maze() == m,
                self.rotation_cost() == r,
                self.score == s_pop.score,
                m == s_pop.maze(),
                state_valid(m, *current),
                self.cost(*current) == Some(cost_here),
                n_cands == cands@.len(),
                i <= n_cands,
                candidates_ok(m, r, *current, cands@),
                forall|j: int| 0 <= j < i ==> self.relax_ok(*current, (#[trigger] cands@[j]).0),
                updates@.len() == 1 + 2 * i,
                updates@[0] == first,
                forall|j: int|
                    0 <= j < i ==> (#[trigger] updates@[1 + 2 * j]).state == MazeTileState::Touched
                        && updates@[1 + 2 * j].direction == current.direction && (updates@[2 + 2
                        * j].state == MazeTileState::Normal || updates@[2 + 2 * j].state
                        == MazeTileState::Committed) && updates@[2 + 2 * j].idx == updates@[1 + 2
                        * j].idx,
                moves_view(cands@) == candidate_moves(m, r, *current),
                forall|j: int|
                    0 <= j < i ==> {
                        &&& (#[trigger] updates@[1 + 2 * j]).idx == row_major_index(
                            cands@[j].0.coordinate,
                            m.dim_x,
                        )
                        &&& updates@[2 + 2 * j].state == if s_pop.commits(
                            score_bound(s_pop.score),
                            cost_here as nat,
                            cands@[j].0,
                            cands@[j].1 as nat,
                        ) {
                            MazeTileState::Committed
                        } else {
                            MazeTileState::Normal
                        }
                        &&& updates@[2 + 2 * j].direction == cands@[j].0.direction
                    },
                forall|x: CoordinateAndDirection|
                    state_valid(m, x) ==> #[trigger] self.cost(x) == s_pop.cost_after_moves(
                        score_bound(s_pop.score),
                        cost_here as nat,
                        moves_view(cands@).take(i as int),
                        x,
                    ),
                self.to_visit@ == s_pop.to_visit@ + s_pop.taken_targets(
                    score_bound(s_pop.score),
                    cost_here as nat,
                    moves_view(cands@).take(i as int),
                ),
                any_new == (s_pop.taken_targets(
                    score_bound(s_pop.score),
                    cost_here as nat,
                    moves_view(cands@).take(i as int),
                ).len() > 0),
            decreases n_cands - i,
        {
            let (cand, add) = cands[i];
            let ghost bound = score_bound(s_pop.score);
            let ghost mv_i = moves_view(cands@).take(i as int);
            let ghost mv_next = moves_view(cands@).take(i + 1);
            proof {
                assert(mv_next.drop_last() =~= mv_i);
                assert(mv_next.last() == (cand, add as nat));
                assert forall|j: int| 0 <= j < mv_i.len() implies (#[trigger] mv_i[j]).0 != cand by {
                    assert(mv_i[j].0 == cands@[j].0);
                    assert(cands@[i as int].0 == cand);
                }
                s_pop.lemma_cost_after_untargeted(bound, cost_here as nat, mv_i, cand);
                assert(self.cost(cand) == s_pop.cost(cand));
            }
            let cand_tile = self.tile_idx(&cand.coordinate);
            updates.push(
                TileUpdate {
                    idx: cand_tile,
                    state: MazeTileState::Touched,
                    direction: current.direction,
                },
            );
            let ghost s_before = *self;
            let committed = self.process_candidate(current, cost_here, &cand, add);
            if committed {
                updates.push(
                    TileUpdate {
                        idx: cand_tile,
                        state: MazeTileState::Committed,
                        direction: cand.direction,
                    },
                );
                any_new = true;
            } else {
                updates.push(
                    TileUpdate { idx: cand_tile, state: MazeTileState::Normal, direction: cand.direction },
                );
            }
            proof {
                assert(cands@[i as int].0 == cand);
                assert forall|j: int| 0 <= j < i + 1 implies self.relax_ok(
                    *current,
                    (#[trigger] cands@[j]).0,
                ) by {
                    if j < i {
                        assert(s_before.relax_ok(*current, cands@[j].0));
                    }
                }
                assert forall|j: int| 0 <= j < i + 1 implies (#[trigger] updates@[1 + 2 * j]).state
                    == MazeTileState::Touched && updates@[1 + 2 * j].direction == current.direction
                    && (updates@[2 + 2 * j].state == MazeTileState::Normal || updates@[2 + 2
                    * j].state == MazeTileState::Committed) && updates@[2 + 2 * j].idx == updates@[1
                    + 2 * j].idx by {}
                assert(committed == s_pop.commits(bound, cost_here as nat, cand, add as nat));
                assert forall|j: int| 0 <= j < i + 1 implies {
                    &&& (#[trigger] updates@[1 + 2 * j]).idx == row_major_index(
                        cands@[j].0.coordinate,
                        m.dim_x,
                    )
                    &&& updates@[2 + 2 * j].state == if s_pop.commits(
                        bound,
                        cost_here as nat,
                        cands@[j].0,
                        cands@[j].1 as nat,
                    ) {
                        MazeTileState::Committed
                    } else {
                        MazeTileState::Normal
                    }
                    &&& updates@[2 + 2 * j].direction == cands@[j].0.direction
                } by {
                    if j == i {
                        assert(cands@[j] == (cand, add));
                    }
                }
                assert forall|x: CoordinateAndDirection| state_valid(m, x) implies #[trigger] self.cost(
                    x,
                ) == s_pop.cost_after_moves(bound, cost_here as nat, mv_next, x) by {
                    if x != cand {
                        assert(self.cost(x) == s_before.cost(x));
                    }
                }
                assert(s_pop.taken_targets(bound, cost_here as nat, mv_next) == s_pop.taken_targets(
                    bound,
                    cost_here as nat,
                    mv_i,
                ) + if committed {
                    seq![cand]
                } else {
                    Seq::<CoordinateAndDirection>::empty()
                });
                assert(self.to_visit@ =~= s_pop.to_visit@ + s_pop.taken_targets(
                    bound,
                    cost_here as nat,
                    mv_next,
                ));
            }
            i = i + 1;
        }
        proof {
            assert(self.relaxed(*current)) by {
                assert forall|v: CoordinateAndDirection| #[trigger] self.relax_ok(*current, v) by {
                    if step_cost(m, r, *current, v) is Some {
                        let j = choose|j: int| 0 <= j < cands@.len() && (#[trigger] cands@[j]).0 == v;
                    }
                }
            }
            assert(self.relaxed_except(None));
            assert(moves_view(cands@).take(n_cands as int) =~= moves_view(cands@));
            assert forall|j: int| 0 <= j < n_cands implies moves_view(cands@)[j] == (
            cands@[j].0,
            cands@[j].1 as nat,
            ) by {}
            assert(targets_ok(m, moves_view(cands@)));
            assert forall|j: int| 0 <= j < (updates@.len() - 1) / 2 implies (#[trigger] updates@[1
                + 2 * j]).state == MazeTileState::Touched && updates@[1 + 2 * j].direction
                == current.direction && (updates@[2 + 2 * j].state == MazeTileState::Normal
                || updates@[2 + 2 * j].state == MazeTileState::Committed) && updates@[2 + 2 * j].idx
                == updates@[1 + 2 * j].idx by {
                assert(j < i);
            }
        }
        any_new
    }

    /// Sorts the states to visit, keeping the invariant.
    fn sort_pending(&mut self)
        requires
            old(self).inv(),
        ensures
            final(self).inv(),
            final(self).pending_sorted(),
            final(self).maze() == old(self).maze(),
            final(self).rotation_cost() == old(self).rotation_cost(),
            final(self).score == old(self).score,
            forall|x: CoordinateAndDirection| #[trigger] final(self).cost(x) == old(self).cost(x),
            forall|x: CoordinateAndDirection|
                #[trigger] final(self).to_visit@.contains(x) <==> old(self).to_visit@.contains(x),
            final(self).pending().to_multiset() == old(self).pending().to_multiset(),
    {
        let ghost s_sort = *self;
        let ghost m = self.maze();
        self.sort_to_visit();
        proof {
            assert(self.maze() == m);
            assert forall|x: CoordinateAndDirection| #[trigger] self.cost(x) == s_sort.cost(x) by {}
            assert forall|x: CoordinateAndDirection| #[trigger] self.preds_of(x) == s_sort.preds_of(
                x,
            ) by {}
            assert forall|x: CoordinateAndDirection, v: CoordinateAndDirection| #[trigger]
                self.relax_ok(x, v) == s_sort.relax_ok(x, v) by {}
            assert forall|x: CoordinateAndDirection| #[trigger] self.relaxed(x) == s_sort.relaxed(
                x,
            ) by {
                if s_sort.relaxed(x) {
                    assert forall|v: CoordinateAndDirection| #[trigger] self.relax_ok(x, v) by {
                        assert(s_sort.relax_ok(x, v));
                    }
                }
                if self.relaxed(x) {
                    assert forall|v: CoordinateAndDirection| #[trigger] s_sort.relax_ok(x, v) by {
                        assert(self.relax_ok(x, v));
                    }
                }
            }
            assert forall|p: CoordinateAndDirection, v: CoordinateAndDirection| #[trigger]
                self.pred_ok(p, v) == s_sort.pred_ok(p, v) by {}
            assert forall|k: int|
                0 <= k < self.to_visit@.len() implies state_valid(m, #[trigger] self.to_visit@[k])
                && self.cost(self.to_visit@[k]) is Some by {
                assert(s_sort.to_visit@.contains(self.to_visit@[k]));
            }
            assert forall|u: CoordinateAndDirection|
                state_valid(m, u) && u.coordinate == m.end && #[trigger] self.cost(u) is Some
                    && !self.to_visit@.contains(u) implies (self.score matches Some(sv) && sv
                    <= self.cost(u)->0) by {
                assert(!s_sort.to_visit@.contains(u));
            }
            if self.score is Some {
                let sv = self.score->0;
                let u = choose|u: CoordinateAndDirection|
                    state_valid(m, u) && u.coordinate == m.end && (#[trigger] s_sort.cost(u) matches Some(
                        cu,
                    ) && cu <= sv);
                assert(self.cost(u) == s_sort.cost(u));
            }
            assert(self.inv_core());
            assert(self.relaxed_except(None));
        }
    }

    /// Visits the next state, or reports the result when none is left.
    ///
    /// A visit takes the last state to visit; if it is on the end tile and
    /// cheaper than the score, its cost becomes the score; then every action
    /// out of it is tried (see `process_candidate`); if any improved a
    /// state, the states to visit are sorted again.
    pub fn step(&mut self) -> (p: SearchProgress)
        requires
            old(self).inv(),
        ensures
            final(self).inv(),
            final(self).maze() == old(self).maze(),
            final(self).rotation_cost() == old(self).rotation_cost(),
            old(self).pending().len() == 0 ==> (p matches SearchProgress::Finished(res)
                && search_result_correct(old(self).maze(), old(self).rotation_cost(), res)
                && *final(self) == *old(self)),
            old(self).pending().len() > 0 ==> ({
                let popped = old(self).pending().last();
                let m = old(self).maze();
                let here = old(self).cost(popped)->0 as nat;
                let bound = score_bound(final(self).best_score());
                let moves = candidate_moves(m, old(self).rotation_cost(), popped);
                let taken = old(self).taken_targets(bound, here, moves);
                &&& final(self).best_score() == if popped.coordinate == m.end && here
                    < score_bound(old(self).best_score()) {
                    old(self).cost(popped)
                } else {
                    old(self).best_score()
                }
                &&& p matches SearchProgress::Running(ups) && {
                    &&& updates_shape(
                        ups@,
                        row_major_index(popped.coordinate, m.dim_x),
                        popped.direction,
                    )
                    &&& ups@.len() == 2 + 2 * moves.len()
                    &&& forall|j: int|
                        0 <= j < moves.len() ==> {
                            &&& (#[trigger] ups@[1 + 2 * j]).idx == row_major_index(
                                moves[j].0.coordinate,
                                m.dim_x,
                            )
                            &&& ups@[2 + 2 * j].state == if old(self).commits(
                                bound,
                                here,
                                moves[j].0,
                                moves[j].1,
                            ) {
                                MazeTileState::Committed
                            } else {
                                MazeTileState::Normal
                            }
                            &&& ups@[2 + 2 * j].direction == moves[j].0.direction
                        }
                }
                &&& forall|x: CoordinateAndDirection|
                    state_valid(m, x) ==> #[trigger] final(self).cost(x) == old(
                        self,
                    ).cost_after_moves(bound, here, moves, x)
                &&& final(self).pending().to_multiset() == (old(self).pending().drop_last()
                    + taken).to_multiset()
                &&& taken.len() == 0 ==> final(self).pending() == old(self).pending().drop_last()
                &&& taken.len() > 0 ==> final(self).pending_sorted()
                &&& final(self).progress() < old(self).progress()
            }),
    {
        if self.to_visit.len() == 0 {
            return SearchProgress::Finished(self.finish());
        }
        let ghost s_old = *self;
        let ghost m = self.maze();
        let (current, cost_here) = self.begin_visit();
        let ghost s_pop = *self;
        proof {
            assert forall|x: CoordinateAndDirection| #[trigger] s_pop.cost(x) == s_old.cost(x) by {}
        }
        let cur_tile = self.tile_idx(&current.coordinate);
        let mut updates: Vec<TileUpdate> = Vec::new();
        updates.push(
            TileUpdate { idx: cur_tile, state: MazeTileState::Active, direction: current.direction },
        );
        let any_new = self.try_candidates(&current, cost_here, &mut updates);
        let ghost s_tried = *self;
        if any_new {
            self.sort_pending();
        }
        let ghost ups_tried = updates@;
        updates.push(
            TileUpdate { idx: cur_tile, state: MazeTileState::Normal, direction: current.direction },
        );
        proof {
            assert(updates_shape(
                updates@,
                row_major_index(current.coordinate, m.dim_x),
                current.direction,
            )) by {
                assert forall|j: int|
                    0 <= j < (updates@.len() - 2) / 2 implies (#[trigger] updates@[1 + 2 * j]).state
                    == MazeTileState::Touched && updates@[1 + 2 * j].direction == current.direction
                    && (updates@[2 + 2 * j].state == MazeTileState::Normal || updates@[2 + 2
                    * j].state == MazeTileState::Committed) && updates@[2 + 2 * j].idx == updates@[1
                    + 2 * j].idx by {
                    assert(updates@[1 + 2 * j] == ups_tried[1 + 2 * j]);
                    assert(updates@[2 + 2 * j] == ups_tried[2 + 2 * j]);
                }
            }
        }
        proof {
            let popped = s_old.pending().last();
            assert(popped == current);
            let here = cost_here as nat;
            let bound = score_bound(self.best_score());
            let moves = candidate_moves(m, s_old.rotation_cost(), popped);
            s_pop.lemma_moves_same_costs(&s_old, bound, here, moves);
            assert forall|j: int| 0 <= j < moves.len() implies s_pop.commits(
                bound,
                here,
                moves[j].0,
                moves[j].1,
            ) == s_old.commits(bound, here, moves[j].0, moves[j].1) by {
                assert(s_pop.cost(moves[j].0) == s_old.cost(moves[j].0));
            }
            assert forall|j: int| 0 <= j < moves.len() implies {
                &&& (#[trigger] updates@[1 + 2 * j]).idx == row_major_index(
                    moves[j].0.coordinate,
                    m.dim_x,
                )
                &&& updates@[2 + 2 * j].state == if s_old.commits(
                    bound,
                    here,
                    moves[j].0,
                    moves[j].1,
                ) {
                    MazeTileState::Committed
                } else {
                    MazeTileState::Normal
                }
                &&& updates@[2 + 2 * j].direction == moves[j].0.direction
            } by {
                assert(updates@[1 + 2 * j] == ups_tried[1 + 2 * j]);
                assert(updates@[2 + 2 * j] == ups_tried[2 + 2 * j]);
            }
            assert forall|x: CoordinateAndDirection| state_valid(m, x) implies #[trigger] self.cost(
                x,
            ) == s_old.cost_after_moves(bound, here, moves, x) by {
                assert(self.cost(x) == s_tried.cost(x));
            }
            let taken = s_old.taken_targets(bound, here, moves);
            if any_new {
                assert(self.pending().to_multiset() == s_tried.to_visit@.to_multiset());
            } else {
                assert(taken.len() == 0);
                assert(s_tried.to_visit@ =~= s_pop.to_visit@);
                assert(s_old.pending().drop_last() + taken =~= s_old.pending().drop_last());
            }
            assert(s_tried.to_visit@ =~= s_old.pending().drop_last() + taken);
            assert(self.pending().to_multiset() == (s_old.pending().drop_last() + taken).to_multiset());
            PathSearch::lemma_step_progress(&s_old, self, bound, here, moves);
        }
        SearchProgress::Running(updates)
    }

}

} // verus!

verus! {

/// The last state of a walk is a ground state.
pub proof fn lemma_walk_last_valid(m: MazeModel, r: nat, w: Seq<CoordinateAndDirection>)
    requires
        maze_wf(m),
        is_walk(m, r, w),
    ensures
        state_valid(m, w.last()),
{
    if w.len() >= 2 {
        assert(step_cost(m, r, w[w.len() - 2], w[w.len() - 2 + 1]) is Some);
    }
}

/// Extending a walk by one action gives a walk that costs that action more.
pub proof fn lemma_walk_push(
    m: MazeModel,
    r: nat,
    w: Seq<CoordinateAndDirection>,
    v: CoordinateAndDirection,
)
    requires
        is_walk(m, r, w),
        step_cost(m, r, w.last(), v) is Some,
    ensures
        is_walk(m, r, w.push(v)),
        w.push(v).last() == v,
        w.push(v).drop_last() == w,
        walk_cost(m, r, w.push(v)) == walk_cost(m, r, w) + step_cost(m, r, w.last(), v)->0,
{
    let x = w.push(v);
    assert(x.drop_last() =~= w);
    assert forall|i: int| 0 <= i < x.len() - 1 implies (#[trigger] step_cost(
        m,
        r,
        x[i],
        x[i + 1],
    )) is Some by {
        if i < w.len() - 1 {
            assert(x[i] == w[i] && x[i + 1] == w[i + 1]);
            assert(step_cost(m, r, w[i], w[i + 1]) is Some);
        } else {
            assert(x[i] == w.last());
        }
    }
}

/// Dropping the last state of a walk of two or more states leaves a walk;
/// the last action accounts for the difference in cost.
pub proof fn lemma_walk_prefix(m: MazeModel, r: nat, w: Seq<CoordinateAndDirection>)
    requires
        is_walk(m, r, w),
        w.len() >= 2,
    ensures
        is_walk(m, r, w.drop_last()),
        step_cost(m, r, w.drop_last().last(), w.last()) is Some,
        walk_cost(m, r, w) == walk_cost(m, r, w.drop_last()) + step_cost(
            m,
            r,
            w.drop_last().last(),
            w.last(),
        )->0,
        w.drop_last().push(w.last()) == w,
{
    let p = w.drop_last();
    assert(p.push(w.last()) =~= w);
    assert(step_cost(m, r, w[w.len() - 2], w[w.len() - 2 + 1]) is Some);
    assert forall|i: int| 0 <= i < p.len() - 1 implies (#[trigger] step_cost(
        m,
        r,
        p[i],
        p[i + 1],
    )) is Some by {
        assert(step_cost(m, r, w[i], w[i + 1]) is Some);
    }
}

/// The views of a list of walks.
pub open spec fn walk_views(ws: Seq<Vec<CoordinateAndDirection>>) -> Seq<Seq<CoordinateAndDirection>> {
    ws.map_values(|w: Vec<CoordinateAndDirection>| w@)
}

/// A known cost, or `usize::MAX` for an unknown one.
pub open spec fn cost_or_max(c: Option<usize>) -> nat {
    match c {
        Some(v) => v as nat,
        None => usize::MAX as nat,
    }
}

/// The tiles a walk passes through, consecutive repetitions kept once.
fn walk_tiles_of(w: &Vec<CoordinateAndDirection>) -> (t: Vec<Coordinate>)
    ensures
        t@ == walk_tiles(w@),
{
    let mut t: Vec<Coordinate> = Vec::new();
    let mut i: usize = 0;
    while i < w.len()
        invariant
            i <= w@.len(),
            t@ == walk_tiles(w@.take(i as int)),
        decreases w@.len() - i,
    {
        let c = w[i].coordinate;
        proof {
            assert(w@.take(i + 1).drop_last() =~= w@.take(i as int));
            assert(w@.take(i + 1).last() == w@[i as int]);
        }
        let n = t.len();
        if n == 0 || t[n - 1] != c {
            t.push(c);
        }
        i = i + 1;
    }
    assert(w@.take(w@.len() as int) =~= w@);
    t
}

impl PathSearch {
    /// The search is over: the invariant holds and nothing is left to visit.
    pub closed spec fn settled(&self) -> bool {
        self.inv() && self.to_visit@.len() == 0
    }

    /// A walk to `v` whose cost is exactly `v`'s known cost.
    pub closed spec fn is_exact_walk(&self, w: Seq<CoordinateAndDirection>, v: CoordinateAndDirection) -> bool {
        &&& is_walk(self.maze(), self.rotation_cost(), w)
        &&& w.last() == v
        &&& self.cost(v) is Some
        &&& walk_cost(self.maze(), self.rotation_cost(), w) == self.cost(v)->0
    }

    proof fn lemma_settled_relaxed(&self, u: CoordinateAndDirection)
        requires
            self.settled(),
            state_valid(self.maze(), u),
            self.cost(u) is Some,
        ensures
            self.relaxed(u),
    {
        assert(!self.to_visit@.contains(u));
    }

    /// Without a score, every state that a walk reaches has a known cost.
    proof fn lemma_reach_without_score(&self, w: Seq<CoordinateAndDirection>)
        requires
            self.settled(),
            self.score is None,
            is_walk(self.maze(), self.rotation_cost(), w),
        ensures
            self.cost(w.last()) is Some,
        decreases w.len(),
    {
        let m = self.maze();
        let r = self.rotation_cost();
        if w.len() >= 2 {
            lemma_walk_prefix(m, r, w);
            let p = w.drop_last();
            self.lemma_reach_without_score(p);
            lemma_walk_last_valid(m, r, p);
            let u = p.last();
            self.lemma_settled_relaxed(u);
            self.lemma_cost_below_max(u);
            assert(self.relax_ok(u, w.last()));
            lemma_step_cost_range(m, r, u, w.last());
        }
    }

    /// With a score, a walk that costs no more than the score ends at a
    /// state known at no more than the walk's cost.
    proof fn lemma_lower_bound(&self, w: Seq<CoordinateAndDirection>)
        requires
            self.settled(),
            self.score is Some,
            is_walk(self.maze(), self.rotation_cost(), w),
            walk_cost(self.maze(), self.rotation_cost(), w) <= self.score->0,
        ensures
            self.cost(w.last()) is Some,
            self.cost(w.last())->0 <= walk_cost(self.maze(), self.rotation_cost(), w),
        decreases w.len(),
    {
        let m = self.maze();
        let r = self.rotation_cost();
        if w.len() >= 2 {
            lemma_walk_prefix(m, r, w);
            let p = w.drop_last();
            self.lemma_lower_bound(p);
            lemma_walk_last_valid(m, r, p);
            let u = p.last();
            self.lemma_settled_relaxed(u);
            assert(self.relax_ok(u, w.last()));
        }
    }

    /// Following first predecessors back from a known state gives a walk to
    /// it that costs no more than its known cost.
    proof fn lemma_chain(&self, v: CoordinateAndDirection) -> (w: Seq<CoordinateAndDirection>)
        requires
            self.inv(),
            state_valid(self.maze(), v),
            self.cost(v) is Some,
        ensures
            is_walk(self.maze(), self.rotation_cost(), w),
            w.last() == v,
            walk_cost(self.maze(), self.rotation_cost(), w) <= self.cost(v)->0,
        decreases self.cost(v)->0,
    {
        let m = self.maze();
        let r = self.rotation_cost();
        if v == start_state(m) {
            let w = seq![v];
            assert(w.last() == v);
            w
        } else {
            assert(self.preds_of(v).len() > 0);
            let p = self.preds_of(v)[0];
            assert(self.pred_ok(p, v));
            lemma_step_cost_range(m, r, p, v);
            let wp = self.lemma_chain(p);
            lemma_walk_push(m, r, wp, v);
            wp.push(v)
        }
    }

    /// A walk of exactly its known cost to a state known at no more than the
    /// score arrives from one of its predecessors, along a walk of exactly
    /// that predecessor's known cost.
    proof fn lemma_last_step(&self, x: Seq<CoordinateAndDirection>, v: CoordinateAndDirection)
        requires
            self.settled(),
            self.score is Some,
            self.is_exact_walk(x, v),
            self.cost(v)->0 <= self.score->0,
            x.len() >= 2,
        ensures
            self.preds_of(v).contains(x.drop_last().last()),
            self.is_exact_walk(x.drop_last(), x.drop_last().last()),
            x.drop_last().push(v) == x,
    {
        let m = self.maze();
        let r = self.rotation_cost();
        lemma_walk_prefix(m, r, x);
        let w = x.drop_last();
        let u = w.last();
        self.lemma_lower_bound(w);
        lemma_walk_last_valid(m, r, w);
        self.lemma_settled_relaxed(u);
        assert(self.relax_ok(u, v));
    }

    /// A walk of exactly its known cost to a predecessor `p` of `v`, where
    /// `v` is known at no more than the score, continues to a walk of
    /// exactly `v`'s known cost.
    proof fn lemma_extend(
        &self,
        w: Seq<CoordinateAndDirection>,
        p: CoordinateAndDirection,
        v: CoordinateAndDirection,
    )
        requires
            self.settled(),
            self.score is Some,
            state_valid(self.maze(), v),
            self.cost(v) is Some,
            self.cost(v)->0 <= self.score->0,
            self.preds_of(v).contains(p),
            self.is_exact_walk(w, p),
        ensures
            self.is_exact_walk(w.push(v), v),
    {
        let m = self.maze();
        let r = self.rotation_cost();
        let j = choose|j: int| 0 <= j < self.preds_of(v).len() && self.preds_of(v)[j] == p;
        assert(self.pred_ok(self.preds_of(v)[j], v));
        self.lemma_settled_relaxed(p);
        assert(self.relax_ok(p, v));
        lemma_walk_push(m, r, w, v);
    }
}

} // verus!

verus! {

impl PathSearch {
    /// Every walk to `v` of exactly `v`'s known cost, each once, found by
    /// following predecessors back to the start.
    fn exact_walks_to(&self, v: &CoordinateAndDirection) -> (walks: Vec<Vec<CoordinateAndDirection>>)
        requires
            self.settled(),
            self.score is Some,
            state_valid(self.maze(), *v),
            self.cost(*v) is Some,
            self.cost(*v)->0 <= self.score->0,
        ensures
            walk_views(walks@).no_duplicates(),
            forall|x: Seq<CoordinateAndDirection>|
                #[trigger] walk_views(walks@).contains(x) <==> self.is_exact_walk(x, *v),
        decreases self.cost(*v)->0,
    {
        let ghost m = self.maze();
        let ghost r = self.rotation_cost();
        let preds = self.preds_vec(v);
        let mut out: Vec<Vec<CoordinateAndDirection>> = Vec::new();
        if preds.len() == 0 {
            let mut w: Vec<CoordinateAndDirection> = Vec::new();
            w.push(*v);
            out.push(w);
            proof {
                assert(*v == start_state(m));
                assert(walk_views(out@) =~= seq![seq![*v]]);
                assert(self.is_exact_walk(seq![*v], *v));
                assert forall|x: Seq<CoordinateAndDirection>|
                    #[trigger] walk_views(out@).contains(x) <==> self.is_exact_walk(x, *v) by {
                    if self.is_exact_walk(x, *v) {
                        if x.len() >= 2 {
                            self.lemma_last_step(x, *v);
                        }
                        assert(x =~= seq![*v]);
                        assert(walk_views(out@)[0] == x);
                    }
                    if walk_views(out@).contains(x) {
                        assert(x == seq![*v]);
                    }
                }
            }
            return out;
        }
        let n = preds.len();
        let mut k: usize = 0;
        while k < n
            invariant
                self.settled(),
                self.score is Some,
                m == self.maze(),
                r == self.rotation_cost(),
                state_valid(m, *v),
                self.cost(*v) is Some,
                self.cost(*v)->0 <= self.score->0,
                preds@ == self.preds_of(*v),
                n == preds@.len(),
                k <= n,
                walk_views(out@).no_duplicates(),
                forall|x: Seq<CoordinateAndDirection>|
                    #[trigger] walk_views(out@).contains(x) <==> (x.len() >= 2 && x.last() == *v
                        && preds@.take(k as int).contains(x.drop_last().last())
                        && self.is_exact_walk(x.drop_last(), x.drop_last().last())),
            decreases n - k,
        {
            let p = preds[k];
            proof {
                assert(self.pred_ok(self.preds_of(*v)[k as int], *v));
                lemma_step_cost_range(m, r, p, *v);
            }
            let subs = self.exact_walks_to(&p);
            let ns = subs.len();
            let ghost out_before = walk_views(out@);
            let mut j: usize = 0;
            while j < ns
                invariant
                    self.settled(),
                    self.score is Some,
                    m == self.maze(),
                    r == self.rotation_cost(),
                    preds@ == self.preds_of(*v),
                    n == preds@.len(),
                    k < n,
                    state_valid(m, *v),
                    p == preds@[k as int],
                    ns == subs@.len(),
                    j <= ns,
                    walk_views(subs@).no_duplicates(),
                    forall|x: Seq<CoordinateAndDirection>|
                        #[trigger] walk_views(subs@).contains(x) <==> self.is_exact_walk(x, p),
                    forall|x: Seq<CoordinateAndDirection>|
                        #[trigger] out_before.contains(x) <==> (x.len() >= 2 && x.last() == *v
                            && preds@.take(k as int).contains(x.drop_last().last())
                            && self.is_exact_walk(x.drop_last(), x.drop_last().last())),
                    walk_views(out@).no_duplicates(),
                    forall|x: Seq<CoordinateAndDirection>|
                        #[trigger] walk_views(out@).contains(x) <==> (out_before.contains(x) || (
                        x.len() >= 2 && x.last() == *v && walk_views(subs@).take(
                            j as int,
                        ).contains(x.drop_last()))),
                decreases ns - j,
            {
                let mut w = subs[j].clone();
                proof {
                    assert(w@ =~= subs@[j as int]@);
                }
                w.push(*v);
                let ghost views_before = walk_views(out@);
                let ghost y = subs@[j as int]@;
                let ghost t0 = walk_views(subs@).take(j as int);
                let ghost t1 = walk_views(subs@).take(j + 1);
                proof {
                    assert(walk_views(subs@)[j as int] == y);
                    assert(walk_views(subs@).contains(y));
                    assert(self.is_exact_walk(y, p));
                    assert(y.last() == p);
                    assert(w@ =~= y.push(*v));
                    assert(y.push(*v).drop_last() =~= y);
                    assert(t1 =~= t0.push(y));
                    assert(preds@.no_duplicates());
                    if out_before.contains(w@) {
                        let pk = preds@.take(k as int);
                        let q = choose|q: int| 0 <= q < pk.len() && pk[q] == y.last();
                        assert(preds@[q] == preds@[k as int]);
                        assert(false);
                    }
                    if t0.contains(y) {
                        let q = choose|q: int| 0 <= q < t0.len() && t0[q] == y;
                        assert(walk_views(subs@)[q] == walk_views(subs@)[j as int]);
                        assert(false);
                    }
                    assert(!views_before.contains(w@));
                }
                out.push(w);
                proof {
                    assert(walk_views(out@) =~= views_before.push(w@));
                    assert(walk_views(out@).no_duplicates()) by {
                        assert forall|a: int, b: int|
                            0 <= a < b < walk_views(out@).len() implies walk_views(out@)[a]
                            != walk_views(out@)[b] by {
                            if b == views_before.len() {
                                assert(views_before[a] == walk_views(out@)[a]);
                            } else {
                                assert(views_before[a] == walk_views(out@)[a]);
                                assert(views_before[b] == walk_views(out@)[b]);
                            }
                        }
                    }
                    assert forall|x: Seq<CoordinateAndDirection>|
                        #[trigger] walk_views(out@).contains(x) <==> (out_before.contains(x) || (
                        x.len() >= 2 && x.last() == *v && t1.contains(x.drop_last()))) by {
                        if walk_views(out@).contains(x) {
                            if x == w@ {
                                assert(t1[j as int] == y);
                            } else {
                                let q = choose|q: int|
                                    0 <= q < walk_views(out@).len() && walk_views(out@)[q] == x;
                                assert(views_before[q] == x);
                                assert(views_before.contains(x));
                                if !out_before.contains(x) {
                                    let z = choose|z: int|
                                        0 <= z < t0.len() && t0[z] == x.drop_last();
                                    assert(t1[z] == x.drop_last());
                                }
                            }
                        }
                        if out_before.contains(x) {
                            assert(views_before.contains(x));
                            let t = choose|t: int| 0 <= t < views_before.len() && views_before[t] == x;
                            assert(walk_views(out@)[t] == x);
                        }
                        if x.len() >= 2 && x.last() == *v && t1.contains(x.drop_last()) {
                            let q = choose|q: int| 0 <= q < t1.len() && t1[q] == x.drop_last();
                            if q == j {
                                assert(x =~= x.drop_last().push(x.last()));
                                assert(x == w@);
                                assert(walk_views(out@)[views_before.len() as int] == x);
                            } else {
                                assert(t0[q] == x.drop_last());
                                assert(views_before.contains(x));
                                let t = choose|t: int|
                                    0 <= t < views_before.len() && views_before[t] == x;
                                assert(walk_views(out@)[t] == x);
                            }
                        }
                    }
                }
                j = j + 1;
            }
            proof {
                assert(walk_views(subs@).take(ns as int) =~= walk_views(subs@));
                assert(preds@.take(k + 1) =~= preds@.take(k as int).push(p));
                assert forall|x: Seq<CoordinateAndDirection>|
                    #[trigger] walk_views(out@).contains(x) <==> (x.len() >= 2 && x.last() == *v
                        && preds@.take(k + 1).contains(x.drop_last().last())
                        && self.is_exact_walk(x.drop_last(), x.drop_last().last())) by {
                    if x.len() >= 2 && x.last() == *v {
                        let y = x.drop_last();
                        if y.last() == p && self.is_exact_walk(y, y.last()) {
                            assert(walk_views(subs@).contains(y));
                            assert(preds@.take(k + 1)[k as int] == p);
                        }
                        if walk_views(subs@).contains(y) {
                            assert(self.is_exact_walk(y, p));
                            assert(preds@.take(k + 1)[k as int] == p);
                        }
                        if preds@.take(k as int).contains(y.last()) {
                            let q = choose|q: int|
                                0 <= q < preds@.take(k as int).len() && preds@.take(k as int)[q]
                                    == y.last();
                            assert(preds@.take(k + 1)[q] == y.last());
                        }
                        if preds@.take(k + 1).contains(y.last()) && y.last() != p {
                            let pk1 = preds@.take(k + 1);
                            let q = choose|q: int| 0 <= q < pk1.len() && pk1[q] == y.last();
                            assert(q != k);
                            assert(preds@.take(k as int)[q] == y.last());
                        }
                    }
                }
            }
            k = k + 1;
        }
        proof {
            assert(preds@.take(n as int) =~= preds@);
            assert(*v != start_state(m));
            assert forall|x: Seq<CoordinateAndDirection>|
                #[trigger] walk_views(out@).contains(x) <==> self.is_exact_walk(x, *v) by {
                if walk_views(out@).contains(x) {
                    let y = x.drop_last();
                    assert(y.push(*v) =~= x);
                    self.lemma_extend(y, y.last(), *v);
                }
                if self.is_exact_walk(x, *v) {
                    if x.len() < 2 {
                        assert(x[0] == start_state(m));
                        assert(x.last() == x[0]);
                    }
                    self.lemma_last_step(x, *v);
                }
            }
        }
        out
    }

    /// The end state the paths are reported to: on the end tile, facing the
    /// first direction (in the order North, East, South, West) whose state
    /// there has the least known cost.
    fn reported_end(&self) -> (e: CoordinateAndDirection)
        requires
            self.settled(),
            self.score is Some,
        ensures
            e.coordinate == self.maze().end,
            self.cost(e) == self.score,
            forall|d: Direction|
                direction_index(d) < direction_index(e.direction) ==> #[trigger] self.cost(
                    CoordinateAndDirection { coordinate: self.maze().end, direction: d },
                ) != self.score,
    {
        let ghost m = self.maze();
        let dirs: [Direction; 4] = [Direction::North, Direction::East, Direction::South, Direction::West];
        let end = self.end_coordinate;
        proof {
            assert(is_open(m, m.end));
        }
        let mut best = CoordinateAndDirection { coordinate: end, direction: Direction::North };
        let mut best_cost: usize = match self.get_cost(&best) {
            Some(c) => c,
            None => usize::MAX,
        };
        let mut k: usize = 1;
        while k < 4
            invariant
                self.settled(),
                m == self.maze(),
                end == m.end,
                is_open(m, end),
                dirs@ == seq![Direction::North, Direction::East, Direction::South, Direction::West],
                1 <= k <= 4,
                best.coordinate == end,
                direction_index(best.direction) < k,
                best_cost == cost_or_max(self.cost(best)),
                forall|d: Direction|
                    direction_index(d) < k ==> best_cost <= cost_or_max(
                        #[trigger] self.cost(CoordinateAndDirection { coordinate: end, direction: d }),
                    ),
                forall|d: Direction|
                    direction_index(d) < direction_index(best.direction) ==> best_cost
                        < cost_or_max(
                        #[trigger] self.cost(CoordinateAndDirection { coordinate: end, direction: d }),
                    ),
            decreases 4 - k,
        {
            let d = dirs[k];
            assert(direction_index(d) == k);
            let s = CoordinateAndDirection { coordinate: end, direction: d };
            let c: usize = match self.get_cost(&s) {
                Some(c) => c,
                None => usize::MAX,
            };
            if c < best_cost {
                best = s;
                best_cost = c;
            }
            proof {
                assert forall|d2: Direction| direction_index(d2) < k + 1 implies best_cost
                    <= cost_or_max(
                    #[trigger] self.cost(CoordinateAndDirection { coordinate: end, direction: d2 }),
                ) by {
                    if direction_index(d2) == k {
                        assert(d2 == d);
                    }
                }
            }
            k = k + 1;
        }
        proof {
            let sv = self.score->0;
            let u = choose|u: CoordinateAndDirection|
                state_valid(m, u) && u.coordinate == m.end && (#[trigger] self.cost(u) matches Some(
                    cu,
                ) && cu <= sv);
            assert(!self.to_visit@.contains(u));
            assert(u == CoordinateAndDirection { coordinate: end, direction: u.direction });
            assert(direction_index(u.direction) < 4);
            assert(best_cost <= sv);
            if self.cost(best) is None {
                self.lemma_cost_below_max(u);
            } else {
                assert(!self.to_visit@.contains(best));
            }
        }
        best
    }

    /// The result once nothing is left to visit: nothing when the end was
    /// never reached; otherwise the score and the tiles of every walk of
    /// that cost to the reported end state.
    fn finish(&self) -> (result: Option<PathInfo>)
        requires
            self.settled(),
        ensures
            search_result_correct(self.maze(), self.rotation_cost(), result),
    {
        let ghost m = self.maze();
        let ghost r = self.rotation_cost();
        let score = match self.score {
            None => {
                proof {
                    assert forall|w: Seq<CoordinateAndDirection>|
                        is_walk(m, r, w) implies #[trigger] w.last().coordinate != m.end by {
                        self.lemma_reach_without_score(w);
                        lemma_walk_last_valid(m, r, w);
                        assert(!self.to_visit@.contains(w.last()));
                    }
                }
                return None;
            },
            Some(s) => s,
        };
        let e = self.reported_end();
        let walks = self.exact_walks_to(&e);
        let n = walks.len();
        let mut paths: Vec<Vec<Coordinate>> = Vec::new();
        let mut i: usize = 0;
        while i < n
            invariant
                n == walks@.len(),
                i <= n,
                paths@.len() == i,
                forall|j: int| 0 <= j < i ==> (#[trigger] paths@[j])@ == walk_tiles(walks@[j]@),
            decreases n - i,
        {
            let t = walk_tiles_of(&walks[i]);
            paths.push(t);
            i = i + 1;
        }
        let ghost views = walk_views(walks@);
        proof {
            assert(paths.deep_view() =~= views.map_values(
                |w: Seq<CoordinateAndDirection>| walk_tiles(w),
            )) by {
                assert forall|j: int| 0 <= j < n implies paths.deep_view()[j] == views.map_values(
                    |w: Seq<CoordinateAndDirection>| walk_tiles(w),
                )[j] by {
                    assert(paths@[j].deep_view() =~= paths@[j]@);
                }
            }
        }
        let info = PathInfo::new_gd(paths, score);
        proof {
            let sv = score as nat;
            let w0 = self.lemma_chain(e);
            self.lemma_lower_bound(w0);
            assert(w0.last().coordinate == m.end);
            assert(is_best_walk_to(m, r, sv, e, w0));
            assert forall|w: Seq<CoordinateAndDirection>|
                is_walk(m, r, w) && #[trigger] w.last().coordinate == m.end implies sv
                <= walk_cost(m, r, w) by {
                if walk_cost(m, r, w) <= sv {
                    self.lemma_lower_bound(w);
                    lemma_walk_last_valid(m, r, w);
                    assert(!self.to_visit@.contains(w.last()));
                }
            }
            assert(is_best_score(m, r, sv));
            assert forall|d: Direction, w: Seq<CoordinateAndDirection>|
                direction_index(d) < direction_index(e.direction) implies !#[trigger] is_best_walk_to(
                m,
                r,
                sv,
                CoordinateAndDirection { coordinate: m.end, direction: d },
                w,
            ) by {
                let s = CoordinateAndDirection { coordinate: m.end, direction: d };
                if is_best_walk_to(m, r, sv, s, w) {
                    self.lemma_lower_bound(w);
                    lemma_walk_last_valid(m, r, w);
                    assert(!self.to_visit@.contains(s));
                    assert(self.cost(s) != self.score);
                }
            }
            assert(is_reported_end(m, r, sv, e));
            assert forall|w: Seq<CoordinateAndDirection>|
                #[trigger] views.contains(w) <==> is_best_walk_to(m, r, sv, e, w) by {
                if views.contains(w) {
                    assert(self.is_exact_walk(w, e));
                }
                if is_best_walk_to(m, r, sv, e, w) {
                    assert(self.is_exact_walk(w, e));
                }
            }
            assert(lists_best_walks(m, r, sv, e, views, info.paths()));
        }
        Some(info)
    }
}

} // verus!

verus! {

impl PathSearch {
    /// The tile change that opens a search: the start tile committed, facing
    /// the start direction.
    pub fn start_update(&self) -> (u: TileUpdate)
        requires
            self.inv(),
        ensures
            u.idx == row_major_index(self.maze().start, self.maze().dim_x),
            u.state == MazeTileState::Committed,
            u.direction == self.maze().start_direction,
    {
        let idx = self.tile_idx(&self.start.coordinate);
        TileUpdate { idx, state: MazeTileState::Committed, direction: self.start.direction }
    }
}

} // verus!

verus! {

/// What a known cost can still fall by: the cost itself, or, for a state
/// not reached yet, one more than any cost.
pub open spec fn cost_potential(c: Option<usize>) -> nat {
    match c {
        Some(v) => v as nat,
        None => usize::MAX as nat + 1,
    }
}

/// Entry `i` of the per-state tables belongs to a ground state.
pub open spec fn is_state_entry(m: MazeModel, i: int) -> bool {
    exists|s: CoordinateAndDirection| state_valid(m, s) && state_index(m, s) == i
}

/// The ground state whose entry is `i`.
pub open spec fn entry_state(m: MazeModel, i: int) -> CoordinateAndDirection {
    choose|s: CoordinateAndDirection| state_valid(m, s) && state_index(m, s) == i
}

/// The potential of every entry of `n` per-state entries under `cost`; entries
/// of walls count nothing.
pub open spec fn potentials(
    m: MazeModel,
    n: nat,
    cost: spec_fn(CoordinateAndDirection) -> Option<usize>,
) -> Seq<nat> {
    Seq::new(
        n,
        |i: int|
            if is_state_entry(m, i) {
                cost_potential(cost(entry_state(m, i)))
            } else {
                0
            },
    )
}

/// The sum of a sequence of numbers.
pub open spec fn sum_nats(s: Seq<nat>) -> nat
    decreases s.len(),
{
    if s.len() == 0 {
        0
    } else {
        sum_nats(s.drop_last()) + s.last()
    }
}

proof fn lemma_sum_nats_update(s: Seq<nat>, i: int, v: nat)
    requires
        0 <= i < s.len(),
    ensures
        sum_nats(s.update(i, v)) + s[i] == sum_nats(s) + v,
    decreases s.len(),
{
    let u = s.update(i, v);
    if i == s.len() - 1 {
        assert(u.drop_last() =~= s.drop_last());
    } else {
        assert(u.drop_last() =~= s.drop_last().update(i, v));
        lemma_sum_nats_update(s.drop_last(), i, v);
    }
}

impl PathSearch {
    /// How far the search is from finishing: the number of states still to
    /// visit plus how far the known cost of every ground state can still fall.
    /// Every step that visits a state lowers it.
    pub closed spec fn progress(&self) -> nat {
        self.to_visit@.len() + sum_nats(
            potentials(self.maze(), self.costs@.len() as nat, |s: CoordinateAndDirection| self.cost(s)),
        )
    }

    /// Each move taken lowers the potential of its target by at least one.
    proof fn lemma_moves_potential(
        &self,
        bound: nat,
        here: nat,
        moves: Seq<(CoordinateAndDirection, nat)>,
    )
        requires
            self.shape_ok(),
            bound <= usize::MAX,
            targets_ok(self.maze(), moves),
        ensures
            sum_nats(
                potentials(
                    self.maze(),
                    self.costs@.len() as nat,
                    |s: CoordinateAndDirection| self.cost_after_moves(bound, here, moves, s),
                ),
            ) + self.taken_targets(bound, here, moves).len() <= sum_nats(
                potentials(self.maze(), self.costs@.len() as nat, |s: CoordinateAndDirection| self.cost(s)),
            ),
        decreases moves.len(),
    {
        let m = self.maze();
        let n = self.costs@.len() as nat;
        let p_now = potentials(m, n, |s: CoordinateAndDirection| self.cost_after_moves(bound, here, moves, s));
        if moves.len() == 0 {
            assert(p_now =~= potentials(m, n, |s: CoordinateAndDirection| self.cost(s)));
        } else {
            let prev = moves.drop_last();
            let (t, w) = moves.last();
            assert(targets_ok(m, prev)) by {
                assert forall|i: int| 0 <= i < prev.len() implies state_valid(m, (#[trigger] prev[i]).0) by {
                    assert(prev[i] == moves[i]);
                }
                assert forall|i: int, j: int| 0 <= i < j < prev.len() implies prev[i].0 != prev[j].0 by {
                    assert(prev[i] == moves[i]);
                    assert(prev[j] == moves[j]);
                }
            }
            self.lemma_moves_potential(bound, here, prev);
            let p_prev = potentials(m, n, |s: CoordinateAndDirection| self.cost_after_moves(bound, here, prev, s));
            if !self.commits(bound, here, t, w) {
                assert(p_now =~= p_prev);
                assert(self.taken_targets(bound, here, moves) =~= self.taken_targets(bound, here, prev));
            } else {
                assert(state_valid(m, moves[moves.len() - 1].0));
                let j = state_index(m, t);
                lemma_state_index(m, t, t);
                let nv = cost_potential(Some((here + w) as usize));
                assert(p_now =~= p_prev.update(j, nv)) by {
                    assert forall|i: int| 0 <= i < n implies #[trigger] p_now[i] == p_prev.update(j, nv)[i] by {
                        if is_state_entry(m, i) {
                            let e = entry_state(m, i);
                            lemma_state_index(m, e, t);
                            if i == j {
                                assert(e == t);
                            } else {
                                assert(e != t);
                            }
                        } else if i == j {
                            assert(state_valid(m, t) && state_index(m, t) == i);
                        }
                    }
                }
                assert(is_state_entry(m, j));
                let e = entry_state(m, j);
                lemma_state_index(m, e, t);
                assert(e == t);
                assert forall|k: int| 0 <= k < prev.len() implies (#[trigger] prev[k]).0 != t by {
                    assert(prev[k] == moves[k]);
                }
                self.lemma_cost_after_untargeted(bound, here, prev, t);
                assert(p_prev[j] == cost_potential(self.cost(t)));
                assert(nv + 1 <= p_prev[j]);
                lemma_sum_nats_update(p_prev, j, nv);
                assert(self.taken_targets(bound, here, moves) =~= self.taken_targets(bound, here, prev).push(t));
            }
        }
    }

    /// A step that visits a state lowers the progress measure.
    proof fn lemma_step_progress(
        old: &PathSearch,
        new: &PathSearch,
        bound: nat,
        here: nat,
        moves: Seq<(CoordinateAndDirection, nat)>,
    )
        requires
            old.shape_ok(),
            new.shape_ok(),
            new.maze() == old.maze(),
            old.pending().len() > 0,
            bound <= usize::MAX,
            targets_ok(old.maze(), moves),
            forall|x: CoordinateAndDirection|
                state_valid(old.maze(), x) ==> #[trigger] new.cost(x) == old.cost_after_moves(
                    bound,
                    here,
                    moves,
                    x,
                ),
            new.pending().to_multiset() == (old.pending().drop_last() + old.taken_targets(
                bound,
                here,
                moves,
            )).to_multiset(),
        ensures
            new.progress() < old.progress(),
    {
        let m = old.maze();
        let n = old.costs@.len() as nat;
        assert(new.costs@.len() == n);
        let taken = old.taken_targets(bound, here, moves);
        assert(potentials(m, n, |s: CoordinateAndDirection| new.cost(s)) =~= potentials(
            m,
            n,
            |s: CoordinateAndDirection| old.cost_after_moves(bound, here, moves, s),
        )) by {
            assert forall|i: int| 0 <= i < n && is_state_entry(m, i) implies new.cost(
                #[trigger] entry_state(m, i),
            ) == old.cost_after_moves(bound, here, moves, entry_state(m, i)) by {
                assert(state_valid(m, entry_state(m, i)));
            }
        }
        old.lemma_moves_potential(bound, here, moves);
        let rest = old.pending().drop_last() + taken;
        vstd::seq_lib::to_multiset_len(new.pending());
        vstd::seq_lib::to_multiset_len(rest);
        assert(new.pending().len() == old.pending().len() - 1 + taken.len());
    }
}

} // verus!
