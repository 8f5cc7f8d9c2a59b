//! The decisions of the main level: what happens when its run state or its
//! pathfinding state is set, how it answers the pause menu, when a paused
//! search resumes, how the tiles of a maze are laid out on the ground, and
//! how snow on the forecourt is split into piles, flats and bunkers. The
//! engine carries out what these decide.
use vstd::prelude::*;

use godot::classes::RandomNumberGenerator;

use crate::maze::{Maze, MazeModel, Tile, maze_wf};
use crate::random::randi_range;

verus! {

/// Whether the level runs or is paused.
#[derive(Clone, Copy, Debug, PartialEq, Eq, Structural, Hash)]
pub enum LevelRunState {
    Running,
    Paused,
}

impl LevelRunState {
    /// Whether this is the paused state.
    pub fn is_paused(&self) -> (b: bool)
        ensures
            b == (*self == LevelRunState::Paused),
    {
        match self {
            LevelRunState::Running => false,
            LevelRunState::Paused => true,
        }
    }
}

/// How far the search for paths through the maze has come.
#[derive(Clone, Copy, Debug, PartialEq, Eq, Structural, Hash)]
pub enum PathfindingState {
    NotStarted,
    Countdown,
    InProgress,
    Done,
}

/// A request from the pause menu.
#[derive(Clone, Copy, Debug, PartialEq, Eq, Structural, Hash)]
pub enum PauseMenuRequest {
    Start,
    Resume,
    ToMainMenu,
}

/// What setting the run state makes the level do.
#[derive(Clone, Copy, Debug, PartialEq, Eq, Structural)]
pub struct LevelRunChange {
    /// Paused: the pause menu is entered, the mouse shown and the scene tree
    /// paused; otherwise the menu is left, the mouse captured and the tree
    /// runs.
    pub paused: bool,
    /// The change of state is announced (old and new state).
    pub notify: bool,
}

/// What setting the run state from `previous` to `new` makes the level do.
pub fn level_run_change(previous: LevelRunState, new: LevelRunState) -> (c: LevelRunChange)
    ensures
        c.paused == (new == LevelRunState::Paused),
        c.notify == (previous != new),
{
    LevelRunChange { paused: new.is_paused(), notify: previous != new }
}

/// What the level does on entering a pathfinding state.
#[derive(Clone, Copy, Debug, PartialEq, Eq, Structural)]
pub enum PathfindingAction {
    /// Nothing.
    Nothing,
    /// Show the countdown and start its timer; when it runs out, the state
    /// becomes `InProgress`.
    StartCountdown,
    /// Hide and stop the countdown and run the search.
    RunSolver,
}

/// What setting the pathfinding state makes the level do.
#[derive(Clone, Copy, Debug, PartialEq, Eq, Structural)]
pub struct PathfindingChange {
    pub action: PathfindingAction,
    /// The change of state is announced (old and new state).
    pub notify: bool,
}

/// What setting the pathfinding state from `previous` to `new` makes the
/// level do: the countdown starts only when coming from `NotStarted`; the
/// search runs on entering `InProgress`.
pub fn pathfinding_change(previous: PathfindingState, new: PathfindingState) -> (c:
    PathfindingChange)
    ensures
        c.action == match new {
            PathfindingState::Countdown => if previous == PathfindingState::NotStarted {
                PathfindingAction::StartCountdown
            } else {
                PathfindingAction::Nothing
            },
            PathfindingState::InProgress => PathfindingAction::RunSolver,
            _ => PathfindingAction::Nothing,
        },
        c.notify == (previous != new),
{
    let action = match new {
        PathfindingState::NotStarted => PathfindingAction::Nothing,
        PathfindingState::Countdown => {
            if previous == PathfindingState::NotStarted {
                PathfindingAction::StartCountdown
            } else {
                PathfindingAction::Nothing
            }
        },
        PathfindingState::InProgress => PathfindingAction::RunSolver,
        PathfindingState::Done => PathfindingAction::Nothing,
    };
    PathfindingChange { action, notify: previous != new }
}

/// How the level answers a request of the pause menu.
#[derive(Clone, Copy, Debug, PartialEq, Eq, Structural)]
pub struct PauseMenuResponse {
    /// The run state is set to `Running`.
    pub resume: bool,
    /// Then the pathfinding state is set to `Countdown`.
    pub start_countdown: bool,
    /// Then leaving for the main menu is requested.
    pub exit_to_main_menu: bool,
}

/// How the level answers `request` in run state `state`: only a paused
/// level answers; every request resumes it, `Start` then starts the
/// countdown and `ToMainMenu` asks to leave for the main menu.
pub fn pause_menu_response(state: LevelRunState, request: PauseMenuRequest) -> (r:
    PauseMenuResponse)
    ensures
        r.resume == (state == LevelRunState::Paused),
        r.start_countdown == (state == LevelRunState::Paused && request == PauseMenuRequest::Start),
        r.exit_to_main_menu == (state == LevelRunState::Paused && request
            == PauseMenuRequest::ToMainMenu),
{
    if state != LevelRunState::Paused {
        return PauseMenuResponse { resume: false, start_countdown: false, exit_to_main_menu: false };
    }
    match request {
        PauseMenuRequest::Start => PauseMenuResponse {
            resume: true,
            start_countdown: true,
            exit_to_main_menu: false,
        },
        PauseMenuRequest::Resume => PauseMenuResponse {
            resume: true,
            start_countdown: false,
            exit_to_main_menu: false,
        },
        PauseMenuRequest::ToMainMenu => PauseMenuResponse {
            resume: true,
            start_countdown: false,
            exit_to_main_menu: true,
        },
    }
}

/// Whether setting the search's pause flag from `previous` to `value`
/// resumes it (and so announces that it is unpaused).
pub fn resumes(previous: bool, value: bool) -> (b: bool)
    ensures
        b == (previous && !value),
{
    previous && !value
}

/// Snow for `total` places cut at two bars: piles up to the lower bar,
/// flats between the bars, bunkers after the upper bar.
pub open spec fn snow_cut(total: int, bar_a: int, bar_b: int) -> (int, int, int) {
    let low = if bar_a <= bar_b { bar_a } else { bar_b };
    let high = if bar_a <= bar_b { bar_b } else { bar_a };
    (low, high - low, total - high)
}

/// The numbers of snow piles, flats and bunkers that make up `total`, cut
/// at two bars drawn in `0..=total`: piles up to the lower bar, flats
/// between the bars, bunkers after the upper bar.
pub fn split_snow(total: i32, bar_a: i32, bar_b: i32) -> (r: (i32, i32, i32))
    requires
        0 <= bar_a <= total,
        0 <= bar_b <= total,
    ensures
        r.0 == if bar_a <= bar_b { bar_a } else { bar_b },
        r.1 == if bar_a <= bar_b { bar_b - bar_a } else { bar_a - bar_b },
        r.2 == total - if bar_a <= bar_b { bar_b } else { bar_a },
        r.0 >= 0 && r.1 >= 0 && r.2 >= 0,
        r.0 + r.1 + r.2 == total,
        (r.0 as int, r.1 as int, r.2 as int) == snow_cut(total as int, bar_a as int, bar_b as int),
{
    let (low, high) = if bar_a <= bar_b {
        (bar_a, bar_b)
    } else {
        (bar_b, bar_a)
    };
    let piles = low;
    let flats = high - piles;
    let bunkers = total - piles - flats;
    (piles, flats, bunkers)
}

/// The snow for `total` places cut at two bars (see `split_snow`) when both
/// lie in `0..=total`; nothing otherwise.
pub fn split_snow_checked(total: i32, bar_a: i32, bar_b: i32) -> (r: Option<(i32, i32, i32)>)
    ensures
        r is Some <==> (0 <= bar_a <= total && 0 <= bar_b <= total),
        r matches Some(p) ==> (p.0 as int, p.1 as int, p.2 as int) == snow_cut(
            total as int,
            bar_a as int,
            bar_b as int,
        ),
{
    if 0 <= bar_a && bar_a <= total && 0 <= bar_b && bar_b <= total {
        Some(split_snow(total, bar_a, bar_b))
    } else {
        None
    }
}

/// The range a bar cutting the snow for `total` places is drawn for:
/// `0..=total`.
pub fn snow_bar_range(total: i32) -> (r: (i32, i32))
    ensures
        r == (0i32, total),
{
    (0, total)
}

/// The snow for `total` places split into piles, flats and bunkers at two
/// bars, each drawn with the engine's generator for `snow_bar_range(total)`,
/// that is `0..=total`, and applied
/// as `split_snow_checked` says: nothing when a bar falls outside that
/// range, and so always nothing for a negative total.
pub fn split_snow_with_rng(total: i32, rng: &mut RandomNumberGenerator) -> (r: Option<
    (i32, i32, i32),
>)
    ensures
        total < 0 ==> r is None,
        exists|bar_a: i32, bar_b: i32|
            r == if 0 <= bar_a <= total && 0 <= bar_b <= total {
                Some(#[trigger] split_snow_parts(total, bar_a, bar_b))
            } else {
                None
            },
        r matches Some(parts) ==> parts.0 >= 0 && parts.1 >= 0 && parts.2 >= 0 && parts.0
            + parts.1 + parts.2 == total,
{
    let (low, high) = snow_bar_range(total);
    let bar_a = randi_range(rng, low, high);
    let (low, high) = snow_bar_range(total);
    let bar_b = randi_range(rng, low, high);
    let r = split_snow_checked(total, bar_a, bar_b);
    let ghost parts = split_snow_parts(total, bar_a, bar_b);
    assert(r == if 0 <= bar_a <= total && 0 <= bar_b <= total {
        Some(split_snow_parts(total, bar_a, bar_b))
    } else {
        None
    });
    r
}

/// The cut at two bars as numbers of the engine's 32-bit type.
pub open spec fn split_snow_parts(total: i32, bar_a: i32, bar_b: i32) -> (i32, i32, i32) {
    let c = snow_cut(total as int, bar_a as int, bar_b as int);
    (c.0 as i32, c.1 as i32, c.2 as i32)
}

/// How one tile of a maze is laid on the ground: its column and row, whether
/// it takes the first of the two checkerboard colours, and whether it is a
/// wall, on which a rock is placed.
#[derive(Clone, Copy, Debug, PartialEq, Eq, Structural)]
pub struct TilePlacement {
    pub x: usize,
    pub y: usize,
    pub first_color: bool,
    pub wall: bool,
}

/// `t` is how the tile at index `i` of the maze is laid: the index is the
/// tile's place in row-major order, the first colour goes to the tiles whose
/// column and row add up to an even number, and walls are marked.
pub open spec fn places_tile(m: MazeModel, i: int, t: TilePlacement) -> bool {
    &&& t.x < m.dim_x
    &&& t.y * m.dim_x + t.x == i
    &&& t.first_color == ((t.x + t.y) % 2 == 0)
    &&& t.wall == (m.tiles[i] == Tile::Wall)
}

/// Wrapping from the end of a row to the start of the next.
proof fn lemma_next_row(y: int, d: int)
    by (nonlinear_arith)
    requires
        0 <= y,
        1 <= d,
    ensures
        y * d + d == (y + 1) * d,
        y + 1 <= (y + 1) * d,
{
}

/// A tile index below the number of tiles lies on a grid with columns.
proof fn lemma_has_columns(i: int, d: int, rows: int)
    by (nonlinear_arith)
    requires
        0 <= i < d * rows,
        0 <= d,
        0 <= rows,
    ensures
        d > 0,
{
}

/// The placement of every tile of the maze, in row-major order: the layout
/// the level builds its ground and rocks from.
pub fn tile_placements(maze: &Maze) -> (p: Vec<TilePlacement>)
    ensures
        p@.len() == maze@.tiles.len(),
        forall|i: int| 0 <= i < p@.len() ==> places_tile(maze@, i, #[trigger] p@[i]),
{
    let tiles = maze.rust_get_array();
    let dim_x = maze.rust_get_dim_x();
    let n = tiles.len();
    let mut p: Vec<TilePlacement> = Vec::new();
    let mut x: usize = 0;
    let mut y: usize = 0;
    let mut i: usize = 0;
    while i < n
        invariant
            maze_wf(maze@),
            tiles@ == maze@.tiles,
            dim_x == maze@.dim_x,
            n == tiles@.len(),
            i <= n,
            p@.len() == i,
            x <= dim_x,
            i == y * dim_x + x,
            forall|j: int| 0 <= j < i ==> places_tile(maze@, j, #[trigger] p@[j]),
        decreases n - i,
    {
        proof {
            lemma_has_columns(i as int, dim_x as int, maze@.dim_y as int);
        }
        if x >= dim_x {
            proof {
                lemma_next_row(y as int, dim_x as int);
            }
            x = 0;
            y = y + 1;
        }
        let first_color = x % 2 == y % 2;
        let wall = tiles[i] == Tile::Wall;
        let t = TilePlacement { x, y, first_color, wall };
        assert(places_tile(maze@, i as int, t));
        p.push(t);
        x = x + 1;
        i = i + 1;
    }
    p
}

} // verus!
