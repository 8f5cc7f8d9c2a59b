//! The maze: a rectangular grid of ground and wall tiles with one start
//! and one end, parsed from text where '.' is ground, '#' is a wall, 'S'
//! is the (ground) start and 'E' is the (ground) end.
use vstd::prelude::*;

use crate::coordinate::{Coordinate, IHasCoordinates, in_bounds, row_major_index};
use crate::direction::Direction;
use crate::path_search::{
    CoordinateAndDirection, PathSearch, parts_model, search_fits, start_state, state_valid,
};
use crate::text::{append_usize, collect_chars, nat_to_decimal, push_char};

verus! {

/// One cell of the maze.
#[derive(Clone, Copy, Debug, PartialEq, Eq, Structural)]
pub enum Tile {
    Ground,
    Wall,
}

/// The characters a maze may consist of.
pub open spec fn is_tile_char(c: char) -> bool {
    c == '.' || c == '#' || c == 'S' || c == 'E'
}

/// The tile a maze character stands for: '#' is a wall, everything else
/// that is accepted is ground.
pub open spec fn char_tile(c: char) -> Tile {
    if c == '#' {
        Tile::Wall
    } else {
        Tile::Ground
    }
}

/// The character a tile is written as.
pub open spec fn tile_char(t: Tile) -> char {
    match t {
        Tile::Ground => '.',
        Tile::Wall => '#',
    }
}

/// Writing a tile as its character and reading the character back gives
/// the tile.
pub proof fn law_tile_char_round_trip(t: Tile)
    ensures
        is_tile_char(tile_char(t)),
        char_tile(tile_char(t)) == t,
{
}

impl<'a> core::convert::From<&'a Tile> for char {
    fn from(value: &'a Tile) -> (c: char) {
        match value {
            Tile::Ground => '.',
            Tile::Wall => '#',
        }
    }
}

impl<'a> vstd::std_specs::convert::FromSpecImpl<&'a Tile> for char {
    open spec fn obeys_from_spec() -> bool {
        true
    }

    open spec fn from_spec(v: &'a Tile) -> char {
        tile_char(*v)
    }
}

/// A maze character read as a tile, with whether it marks the start or
/// the end.
pub(crate) struct ParsedTile {
    pub(crate) tile: Tile,
    pub(crate) is_start_coordinate: bool,
    pub(crate) is_end_coordinate: bool,
}

impl ParsedTile {
    /// Reads one maze character; `Err(())` for any character other than
    /// '.', '#', 'S' and 'E'.
    pub(crate) fn try_from_char(value: &char) -> (r: Result<ParsedTile, ()>)
        ensures
            r is Ok <==> is_tile_char(*value),
            r matches Ok(p) ==> p.tile == char_tile(*value) && p.is_start_coordinate == (*value
                == 'S') && p.is_end_coordinate == (*value == 'E'),
    {
        let mut is_start_coordinate = false;
        let mut is_end_coordinate = false;
        let value = *value;
        let tile = match value {
            '.' => Tile::Ground,
            '#' => Tile::Wall,
            'S' => {
                is_start_coordinate = true;
                Tile::Ground
            },
            'E' => {
                is_end_coordinate = true;
                Tile::Ground
            },
            _ => {
                return Err(());
            },
        };
        Ok(ParsedTile { tile, is_start_coordinate, is_end_coordinate })
    }
}

/// Why a maze text was refused: a message, and the 0-based (column, line)
/// of the offending character when there is one and both fit in an `i32`.
pub struct NewMazeError {
    pub error: String,
    pub line_and_column_index_opt: Option<(i32, i32)>,
}

/// The message of the error for counts that do not fit in an `isize`.
pub open spec fn too_large_message() -> Seq<char> {
    "Integer error: Maze is too large??"@
}

impl NewMazeError {
    /// Converts a count to an `isize`, failing when it does not fit.
    pub fn parse_integer(to_parse: usize) -> (r: Result<isize, Self>)
        ensures
            r is Ok <==> to_parse <= isize::MAX,
            r matches Ok(v) ==> v == to_parse,
            r matches Err(e) ==> e.error@ == too_large_message() && e.line_and_column_index_opt
                is None,
    {
        if to_parse <= isize::MAX as usize {
            Ok(to_parse as isize)
        } else {
            Err(NewMazeError {
                error: String::from_str("Integer error: Maze is too large??"),
                line_and_column_index_opt: None,
            })
        }
    }
}

// ---------------------------------------------------------------------
// Lines of the text.
// ---------------------------------------------------------------------
/// The text cut at every '\n' (like `split('\n')`): always at least one
/// piece, the last one being what follows the final '\n'.
pub open spec fn split_newlines(s: Seq<char>) -> Seq<Seq<char>>
    decreases s.len(),
{
    if s.len() == 0 {
        seq![Seq::<char>::empty()]
    } else {
        let p = split_newlines(s.drop_last());
        if s.last() == '\n' {
            p.push(Seq::<char>::empty())
        } else {
            p.update(p.len() - 1, p.last().push(s.last()))
        }
    }
}

/// A '\n'-terminated piece without one trailing '\r'.
pub open spec fn strip_cr(line: Seq<char>) -> Seq<char> {
    if line.len() > 0 && line.last() == '\r' {
        line.drop_last()
    } else {
        line
    }
}

/// The non-empty lines among '\n'-terminated pieces, each without its
/// trailing '\r'.
pub open spec fn nonempty_terminated(pieces: Seq<Seq<char>>) -> Seq<Seq<char>>
    decreases pieces.len(),
{
    if pieces.len() == 0 {
        Seq::empty()
    } else {
        let rest = nonempty_terminated(pieces.drop_last());
        let line = strip_cr(pieces.last());
        if line.len() > 0 {
            rest.push(line)
        } else {
            rest
        }
    }
}

/// The rows of a maze text: its non-empty lines, where lines are split as
/// `str::lines` splits them (at '\n', dropping a '\r' right before a '\n').
pub open spec fn maze_rows(s: Seq<char>) -> Seq<Seq<char>> {
    let pieces = split_newlines(s);
    let last = pieces.last();
    let terminated = nonempty_terminated(pieces.drop_last());
    if last.len() > 0 {
        terminated.push(last)
    } else {
        terminated
    }
}

// ---------------------------------------------------------------------
// The checks made while reading the rows, in reading order.
// ---------------------------------------------------------------------
/// Position (r2, c2) comes before (r, c) in reading order.
pub open spec fn pos_before(r2: int, c2: int, r: int, c: int) -> bool {
    r2 < r || (r2 == r && c2 < c)
}

/// Character `ch` occurs in the rows before position (r, c).
pub open spec fn occurs_before(rows: Seq<Seq<char>>, r: int, c: int, ch: char) -> bool {
    exists|r2: int, c2: int|
        0 <= r2 < rows.len() && 0 <= c2 < rows[r2].len() && pos_before(r2, c2, r, c)
            && #[trigger] rows[r2][c2] == ch
}

/// The checks, in reading order, are at the positions (r, c) with
/// c <= the length of row r: c < length checks a character, c == length
/// checks the row's length once the row has been read.
pub open spec fn is_check(rows: Seq<Seq<char>>, r: int, c: int) -> bool {
    0 <= r < rows.len() && 0 <= c <= rows[r].len()
}

/// The check at (r, c) fails: an unknown character, a second start or a
/// second end, or a row whose length differs from the first row's.
pub open spec fn check_fails(rows: Seq<Seq<char>>, r: int, c: int) -> bool {
    if c < rows[r].len() {
        let ch = rows[r][c];
        ||| !is_tile_char(ch)
        ||| (ch == 'S' && occurs_before(rows, r, c, 'S'))
        ||| (ch == 'E' && occurs_before(rows, r, c, 'E'))
    } else {
        r > 0 && rows[r].len() != rows[0].len()
    }
}

/// The check at (r, c) is the first one in reading order that fails.
pub open spec fn first_failure(rows: Seq<Seq<char>>, r: int, c: int) -> bool {
    &&& is_check(rows, r, c)
    &&& check_fails(rows, r, c)
    &&& forall|r2: int, c2: int|
        is_check(rows, r2, c2) && pos_before(r2, c2, r, c) ==> !#[trigger] check_fails(
            rows,
            r2,
            c2,
        )
}

/// No check fails.
pub open spec fn no_failure(rows: Seq<Seq<char>>) -> bool {
    forall|r: int, c: int| is_check(rows, r, c) ==> !#[trigger] check_fails(rows, r, c)
}

/// Character `ch` occurs somewhere in the rows.
pub open spec fn occurs(rows: Seq<Seq<char>>, ch: char) -> bool {
    exists|r: int, c: int|
        0 <= r < rows.len() && 0 <= c < rows[r].len() && #[trigger] rows[r][c] == ch
}

/// The 0-based (column, line) as a pair of `i32`, if both fit.
pub open spec fn i32_position(x: int, y: int) -> Option<(i32, i32)> {
    if x <= i32::MAX && y <= i32::MAX {
        Some((x as i32, y as i32))
    } else {
        None
    }
}

/// The message of the error raised by the failing check at (r, c).
pub open spec fn failure_message(rows: Seq<Seq<char>>, r: int, c: int) -> Seq<char> {
    if c < rows[r].len() {
        let ch = rows[r][c];
        if !is_tile_char(ch) {
            "Unrecognized token '"@ + seq![ch] + "'!"@
        } else if ch == 'S' {
            "Found multiple start coordinates!"@
        } else {
            "Found multiple end coordinates!"@
        }
    } else {
        "Misalignment error! Line "@ + nat_to_decimal((r + 1) as nat) + " has "@ + nat_to_decimal(
            rows[r].len(),
        ) + " chars, but previous one(s) have "@ + nat_to_decimal(rows[0].len()) + "!"@
    }
}

/// The position reported with the failing check at (r, c).
pub open spec fn failure_position(rows: Seq<Seq<char>>, r: int, c: int) -> Option<(i32, i32)> {
    if c < rows[r].len() {
        i32_position(c, r)
    } else {
        None
    }
}

pub open spec fn no_start_message() -> Seq<char> {
    "Found no start coordinate!"@
}

pub open spec fn no_end_message() -> Seq<char> {
    "Found no end coordinate!"@
}

/// The abstract content of a maze.
pub struct MazeModel {
    pub tiles: Seq<Tile>,
    pub dim_x: nat,
    pub dim_y: nat,
    pub n_walls: nat,
    pub start: Coordinate,
    pub end: Coordinate,
    pub start_direction: Direction,
}

/// Number of walls among tiles.
pub open spec fn count_walls(tiles: Seq<Tile>) -> nat
    decreases tiles.len(),
{
    if tiles.len() == 0 {
        0
    } else {
        count_walls(tiles.drop_last()) + if tiles.last() == Tile::Wall {
            1nat
        } else {
            0nat
        }
    }
}

/// The tile at a coordinate of the maze.
pub open spec fn tile_at(m: MazeModel, c: Coordinate) -> Tile {
    m.tiles[row_major_index(c, m.dim_x)]
}

/// The coordinate is on the grid and holds ground.
pub open spec fn is_open(m: MazeModel, c: Coordinate) -> bool {
    in_bounds(c, m.dim_x, m.dim_y) && tile_at(m, c) == Tile::Ground
}

/// A well-formed maze: the tiles fill the grid row by row, the grid's
/// indices fit in a `usize`, the counts agree, and start and end are
/// ground tiles on the grid.
pub open spec fn maze_wf(m: MazeModel) -> bool {
    &&& m.tiles.len() == m.dim_x * m.dim_y
    &&& m.dim_x * m.dim_y <= usize::MAX
    &&& m.dim_x <= isize::MAX
    &&& m.dim_y <= isize::MAX
    &&& m.n_walls == count_walls(m.tiles)
    &&& is_open(m, m.start)
    &&& is_open(m, m.end)
    &&& m.start_direction == Direction::East
}

/// The maze that the rows of a text describe, when no check fails.
pub open spec fn rows_describe(rows: Seq<Seq<char>>, m: MazeModel) -> bool {
    &&& m.dim_y == rows.len()
    &&& m.dim_x == (if rows.len() == 0 { 0 } else { rows[0].len() })
    &&& m.tiles.len() == m.dim_x * m.dim_y
    &&& forall|y: int, x: int|
        0 <= y < m.dim_y && 0 <= x < m.dim_x ==> #[trigger] m.tiles[y * m.dim_x + x] == char_tile(
            rows[y][x],
        )
    &&& m.n_walls == count_walls(m.tiles)
    &&& 0 <= m.start.y < rows.len() && 0 <= m.start.x < rows[m.start.y as int].len()
    &&& rows[m.start.y as int][m.start.x as int] == 'S'
    &&& 0 <= m.end.y < rows.len() && 0 <= m.end.x < rows[m.end.y as int].len()
    &&& rows[m.end.y as int][m.end.x as int] == 'E'
    &&& m.start_direction == Direction::East
}

/// The reindeer's state at the start of the maze.
#[derive(Clone, Copy)]
pub(crate) struct Reindeer {
    pub(crate) direction: Direction,
}

impl Reindeer {
    /// The reindeer starts facing East.
    pub(crate) fn new_default() -> (r: Reindeer)
        ensures
            r.direction == Direction::East,
    {
        Reindeer { direction: Direction::East }
    }
}

/// A parsed maze.
pub struct Maze {
    array: Vec<Tile>,
    dim_x: usize,
    dim_y: usize,
    n_walls: usize,
    start_coordinate: Coordinate,
    end_coordinate: Coordinate,
    reindeer: Reindeer,
}

impl View for Maze {
    type V = MazeModel;

    closed spec fn view(&self) -> MazeModel {
        MazeModel {
            tiles: self.array@,
            dim_x: self.dim_x as nat,
            dim_y: self.dim_y as nat,
            n_walls: self.n_walls as nat,
            start: self.start_coordinate,
            end: self.end_coordinate,
            start_direction: self.reindeer.direction,
        }
    }
}

impl Maze {
    /// Every maze is well formed.
    #[verifier::type_invariant]
    pub closed spec fn inv(&self) -> bool {
        maze_wf(self@)
    }
}

} // verus!

verus! {

proof fn lemma_split_newlines_nonempty(s: Seq<char>)
    ensures
        split_newlines(s).len() >= 1,
    decreases s.len(),
{
    if s.len() > 0 {
        lemma_split_newlines_nonempty(s.drop_last());
    }
}

/// The rows of a maze text, as `maze_rows` describes them.
pub(crate) fn split_rows(chars: &Vec<char>) -> (rows: Vec<Vec<char>>)
    ensures
        rows.deep_view() == maze_rows(chars@),
{
    let mut done: Vec<Vec<char>> = Vec::new();
    let mut cur: Vec<char> = Vec::new();
    let n = chars.len();
    let mut i: usize = 0;
    proof {
        assert(chars@.take(0) =~= Seq::<char>::empty());
        assert(done.deep_view() =~= nonempty_terminated(split_newlines(chars@.take(0)).drop_last()));
    }
    while i < n
        invariant
            i <= n,
            n == chars@.len(),
            split_newlines(chars@.take(i as int)).len() >= 1,
            cur@ == split_newlines(chars@.take(i as int)).last(),
            done.deep_view() == nonempty_terminated(split_newlines(chars@.take(i as int)).drop_last()),
        decreases n - i,
    {
        let ghost p = split_newlines(chars@.take(i as int));
        let ch = chars[i];
        proof {
            assert(chars@.take(i + 1).drop_last() =~= chars@.take(i as int));
            assert(chars@.take(i + 1).last() == ch);
            lemma_split_newlines_nonempty(chars@.take(i + 1));
        }
        if ch == '\n' {
            let ghost p2 = split_newlines(chars@.take(i + 1));
            assert(p2 == p.push(Seq::<char>::empty()));
            assert(p2.drop_last() =~= p);
            let len = cur.len();
            if len > 0 && cur[len - 1] == '\r' {
                cur.pop();
            }
            assert(cur@ == strip_cr(p.last()));
            assert(p.drop_last().push(p.last()) =~= p);
            let finished = cur;
            cur = Vec::new();
            if finished.len() > 0 {
                let ghost old_done = done.deep_view();
                let ghost fin = finished@;
                assert(finished.deep_view() =~= fin);
                done.push(finished);
                assert(done.deep_view() =~= old_done.push(fin));
                assert(done.deep_view() =~= nonempty_terminated(p2.drop_last()));
            } else {
                assert(done.deep_view() =~= nonempty_terminated(p2.drop_last()));
            }
            assert(cur@ =~= p2.last());
        } else {
            let ghost p2 = split_newlines(chars@.take(i + 1));
            assert(p2 == p.update(p.len() - 1, p.last().push(ch)));
            assert(p2.drop_last() =~= p.drop_last());
            cur.push(ch);
            assert(cur@ =~= p2.last());
        }
        i = i + 1;
    }
    proof {
        assert(chars@.take(n as int) =~= chars@);
    }
    if cur.len() > 0 {
        let ghost old_done = done.deep_view();
        let ghost fin = cur@;
        assert(cur.deep_view() =~= fin);
        done.push(cur);
        assert(done.deep_view() =~= old_done.push(fin));
        assert(done.deep_view() =~= maze_rows(chars@));
    } else {
        assert(done.deep_view() =~= maze_rows(chars@));
    }
    done
}

} // verus!

verus! {

/// Total number of characters in the rows.
pub open spec fn total_len(rows: Seq<Seq<char>>) -> nat
    decreases rows.len(),
{
    if rows.len() == 0 {
        0
    } else {
        total_len(rows.drop_last()) + rows.last().len()
    }
}

proof fn lemma_split_sizes(s: Seq<char>)
    ensures
        total_len(split_newlines(s)) + split_newlines(s).len() == s.len() + 1,
        split_newlines(s).len() >= 1,
    decreases s.len(),
{
    if s.len() == 0 {
        let q = split_newlines(s);
        assert(q.drop_last() =~= Seq::<Seq<char>>::empty());
        assert(total_len(q.drop_last()) == 0);
        assert(total_len(q) == 0);
    } else {
        let p = split_newlines(s.drop_last());
        lemma_split_sizes(s.drop_last());
        if s.last() == '\n' {
            let q = split_newlines(s);
            assert(q.drop_last() =~= p);
            assert(total_len(q) == total_len(p));
        } else {
            let q = split_newlines(s);
            assert(q.drop_last() =~= p.drop_last());
            assert(total_len(p) == total_len(p.drop_last()) + p.last().len());
        }
    }
}

proof fn lemma_nonempty_terminated(p: Seq<Seq<char>>)
    ensures
        total_len(nonempty_terminated(p)) <= total_len(p),
        forall|i: int|
            0 <= i < nonempty_terminated(p).len() ==> #[trigger] nonempty_terminated(p)[i].len() > 0,
    decreases p.len(),
{
    if p.len() > 0 {
        lemma_nonempty_terminated(p.drop_last());
        let rest = nonempty_terminated(p.drop_last());
        let line = strip_cr(p.last());
        if line.len() > 0 {
            assert(rest.push(line).drop_last() =~= rest);
        }
    }
}

proof fn lemma_total_len_bounds(rows: Seq<Seq<char>>)
    requires
        forall|i: int| 0 <= i < rows.len() ==> #[trigger] rows[i].len() > 0,
    ensures
        rows.len() <= total_len(rows),
        forall|i: int| 0 <= i < rows.len() ==> #[trigger] rows[i].len() <= total_len(rows),
    decreases rows.len(),
{
    if rows.len() > 0 {
        let d = rows.drop_last();
        assert forall|i: int| 0 <= i < d.len() implies #[trigger] d[i].len() > 0 by {
            assert(d[i] == rows[i]);
        }
        lemma_total_len_bounds(d);
        assert forall|i: int| 0 <= i < rows.len() implies #[trigger] rows[i].len() <= total_len(
            rows,
        ) by {
            if i < d.len() {
                assert(d[i] == rows[i]);
            }
        }
    }
}

proof fn lemma_total_len_prefix(rows: Seq<Seq<char>>, k: int)
    requires
        0 <= k < rows.len(),
    ensures
        total_len(rows.take(k + 1)) == total_len(rows.take(k)) + rows[k].len(),
        total_len(rows.take(k + 1)) <= total_len(rows),
    decreases rows.len() - k,
{
    assert(rows.take(k + 1).drop_last() =~= rows.take(k));
    if k + 1 < rows.len() {
        lemma_total_len_prefix(rows, k + 1);
    } else {
        assert(rows.take(k + 1) =~= rows);
    }
}

/// Every row is non-empty, and the rows hold no more characters than the text.
proof fn lemma_rows_sizes(s: Seq<char>)
    ensures
        total_len(maze_rows(s)) <= s.len(),
        maze_rows(s).len() <= s.len(),
        forall|i: int| 0 <= i < maze_rows(s).len() ==> #[trigger] maze_rows(s)[i].len() > 0,
        forall|i: int| 0 <= i < maze_rows(s).len() ==> #[trigger] maze_rows(s)[i].len() <= s.len(),
{
    let pieces = split_newlines(s);
    lemma_split_sizes(s);
    let d = pieces.drop_last();
    lemma_nonempty_terminated(d);
    assert(total_len(pieces) == total_len(d) + pieces.last().len());
    let t = nonempty_terminated(d);
    if pieces.last().len() > 0 {
        assert(t.push(pieces.last()).drop_last() =~= t);
    }
    let rows = maze_rows(s);
    assert forall|i: int| 0 <= i < rows.len() implies #[trigger] rows[i].len() > 0 by {
        if i < t.len() {
            assert(rows[i] == t[i]);
        }
    }
    lemma_total_len_bounds(rows);
}

proof fn lemma_count_walls_push(tiles: Seq<Tile>, t: Tile)
    ensures
        count_walls(tiles.push(t)) == count_walls(tiles) + if t == Tile::Wall {
            1nat
        } else {
            0nat
        },
{
    assert(tiles.push(t).drop_last() =~= tiles);
}

proof fn lemma_count_walls_le(tiles: Seq<Tile>)
    ensures
        count_walls(tiles) <= tiles.len(),
    decreases tiles.len(),
{
    if tiles.len() > 0 {
        lemma_count_walls_le(tiles.drop_last());
    }
}

proof fn lemma_row_major_before(y: int, x: int, k: int, c: int, w: int)
    requires
        0 <= y,
        0 <= x,
        0 <= c,
        0 <= w,
        0 <= k,
        (y < k && x < w) || (y == k && x < c),
    ensures
        y * w + x < k * w + c,
        0 <= y * w + x,
{
    if y < k {
        assert(k * w <= k * w + c);
        assert(y * w + x < (y + 1) * w) by (nonlinear_arith)
            requires
                x < w,
        ;
        assert((y + 1) * w <= k * w) by (nonlinear_arith)
            requires
                y + 1 <= k,
                0 <= w,
        ;
    }
    assert(0 <= y * w) by (nonlinear_arith)
        requires
            0 <= y,
            0 <= w,
    ;
}

/// A maze character read as a tile and written back: the start and the
/// end read as ground.
pub open spec fn as_ground_read(c: char) -> char {
    if c == 'S' || c == 'E' {
        '.'
    } else {
        c
    }
}

/// A maze that the rows of a text describe, with no check failing (as
/// `Maze::try_new_gd_from_str` ensures of `maze_rows(s)` when it parses
/// `s`), is those rows: there are as many rows as the grid is high, every
/// row is as long as the grid is wide, the tiles fill the grid, every tile
/// written as its character is the row's character with the start and the
/// end read as ground, the start and the end lie on the grid on ground
/// tiles, and the wall count is the number of wall tiles.
pub proof fn law_parsed_maze_is_its_rows(rows: Seq<Seq<char>>, m: MazeModel)
    requires
        no_failure(rows),
        rows_describe(rows, m),
    ensures
        m.dim_y == rows.len(),
        rows.len() > 0 ==> m.dim_x == rows[0].len(),
        m.tiles.len() == m.dim_x * m.dim_y,
        forall|y: int| 0 <= y < rows.len() ==> #[trigger] rows[y].len() == m.dim_x,
        forall|y: int, x: int|
            0 <= y < m.dim_y && 0 <= x < m.dim_x ==> tile_char(#[trigger] m.tiles[y * m.dim_x + x])
                == as_ground_read(rows[y][x]),
        in_bounds(m.start, m.dim_x, m.dim_y) && tile_at(m, m.start) == Tile::Ground,
        in_bounds(m.end, m.dim_x, m.dim_y) && tile_at(m, m.end) == Tile::Ground,
        m.n_walls == count_walls(m.tiles),
{
    assert forall|y: int| 0 <= y < rows.len() implies #[trigger] rows[y].len() == m.dim_x by {
        assert(is_check(rows, y, rows[y].len() as int));
        assert(!check_fails(rows, y, rows[y].len() as int));
    }
    assert forall|y: int, x: int|
        0 <= y < m.dim_y && 0 <= x < m.dim_x implies tile_char(#[trigger] m.tiles[y * m.dim_x + x])
        == as_ground_read(rows[y][x]) by {
        assert(rows[y].len() == m.dim_x);
        assert(is_check(rows, y, x));
        assert(!check_fails(rows, y, x));
    }
    let sy = m.start.y as int;
    let ey = m.end.y as int;
    assert(rows[sy].len() == m.dim_x);
    assert(rows[ey].len() == m.dim_x);
    assert(m.tiles[sy * m.dim_x + m.start.x] == char_tile(rows[sy][m.start.x as int]));
    assert(m.tiles[ey * m.dim_x + m.end.x] == char_tile(rows[ey][m.end.x as int]));
}

/// The first failure at a given position is unique: no two distinct
/// positions can both be the first failing check.
pub proof fn lemma_first_failure_unique(rows: Seq<Seq<char>>, r1: int, c1: int, r2: int, c2: int)
    requires
        first_failure(rows, r1, c1),
        first_failure(rows, r2, c2),
    ensures
        r1 == r2 && c1 == c2,
{
    if pos_before(r1, c1, r2, c2) {
        assert(!check_fails(rows, r1, c1));
    } else if pos_before(r2, c2, r1, c1) {
        assert(!check_fails(rows, r2, c2));
    }
}

fn unrecognized_message(ch: char) -> (s: String)
    ensures
        s@ == "Unrecognized token '"@ + seq![ch] + "'!"@,
{
    let mut s = String::from_str("Unrecognized token '");
    push_char(&mut s, ch);
    s.append("'!");
    s
}

fn misalignment_message(line: usize, found: usize, expected: usize) -> (s: String)
    ensures
        s@ == "Misalignment error! Line "@ + nat_to_decimal(line as nat) + " has "@
            + nat_to_decimal(found as nat) + " chars, but previous one(s) have "@ + nat_to_decimal(
            expected as nat,
        ) + "!"@,
{
    let mut s = String::from_str("Misalignment error! Line ");
    append_usize(&mut s, line);
    s.append(" has ");
    append_usize(&mut s, found);
    s.append(" chars, but previous one(s) have ");
    append_usize(&mut s, expected);
    s.append("!");
    s
}

fn position_i32(x: usize, y: usize) -> (p: Option<(i32, i32)>)
    ensures
        p == i32_position(x as int, y as int),
{
    if x <= i32::MAX as usize && y <= i32::MAX as usize {
        Some((x as i32, y as i32))
    } else {
        None
    }
}

} // verus!

verus! {

/// The state of a parse after reading rows up to row `k` and, in that row,
/// the first `c` characters, with `w` the length of the first row.
spec fn parsed_prefix(
    rows: Seq<Seq<char>>,
    k: int,
    c: int,
    w: int,
    array: Seq<Tile>,
    n_walls: nat,
    start_opt: Option<Coordinate>,
    end_opt: Option<Coordinate>,
) -> bool {
    &&& forall|r2: int, c2: int|
        is_check(rows, r2, c2) && pos_before(r2, c2, k, c) ==> !#[trigger] check_fails(
            rows,
            r2,
            c2,
        )
    &&& forall|r2: int| 0 <= r2 < k ==> #[trigger] rows[r2].len() == w
    &&& array.len() == k * w + c
    &&& forall|y: int, x: int|
        0 <= y && 0 <= x && ((y < k && x < w) || (y == k && x < c)) ==> #[trigger] array[y * w
            + x] == char_tile(rows[y][x])
    &&& n_walls == count_walls(array)
    &&& (start_opt is Some <==> occurs_before(rows, k, c, 'S'))
    &&& (start_opt matches Some(p) ==> 0 <= p.y < rows.len() && 0 <= p.x < rows[p.y as int].len()
        && rows[p.y as int][p.x as int] == 'S')
    &&& (end_opt is Some <==> occurs_before(rows, k, c, 'E'))
    &&& (end_opt matches Some(p) ==> 0 <= p.y < rows.len() && 0 <= p.x < rows[p.y as int].len()
        && rows[p.y as int][p.x as int] == 'E')
}

impl Maze {
    /// Parses a maze. Rows are the non-empty lines of `s`. The checks run in
    /// reading order, and the first one that fails decides the error: an
    /// unknown character, a second start, a second end, or a row whose
    /// length differs from the first row's; then a missing start, then a
    /// missing end. Otherwise the maze holds the rows' tiles row by row.
    pub fn try_new_gd_from_str(s: &str) -> (r: Result<Maze, NewMazeError>)
        requires
            s@.len() <= isize::MAX,
        ensures
            r is Ok <==> (no_failure(maze_rows(s@)) && occurs(maze_rows(s@), 'S') && occurs(
                maze_rows(s@),
                'E',
            )),
            r matches Ok(m) ==> rows_describe(maze_rows(s@), m@),
            !no_failure(maze_rows(s@)) ==> (r matches Err(e) && exists|rr: int, cc: int|
                first_failure(maze_rows(s@), rr, cc) && e.error@ == failure_message(
                    maze_rows(s@),
                    rr,
                    cc,
                ) && e.line_and_column_index_opt == failure_position(maze_rows(s@), rr, cc)),
            no_failure(maze_rows(s@)) && !occurs(maze_rows(s@), 'S') ==> (r matches Err(e)
                && e.error@ == no_start_message() && e.line_and_column_index_opt is None),
            no_failure(maze_rows(s@)) && occurs(maze_rows(s@), 'S') && !occurs(
                maze_rows(s@),
                'E',
            ) ==> (r matches Err(e) && e.error@ == no_end_message()
                && e.line_and_column_index_opt is None),
    {
        let chars = collect_chars(s);
        let rows = split_rows(&chars);
        let ghost rs = maze_rows(s@);
        proof {
            lemma_rows_sizes(s@);
        }
        let ghost w: int = if rs.len() == 0 { 0 } else { rs[0].len() as int };
        let mut array: Vec<Tile> = Vec::new();
        let mut dim_x: usize = 0;
        let mut dim_y: usize = 0;
        let mut n_walls: usize = 0;
        let mut start_coordinate_opt: Option<Coordinate> = None;
        let mut end_coordinate_opt: Option<Coordinate> = None;
        let reindeer = Reindeer::new_default();
        let n_rows = rows.len();
        let mut k: usize = 0;
        proof {
            assert(0 * w == 0) by (nonlinear_arith);
            assert(total_len(rs.take(0)) == 0) by {
                assert(rs.take(0) =~= Seq::<Seq<char>>::empty());
            }
        }
        while k < n_rows
            invariant
                rows.deep_view() == rs,
                rs == maze_rows(s@),
                n_rows == rs.len(),
                k <= n_rows,
                dim_y == k,
                dim_x == (if k == 0 { 0 } else { w }),
                w == (if rs.len() == 0 { 0 } else { rs[0].len() as int }),
                total_len(rs) <= s@.len(),
                s@.len() <= isize::MAX,
                rs.len() <= s@.len(),
                forall|i: int| 0 <= i < rs.len() ==> #[trigger] rs[i].len() > 0,
                forall|i: int| 0 <= i < rs.len() ==> #[trigger] rs[i].len() <= s@.len(),
                array@.len() == total_len(rs.take(k as int)),
                parsed_prefix(
                    rs,
                    k as int,
                    0,
                    w,
                    array@,
                    n_walls as nat,
                    start_coordinate_opt,
                    end_coordinate_opt,
                ),
                reindeer.direction == Direction::East,
            decreases n_rows - k,
        {
            let y_parsed = NewMazeError::parse_integer(dim_y);
            let y: isize = match y_parsed {
                Ok(v) => v,
                Err(e) => {
                    return Err(e);
                },
            };
            dim_y = dim_y + 1;
            let row = &rows[k];
            assert(row@ =~= rs[k as int]) by {
                assert(rows.deep_view()[k as int] == rs[k as int]);
                assert(row.deep_view() =~= row@);
            }
            let row_len = row.len();
            proof {
                lemma_total_len_prefix(rs, k as int);
            }
            let mut local_dim_x: usize = 0;
            while local_dim_x < row_len
                invariant
                    rs == maze_rows(s@),
                    row@ == rs[k as int],
                    row_len == row@.len(),
                    k < n_rows,
                    n_rows == rs.len(),
                    y == k,
                    dim_y == k + 1,
                    dim_x == (if k == 0 { 0 } else { w }),
                    w == (if rs.len() == 0 { 0 } else { rs[0].len() as int }),
                    local_dim_x <= row_len,
                    total_len(rs) <= s@.len(),
                    s@.len() <= isize::MAX,
                    rs.len() <= s@.len(),
                    row_len <= s@.len(),
                    array@.len() == total_len(rs.take(k as int)) + local_dim_x,
                    total_len(rs.take(k as int)) + row_len <= total_len(rs),
                    parsed_prefix(
                        rs,
                        k as int,
                        local_dim_x as int,
                        w,
                        array@,
                        n_walls as nat,
                        start_coordinate_opt,
                        end_coordinate_opt,
                    ),
                decreases row_len - local_dim_x,
            {
                let c = row[local_dim_x];
                let x_parsed = NewMazeError::parse_integer(local_dim_x);
                let x: isize = match x_parsed {
                    Ok(v) => v,
                    Err(e) => {
                        return Err(e);
                    },
                };
                let line_and_column_index_opt = position_i32(local_dim_x, dim_y - 1);
                let ghost cc = local_dim_x as int;
                let parsed = ParsedTile::try_from_char(&c);
                let parsed_tile_info = match parsed {
                    Ok(p) => p,
                    Err(_) => {
                        proof {
                            assert(check_fails(rs, k as int, cc));
                            assert(first_failure(rs, k as int, cc));
                        }
                        return Err(
                            NewMazeError {
                                error: unrecognized_message(c),
                                line_and_column_index_opt,
                            },
                        );
                    },
                };
                let tile = parsed_tile_info.tile;
                let ghost old_array = array@;
                proof {
                    lemma_count_walls_push(array@, tile);
                    lemma_count_walls_le(array@);
                }
                if tile == Tile::Wall {
                    n_walls = n_walls + 1;
                }
                array.push(tile);
                if parsed_tile_info.is_start_coordinate {
                    if start_coordinate_opt.is_some() {
                        proof {
                            assert(check_fails(rs, k as int, cc));
                            assert(first_failure(rs, k as int, cc));
                        }
                        return Err(
                            NewMazeError {
                                error: String::from_str("Found multiple start coordinates!"),
                                line_and_column_index_opt,
                            },
                        );
                    }
                    start_coordinate_opt = Some(Coordinate::new(x, y));
                }
                if parsed_tile_info.is_end_coordinate {
                    if end_coordinate_opt.is_some() {
                        proof {
                            assert(check_fails(rs, k as int, cc));
                            assert(first_failure(rs, k as int, cc));
                        }
                        return Err(
                            NewMazeError {
                                error: String::from_str("Found multiple end coordinates!"),
                                line_and_column_index_opt,
                            },
                        );
                    }
                    end_coordinate_opt = Some(Coordinate::new(x, y));
                }
                proof {
                    assert(!check_fails(rs, k as int, cc));
                    assert forall|r2: int, c2: int|
                        is_check(rs, r2, c2) && pos_before(r2, c2, k as int, cc + 1) implies !#[trigger] check_fails(
                        rs,
                        r2,
                        c2,
                    ) by {
                        if !(r2 == k && c2 == cc) {
                            assert(pos_before(r2, c2, k as int, cc));
                        }
                    }
                    assert forall|yy: int, xx: int|
                        0 <= yy && 0 <= xx && ((yy < k && xx < w) || (yy == k && xx < cc + 1))
                            implies #[trigger] array@[yy * w + xx] == char_tile(rs[yy][xx]) by {
                        if yy == k && xx == cc {
                            assert(yy * w + xx == k * w + cc);
                        } else {
                            lemma_row_major_before(yy, xx, k as int, cc, w);
                            assert(array@[yy * w + xx] == old_array[yy * w + xx]);
                        }
                    }
                    assert(array@.len() == k * w + cc + 1);
                    assert(occurs_before(rs, k as int, cc + 1, 'S') <==> (occurs_before(
                        rs,
                        k as int,
                        cc,
                        'S',
                    ) || c == 'S'));
                    assert(occurs_before(rs, k as int, cc + 1, 'E') <==> (occurs_before(
                        rs,
                        k as int,
                        cc,
                        'E',
                    ) || c == 'E'));
                }
                local_dim_x = local_dim_x + 1;
            }
            let ghost kk = k as int;
            if dim_x == 0 {
                dim_x = local_dim_x;
            } else if local_dim_x != dim_x {
                proof {
                    assert(check_fails(rs, kk, row_len as int));
                    assert forall|r2: int, c2: int|
                        is_check(rs, r2, c2) && pos_before(r2, c2, kk, row_len as int) implies !#[trigger] check_fails(
                        rs,
                        r2,
                        c2,
                    ) by {
                        if r2 == kk {
                            assert(pos_before(r2, c2, kk, row_len as int));
                        }
                    }
                    assert(first_failure(rs, kk, row_len as int));
                }
                let line: usize = dim_y;
                return Err(
                    NewMazeError {
                        error: misalignment_message(line, local_dim_x, dim_x),
                        line_and_column_index_opt: None,
                    },
                );
            }
            proof {
                assert(!check_fails(rs, kk, row_len as int));
                assert forall|r2: int, c2: int|
                    is_check(rs, r2, c2) && pos_before(r2, c2, kk + 1, 0) implies !#[trigger] check_fails(
                    rs,
                    r2,
                    c2,
                ) by {
                    if r2 == kk && c2 < row_len {
                        assert(pos_before(r2, c2, kk, row_len as int));
                    }
                }
                assert(rs[kk].len() == w);
                assert(array@.len() == (kk + 1) * w + 0) by (nonlinear_arith)
                    requires
                        array@.len() == kk * w + row_len,
                        row_len == w,
                ;
                assert forall|yy: int, xx: int|
                    0 <= yy && 0 <= xx && ((yy < kk + 1 && xx < w) || (yy == kk + 1 && xx < 0))
                        implies #[trigger] array@[yy * w + xx] == char_tile(rs[yy][xx]) by {
                    if yy < kk {
                    } else {
                        assert(yy == kk && xx < row_len);
                    }
                }
                assert(occurs_before(rs, kk + 1, 0, 'S') <==> occurs_before(
                    rs,
                    kk,
                    row_len as int,
                    'S',
                )) by {
                    if occurs_before(rs, kk + 1, 0, 'S') {
                        let (r2, c2) = choose|r2: int, c2: int|
                            0 <= r2 < rs.len() && 0 <= c2 < rs[r2].len() && pos_before(
                                r2,
                                c2,
                                kk + 1,
                                0,
                            ) && #[trigger] rs[r2][c2] == 'S';
                        assert(pos_before(r2, c2, kk, row_len as int));
                    }
                }
                assert(occurs_before(rs, kk + 1, 0, 'E') <==> occurs_before(
                    rs,
                    kk,
                    row_len as int,
                    'E',
                )) by {
                    if occurs_before(rs, kk + 1, 0, 'E') {
                        let (r2, c2) = choose|r2: int, c2: int|
                            0 <= r2 < rs.len() && 0 <= c2 < rs[r2].len() && pos_before(
                                r2,
                                c2,
                                kk + 1,
                                0,
                            ) && #[trigger] rs[r2][c2] == 'E';
                        assert(pos_before(r2, c2, kk, row_len as int));
                    }
                }
            }
            k = k + 1;
        }
        proof {
            assert forall|r2: int, c2: int| is_check(rs, r2, c2) implies !#[trigger] check_fails(
                rs,
                r2,
                c2,
            ) by {
                assert(pos_before(r2, c2, n_rows as int, 0));
            }
            assert(occurs(rs, 'S') <==> occurs_before(rs, n_rows as int, 0, 'S')) by {
                if occurs(rs, 'S') {
                    let (r2, c2) = choose|r2: int, c2: int|
                        0 <= r2 < rs.len() && 0 <= c2 < rs[r2].len() && #[trigger] rs[r2][c2]
                            == 'S';
                    assert(pos_before(r2, c2, n_rows as int, 0));
                }
            }
            assert(occurs(rs, 'E') <==> occurs_before(rs, n_rows as int, 0, 'E')) by {
                if occurs(rs, 'E') {
                    let (r2, c2) = choose|r2: int, c2: int|
                        0 <= r2 < rs.len() && 0 <= c2 < rs[r2].len() && #[trigger] rs[r2][c2]
                            == 'E';
                    assert(pos_before(r2, c2, n_rows as int, 0));
                }
            }
        }
        let start_coordinate = match start_coordinate_opt {
            Some(c) => c,
            None => {
                return Err(
                    NewMazeError {
                        error: String::from_str("Found no start coordinate!"),
                        line_and_column_index_opt: None,
                    },
                );
            },
        };
        let end_coordinate = match end_coordinate_opt {
            Some(c) => c,
            None => {
                return Err(
                    NewMazeError {
                        error: String::from_str("Found no end coordinate!"),
                        line_and_column_index_opt: None,
                    },
                );
            },
        };
        proof {
            assert(n_rows > 0);
            assert(array@.len() == dim_x * dim_y) by (nonlinear_arith)
                requires
                    array@.len() == n_rows * w + 0,
                    dim_x == w,
                    dim_y == n_rows,
            ;
            let m = MazeModel {
                tiles: array@,
                dim_x: dim_x as nat,
                dim_y: dim_y as nat,
                n_walls: n_walls as nat,
                start: start_coordinate,
                end: end_coordinate,
                start_direction: reindeer.direction,
            };
            assert(rs[start_coordinate.y as int].len() == w);
            assert(rs[end_coordinate.y as int].len() == w);
            assert(array@[start_coordinate.y * w + start_coordinate.x] == char_tile(
                rs[start_coordinate.y as int][start_coordinate.x as int],
            ));
            assert(array@[end_coordinate.y * w + end_coordinate.x] == char_tile(
                rs[end_coordinate.y as int][end_coordinate.x as int],
            ));
            assert(is_open(m, m.start));
            assert(is_open(m, m.end));
            assert(m.tiles.len() == m.dim_x * m.dim_y);
            assert(array.len() <= usize::MAX);
            assert(m.dim_x * m.dim_y <= usize::MAX);
            assert(m.dim_x <= isize::MAX);
            assert(m.dim_y <= isize::MAX);
            assert(m.n_walls == count_walls(m.tiles));
            assert(maze_wf(m));
            assert(rows_describe(rs, m));
        }
        let maze = Maze {
            array,
            dim_x,
            dim_y,
            n_walls,
            start_coordinate,
            end_coordinate,
            reindeer,
        };
        Ok(maze)
    }
}

} // verus!

verus! {

impl Maze {
    /// The tiles, row by row.
    pub fn rust_get_array(&self) -> (a: &Vec<Tile>)
        ensures
            a@ == self@.tiles,
            maze_wf(self@),
    {
        proof {
            use_type_invariant(self);
        }
        &self.array
    }

    pub fn rust_get_dim_x(&self) -> (d: usize)
        ensures
            d == self@.dim_x,
    {
        self.dim_x
    }

    pub fn rust_get_dim_y(&self) -> (d: usize)
        ensures
            d == self@.dim_y,
    {
        self.dim_y
    }

    pub fn rust_get_n_walls(&self) -> (n: usize)
        ensures
            n == self@.n_walls,
    {
        self.n_walls
    }

    pub fn rust_get_reindeer_start_coordinate(&self) -> (c: &Coordinate)
        ensures
            *c == self@.start,
    {
        &self.start_coordinate
    }

    pub fn rust_get_end_coordinate(&self) -> (c: &Coordinate)
        ensures
            *c == self@.end,
    {
        &self.end_coordinate
    }
}

/// The tiles copied into a new vector.
fn copy_tiles(tiles: &Vec<Tile>) -> (c: Vec<Tile>)
    ensures
        c@ == tiles@,
{
    let mut c: Vec<Tile> = Vec::new();
    let mut i: usize = 0;
    while i < tiles.len()
        invariant
            i <= tiles@.len(),
            c@ == tiles@.take(i as int),
        decreases tiles@.len() - i,
    {
        c.push(tiles[i]);
        proof {
            assert(tiles@.take(i + 1) =~= tiles@.take(i as int).push(tiles@[i as int]));
        }
        i = i + 1;
    }
    assert(tiles@.take(tiles@.len() as int) =~= tiles@);
    c
}

impl Maze {
    /// Whether a search through this maze with `cost_per_rotation` per
    /// quarter turn keeps all its numbers within a `usize` (and twice the
    /// rotation cost within a `u32`).
    pub fn can_search(&self, cost_per_rotation: u32) -> (b: bool)
        ensures
            b == (search_fits(self@, cost_per_rotation as nat) && cost_per_rotation <= u32::MAX
                / 2),
    {
        if cost_per_rotation > u32::MAX / 2 {
            return false;
        }
        proof {
            use_type_invariant(self);
        }
        let a: usize = self.dim_x * self.dim_y;
        proof {
            assert(a <= 0xffff_ffff_ffff_ffffnat);
            assert(4 * a * (2 * cost_per_rotation + 1) <= 4 * 0xffff_ffff_ffff_ffffnat * (2
                * 0xffff_ffffnat + 1)) by (nonlinear_arith)
                requires
                    a <= 0xffff_ffff_ffff_ffffnat,
                    cost_per_rotation <= 0xffff_ffffnat,
            ;
            assert(4 * 0xffff_ffff_ffff_ffffnat * (2 * 0xffff_ffffnat + 1)
                == 633825300040327724419153657860nat) by (nonlinear_arith);
            assert(633825300040327724419153657860nat < u128::MAX);
            assert(4 * a < u128::MAX);
            assert(4 * self@.dim_x * self@.dim_y * (2 * cost_per_rotation + 1) == 4 * a * (2
                * cost_per_rotation + 1)) by (nonlinear_arith)
                requires
                    a == self@.dim_x * self@.dim_y,
            ;
        }
        let f: u128 = 4 * (a as u128) * (2 * (cost_per_rotation as u128) + 1);
        f < (usize::MAX as u128)
    }

    /// A search for the cheapest ways from the start to the end tile, with
    /// `cost_per_rotation` per quarter turn, that has only the start state
    /// to visit. Driving it with `PathSearch::step` until it finishes gives
    /// the result; every step that does not finish lowers
    /// `PathSearch::progress`, so it finishes.
    ///
    /// The search keeps every cost it computes in a `usize`, and asks for
    /// that with a bound of its own, `search_fits`: four times the number of
    /// tiles times one more than twice the rotation cost must stay below
    /// `usize::MAX`. The bound has room to spare (about twice what the
    /// dearest path can cost); on a 32-bit build it rules out mazes of about
    /// 2^29 / (2 * cost_per_rotation + 1) tiles and more. `can_search` tests it.
    pub fn find_paths(&self, cost_per_rotation: u32) -> (s: PathSearch)
        requires
            search_fits(self@, cost_per_rotation as nat),
            cost_per_rotation <= u32::MAX / 2,
        ensures
            s.inv(),
            s.maze() == self@,
            s.rotation_cost() == cost_per_rotation,
            s.pending() == seq![start_state(self@)],
            s.best_score() is None,
            forall|v: CoordinateAndDirection|
                state_valid(self@, v) ==> #[trigger] s.cost(v) == if v == start_state(self@) {
                    Some(0usize)
                } else {
                    None
                },
    {
        proof {
            use_type_invariant(self);
        }
        let tiles = copy_tiles(&self.array);
        proof {
            assert(parts_model(
                tiles@,
                self.dim_x,
                self.dim_y,
                self.start_coordinate,
                self.end_coordinate,
                self.reindeer.direction,
            ) == self@);
        }
        PathSearch::new(
            tiles,
            self.dim_x,
            self.dim_y,
            self.start_coordinate,
            self.end_coordinate,
            self.reindeer.direction,
            cost_per_rotation,
        )
    }
}

impl IHasCoordinates for Maze {
    type Item = Tile;

    fn get_index_and_content_by_coordinate(&self, coordinate: &Coordinate) -> (r: Option<
        (usize, &Tile),
    >)
        ensures
            r is Some <==> in_bounds(*coordinate, self@.dim_x, self@.dim_y),
            r matches Some(p) ==> p.0 == row_major_index(*coordinate, self@.dim_x) && *p.1
                == tile_at(self@, *coordinate),
    {
        proof {
            use_type_invariant(self);
            if in_bounds(*coordinate, self@.dim_x, self@.dim_y) {
                crate::path_search::lemma_tile_index(self@, *coordinate);
            }
        }
        let index = match coordinate.try_to_index(self.dim_x, self.dim_y) {
            Some(i) => i,
            None => {
                return None;
            },
        };
        let tile = &self.array[index];
        Some((index, tile))
    }
}

} // verus!
