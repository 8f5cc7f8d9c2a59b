//! Integer grid coordinates: vector arithmetic, quarter-turn rotations,
//! conversion to and from row-major indices, and neighbourhoods.
use vstd::prelude::*;

use crate::direction::{Direction, direction_vector};
use crate::text::{append_isize, int_to_decimal, push_char};

verus! {

/// A point (or vector) on the grid. `x` grows to the right (East) and `y`
/// grows downwards (South).
#[derive(Clone, Copy, Debug, PartialEq, Eq, Structural, Hash)]
pub struct Coordinate {
    pub x: isize,
    pub y: isize,
}

impl DeepView for Coordinate {
    type V = Coordinate;

    open spec fn deep_view(&self) -> Coordinate {
        *self
    }
}

/// True when the value fits in an `isize`.
pub open spec fn fits_isize(v: int) -> bool {
    isize::MIN <= v <= isize::MAX
}

/// The coordinate rotated a quarter turn clockwise `k` times, where one
/// turn maps (x, y) to (-y, x).
pub open spec fn rotated_right(x: int, y: int, k: nat) -> (int, int)
    decreases k,
{
    if k == 0 {
        (x, y)
    } else {
        let (px, py) = rotated_right(x, y, (k - 1) as nat);
        (-py, px)
    }
}

/// The Manhattan length |x| + |y| of a vector.
pub open spec fn manhattan(x: int, y: int) -> int {
    (if x < 0 { -x } else { x }) + (if y < 0 { -y } else { y })
}

/// Four clockwise quarter turns give a vector back, and a clockwise quarter
/// turn undoes a counter-clockwise one, which maps (x, y) to (y, -x).
pub proof fn law_rotation_cycle(x: int, y: int)
    ensures
        rotated_right(x, y, 4) == (x, y),
        rotated_right(y, -x, 1) == (x, y),
{
    assert(rotated_right(x, y, 0) == (x, y));
    assert(rotated_right(x, y, 1) == (-y, x));
    assert(rotated_right(x, y, 2) == (-x, -y));
    assert(rotated_right(x, y, 3) == (y, -x));
    assert(rotated_right(y, -x, 0) == (y, -x));
}

/// Lexicographic order on (x, y), x first.
pub open spec fn lex_less(a: Coordinate, b: Coordinate) -> bool {
    a.x < b.x || (a.x == b.x && a.y < b.y)
}

/// The row-major index `y * dim_x + x` of an in-bounds coordinate.
pub open spec fn row_major_index(c: Coordinate, dim_x: nat) -> int {
    c.y * dim_x + c.x
}

/// True when the coordinate lies inside a `dim_x` by `dim_y` grid.
pub open spec fn in_bounds(c: Coordinate, dim_x: nat, dim_y: nat) -> bool {
    0 <= c.x < dim_x && 0 <= c.y < dim_y
}

/// The row-major index of a coordinate on a grid gives the coordinate back:
/// its column is the index modulo the width, its row the index divided by
/// the width.
pub proof fn law_index_round_trip(c: Coordinate, dim_x: nat, dim_y: nat)
    requires
        in_bounds(c, dim_x, dim_y),
    ensures
        row_major_index(c, dim_x) % (dim_x as int) == c.x,
        row_major_index(c, dim_x) / (dim_x as int) == c.y,
{
    vstd::arithmetic::div_mod::lemma_fundamental_div_mod_converse(
        row_major_index(c, dim_x),
        dim_x as int,
        c.y as int,
        c.x as int,
    );
}

impl core::ops::Neg for Coordinate {
    type Output = Coordinate;

    fn neg(self) -> (r: Self::Output) {
        let x = -self.x;
        let y = -self.y;
        Coordinate { x, y }
    }
}

impl vstd::std_specs::ops::NegSpecImpl for Coordinate {
    open spec fn obeys_neg_spec() -> bool {
        true
    }

    open spec fn neg_req(self) -> bool {
        self.x != isize::MIN && self.y != isize::MIN
    }

    open spec fn neg_spec(self) -> Coordinate {
        Coordinate { x: (-self.x) as isize, y: (-self.y) as isize }
    }
}

impl core::ops::Add<Coordinate> for Coordinate {
    type Output = Coordinate;

    fn add(self, rhs: Coordinate) -> (r: Self::Output) {
        let x = self.x + rhs.x;
        let y = self.y + rhs.y;
        Coordinate { x, y }
    }
}

impl vstd::std_specs::ops::AddSpecImpl<Coordinate> for Coordinate {
    open spec fn obeys_add_spec() -> bool {
        true
    }

    open spec fn add_req(self, rhs: Coordinate) -> bool {
        fits_isize(self.x + rhs.x) && fits_isize(self.y + rhs.y)
    }

    open spec fn add_spec(self, rhs: Coordinate) -> Coordinate {
        Coordinate { x: (self.x + rhs.x) as isize, y: (self.y + rhs.y) as isize }
    }
}

impl core::ops::Sub<Coordinate> for Coordinate {
    type Output = Coordinate;

    fn sub(self, rhs: Coordinate) -> (r: Self::Output) {
        let neg = core::ops::Neg::neg(rhs);
        let result = self + neg;
        result
    }
}

impl vstd::std_specs::ops::SubSpecImpl<Coordinate> for Coordinate {
    open spec fn obeys_sub_spec() -> bool {
        true
    }

    open spec fn sub_req(self, rhs: Coordinate) -> bool {
        rhs.x != isize::MIN && rhs.y != isize::MIN && fits_isize(self.x - rhs.x) && fits_isize(
            self.y - rhs.y,
        )
    }

    open spec fn sub_spec(self, rhs: Coordinate) -> Coordinate {
        Coordinate { x: (self.x - rhs.x) as isize, y: (self.y - rhs.y) as isize }
    }
}

impl core::ops::Mul<isize> for Coordinate {
    type Output = Coordinate;

    fn mul(self, rhs: isize) -> (r: Self::Output) {
        let x = self.x * rhs;
        let y = self.y * rhs;
        Self::new(x, y)
    }
}

impl vstd::std_specs::ops::MulSpecImpl<isize> for Coordinate {
    open spec fn obeys_mul_spec() -> bool {
        true
    }

    open spec fn mul_req(self, rhs: isize) -> bool {
        fits_isize(self.x * rhs) && fits_isize(self.y * rhs)
    }

    open spec fn mul_spec(self, rhs: isize) -> Coordinate {
        Coordinate { x: (self.x * rhs) as isize, y: (self.y * rhs) as isize }
    }
}

impl<'a> core::convert::From<&'a Direction> for Coordinate {
    fn from(value: &'a Direction) -> (r: Self) {
        match value {
            Direction::North => Coordinate::new(0, -1),
            Direction::East => Coordinate::new(1, 0),
            Direction::South => Coordinate::new(0, 1),
            Direction::West => Coordinate::new(-1, 0),
        }
    }
}

impl<'a> vstd::std_specs::convert::FromSpecImpl<&'a Direction> for Coordinate {
    open spec fn obeys_from_spec() -> bool {
        true
    }

    open spec fn from_spec(v: &'a Direction) -> Coordinate {
        let (x, y) = direction_vector(*v);
        Coordinate { x: x as isize, y: y as isize }
    }
}

impl Coordinate {
    pub fn new(x: isize, y: isize) -> (c: Self)
        ensures
            c.x == x,
            c.y == y,
    {
        Self { x, y }
    }

    /// The vector (1, 0).
    pub fn right() -> (c: Coordinate)
        ensures
            c.x == 1 && c.y == 0,
    {
        Self::new(1, 0)
    }

    /// The vector (-1, 0).
    pub fn left() -> (c: Coordinate)
        ensures
            c.x == -1 && c.y == 0,
    {
        Self::new(-1, 0)
    }

    /// The vector (0, -1).
    pub fn down() -> (c: Coordinate)
        ensures
            c.x == 0 && c.y == -1,
    {
        Self::new(0, -1)
    }

    /// The vector (0, 1).
    pub fn up() -> (c: Coordinate)
        ensures
            c.x == 0 && c.y == 1,
    {
        Self::new(0, 1)
    }

    /// Adds `rhs` to this coordinate in place.
    pub fn add_assign(&mut self, rhs: Coordinate)
        requires
            fits_isize(old(self).x + rhs.x),
            fits_isize(old(self).y + rhs.y),
        ensures
            final(self).x == old(self).x + rhs.x,
            final(self).y == old(self).y + rhs.y,
    {
        self.x = self.x + rhs.x;
        self.y = self.y + rhs.y;
    }

    /// The coordinate of row-major index `value` in a grid `map_dim_x`
    /// wide: column `value % map_dim_x`, row `value / map_dim_x`; `None`
    /// when either does not fit in an `isize`.
    pub fn try_from_value(value: usize, map_dim_x: usize) -> (r: Option<Self>)
        requires
            map_dim_x > 0,
        ensures
            r is Some <==> (value % map_dim_x <= isize::MAX && value / map_dim_x <= isize::MAX),
            r matches Some(c) ==> c.x == value % map_dim_x && c.y == value / map_dim_x,
    {
        let div = value / map_dim_x;
        let rem = value % map_dim_x;
        if rem > isize::MAX as usize || div > isize::MAX as usize {
            return None;
        }
        let x = rem as isize;
        let y = div as isize;
        Some(Self { x, y })
    }

    /// The row-major index `y * map_dim_x + x` when the coordinate lies in
    /// the `map_dim_x` by `map_dim_y` grid, `None` otherwise.
    pub fn try_to_index(&self, map_dim_x: usize, map_dim_y: usize) -> (r: Option<usize>)
        requires
            in_bounds(*self, map_dim_x as nat, map_dim_y as nat) ==> row_major_index(
                *self,
                map_dim_x as nat,
            ) <= usize::MAX,
        ensures
            r is Some <==> in_bounds(*self, map_dim_x as nat, map_dim_y as nat),
            r matches Some(i) ==> i == row_major_index(*self, map_dim_x as nat),
    {
        if self.x < 0 || self.y < 0 {
            return None;
        }
        let x = self.x as usize;
        let y = self.y as usize;
        if x >= map_dim_x || y >= map_dim_y {
            return None;
        }
        assert(y * map_dim_x + x == row_major_index(*self, map_dim_x as nat));
        let index = y * map_dim_x + x;
        Some(index)
    }

    /// The Manhattan length |x| + |y|.
    pub fn manhattan_distance(&self) -> (d: usize)
        requires
            self.x != isize::MIN,
            self.y != isize::MIN,
        ensures
            d == manhattan(self.x as int, self.y as int),
    {
        let x: usize = if self.x < 0 { (-self.x) as usize } else { self.x as usize };
        let y: usize = if self.y < 0 { (-self.y) as usize } else { self.y as usize };
        x + y
    }

    /// Rotates a quarter turn clockwise: (x, y) becomes (-y, x).
    pub fn rotate_right(&mut self)
        requires
            old(self).y != isize::MIN,
        ensures
            final(self).x == -old(self).y,
            final(self).y == old(self).x,
    {
        let x = -self.y;
        let y = self.x;
        self.x = x;
        self.y = y;
    }

    /// Rotates a quarter turn counter-clockwise: (x, y) becomes (y, -x).
    pub fn rotate_left(&mut self)
        requires
            old(self).x != isize::MIN,
        ensures
            final(self).x == old(self).y,
            final(self).y == -old(self).x,
    {
        let x = self.y;
        let y = -self.x;
        self.x = x;
        self.y = y;
    }

    /// Component-wise absolute value.
    pub fn abs(self) -> (c: Self)
        requires
            self.x != isize::MIN,
            self.y != isize::MIN,
        ensures
            c.x == (if self.x < 0 { -self.x } else { self.x as int }),
            c.y == (if self.y < 0 { -self.y } else { self.y as int }),
    {
        let x = if self.x < 0 { -self.x } else { self.x };
        let y = if self.y < 0 { -self.y } else { self.y };
        Self::new(x, y)
    }

    /// The least number of clockwise quarter turns (0 to 3) that turn this
    /// vector into `other`, or `None` when no number of turns does.
    pub fn times_to_rotate_right_to_become_target(self, other: &Coordinate) -> (r: Option<usize>)
        requires
            self != *other ==> self.y != isize::MIN,
            (self != *other && (Coordinate { x: (-self.y) as isize, y: self.x }) != *other)
                ==> self.x != isize::MIN,
        ensures
            r matches Some(k) ==> k < 4 && rotated_right(self.x as int, self.y as int, k as nat)
                == (other.x as int, other.y as int) && forall|j: nat|
                j < k ==> rotated_right(self.x as int, self.y as int, j) != (
                    other.x as int,
                    other.y as int,
                ),
            r is None ==> forall|j: nat|
                j < 4 ==> rotated_right(self.x as int, self.y as int, j) != (
                    other.x as int,
                    other.y as int,
                ),
    {
        let ghost x0 = self.x as int;
        let ghost y0 = self.y as int;
        let ghost target = (other.x as int, other.y as int);
        let mut current = self;
        assert(rotated_right(x0, y0, 0) == (x0, y0));
        if current == *other {
            return Some(0);
        }
        current.rotate_right();
        assert(rotated_right(x0, y0, 1) == (current.x as int, current.y as int));
        if current == *other {
            return Some(1);
        }
        current.rotate_right();
        assert(rotated_right(x0, y0, 2) == (current.x as int, current.y as int));
        if current == *other {
            return Some(2);
        }
        current.rotate_right();
        assert(rotated_right(x0, y0, 3) == (current.x as int, current.y as int));
        if current == *other {
            return Some(3);
        }
        assert forall|j: nat| j < 4 implies rotated_right(x0, y0, j) != target by {
            if j == 0 {
            } else if j == 1 {
            } else if j == 2 {
            } else {
            }
        }
        None
    }

    /// All coordinates whose Manhattan distance from this one is at most
    /// `distance`, ordered by x and then by y.
    pub fn get_coordinates_within_distance(&self, distance: usize) -> (r: Vec<Coordinate>)
        requires
            distance <= isize::MAX,
            fits_isize(self.x - distance),
            fits_isize(self.x + distance),
            fits_isize(self.y - distance),
            fits_isize(self.y + distance),
        ensures
            forall|c: Coordinate|
                r@.contains(c) <==> manhattan(c.x - self.x, c.y - self.y) <= distance,
            forall|i: int, j: int| 0 <= i < j < r@.len() ==> lex_less(r@[i], r@[j]),
    {
        let reach = distance as isize;
        let high: i128 = reach as i128;
        let mut coordinates: Vec<Coordinate> = Vec::new();
        let mut xx: i128 = -high;
        while xx <= high
            invariant
                -high <= xx <= high + 1,
                high == distance,
                reach == distance,
                distance <= isize::MAX,
                fits_isize(self.x - distance),
                fits_isize(self.x + distance),
                fits_isize(self.y - distance),
                fits_isize(self.y + distance),
                forall|c: Coordinate|
                    coordinates@.contains(c) <==> (manhattan(c.x - self.x, c.y - self.y)
                        <= distance && c.x - self.x < xx),
                forall|i: int, j: int|
                    0 <= i < j < coordinates@.len() ==> lex_less(coordinates@[i], coordinates@[j]),
                forall|i: int| 0 <= i < coordinates@.len() ==> coordinates@[i].x - self.x < xx,
            decreases high + 1 - xx,
        {
            let x = xx as isize;
            let mut yy: i128 = -high;
            while yy <= high
                invariant
                    -high <= xx <= high,
                    x == xx,
                    -high <= yy <= high + 1,
                    high == distance,
                    reach == distance,
                    distance <= isize::MAX,
                    fits_isize(self.x - distance),
                    fits_isize(self.x + distance),
                    fits_isize(self.y - distance),
                    fits_isize(self.y + distance),
                    forall|c: Coordinate|
                        coordinates@.contains(c) <==> (manhattan(c.x - self.x, c.y - self.y)
                            <= distance && (c.x - self.x < x || (c.x - self.x == x && c.y - self.y
                            < yy))),
                    forall|i: int, j: int|
                        0 <= i < j < coordinates@.len() ==> lex_less(
                            coordinates@[i],
                            coordinates@[j],
                        ),
                    forall|i: int|
                        0 <= i < coordinates@.len() ==> (coordinates@[i].x - self.x < x || (
                        coordinates@[i].x - self.x == x && coordinates@[i].y - self.y < yy)),
                decreases high + 1 - yy,
            {
                let y = yy as isize;
                let vector = Coordinate::new(x, y);
                let length = vector.manhattan_distance();
                if length <= distance {
                    let target = *self + vector;
                    proof {
                        assert forall|c: Coordinate|
                            coordinates@.push(target).contains(c) <==> (manhattan(
                                c.x - self.x,
                                c.y - self.y,
                            ) <= distance && (c.x - self.x < x || (c.x - self.x == x && c.y
                                - self.y < y + 1))) by {
                            if coordinates@.push(target).contains(c) {
                                let k = choose|k: int|
                                    0 <= k < coordinates@.push(target).len()
                                        && coordinates@.push(target)[k] == c;
                                if k < coordinates@.len() {
                                    assert(coordinates@[k] == c);
                                    assert(coordinates@.contains(c));
                                }
                            }
                            if manhattan(c.x - self.x, c.y - self.y) <= distance && (c.x - self.x
                                < x || (c.x - self.x == x && c.y - self.y < y + 1)) {
                                if c.x - self.x == x && c.y - self.y == y {
                                    assert(c == target);
                                    assert(coordinates@.push(target)[coordinates@.len() as int]
                                        == c);
                                } else {
                                    assert(coordinates@.contains(c));
                                    let k = choose|k: int|
                                        0 <= k < coordinates@.len() && coordinates@[k] == c;
                                    assert(coordinates@.push(target)[k] == c);
                                }
                            }
                        }
                    }
                    coordinates.push(target);
                } else {
                    proof {
                        assert forall|c: Coordinate|
                            coordinates@.contains(c) <==> (manhattan(c.x - self.x, c.y - self.y)
                                <= distance && (c.x - self.x < x || (c.x - self.x == x && c.y
                                - self.y < y + 1))) by {
                            if c.x - self.x == x && c.y - self.y == y && coordinates@.contains(c) {
                                let k = choose|k: int|
                                    0 <= k < coordinates@.len() && coordinates@[k] == c;
                                assert(coordinates@[k].y - self.y < y);
                            }
                        }
                    }
                }
                yy = yy + 1;
            }
            proof {
                assert forall|c: Coordinate|
                    coordinates@.contains(c) <==> (manhattan(c.x - self.x, c.y - self.y)
                        <= distance && c.x - self.x < x + 1) by {
                    if manhattan(c.x - self.x, c.y - self.y) <= distance && c.x - self.x == x {
                        assert(c.y - self.y <= high);
                    }
                    if coordinates@.contains(c) {
                        let k = choose|k: int| 0 <= k < coordinates@.len() && coordinates@[k] == c;
                        assert(coordinates@[k].x - self.x <= x);
                    }
                }
            }
            xx = xx + 1;
        }
        proof {
            assert forall|c: Coordinate|
                coordinates@.contains(c) <==> manhattan(c.x - self.x, c.y - self.y)
                    <= distance by {
                if manhattan(c.x - self.x, c.y - self.y) <= distance {
                    assert(c.x - self.x <= high);
                }
            }
        }
        coordinates
    }

    /// A view of this coordinate that renders as a 1-based line and column.
    pub fn to_debug_coordinate<'a>(&'a self) -> (d: DebugCoordinate<'a>)
        ensures
            *d.coordinate() == *self,
    {
        DebugCoordinate { coordinate: self }
    }

    /// The text "(x,y)".
    pub fn to_display_string(&self) -> (s: String)
        ensures
            s@ == seq!['('] + int_to_decimal(self.x as int) + seq![','] + int_to_decimal(
                self.y as int,
            ) + seq![')'],
    {
        let mut s = String::new();
        push_char(&mut s, '(');
        append_isize(&mut s, self.x);
        push_char(&mut s, ',');
        append_isize(&mut s, self.y);
        push_char(&mut s, ')');
        assert(s@ =~= seq!['('] + int_to_decimal(self.x as int) + seq![','] + int_to_decimal(
            self.y as int,
        ) + seq![')']);
        s
    }
}

/// Something laid out on a grid that can be looked up by coordinate.
pub trait IHasCoordinates {
    type Item;

    /// The row-major index and the item at a coordinate, if it lies on the grid.
    fn get_index_and_content_by_coordinate(&self, coordinate: &Coordinate) -> Option<
        (usize, &Self::Item),
    >;
}

/// A coordinate shown as a 1-based position in a text file: line y + 1,
/// column x + 1.
pub struct DebugCoordinate<'a> {
    coordinate: &'a Coordinate,
}

impl<'a> DebugCoordinate<'a> {
    pub closed spec fn coordinate(&self) -> &'a Coordinate {
        self.coordinate
    }

    /// The text "(Ln <y + 1>, Col <x + 1>)".
    pub fn to_display_string(&self) -> (s: String)
        requires
            self.coordinate().x < isize::MAX,
            self.coordinate().y < isize::MAX,
        ensures
            s@ == seq!['(', 'L', 'n', ' '] + int_to_decimal(self.coordinate().y + 1) + seq![
                ',',
                ' ',
                'C',
                'o',
                'l',
                ' ',
            ] + int_to_decimal(self.coordinate().x + 1) + seq![')'],
    {
        let line = self.coordinate.y + 1;
        let col = self.coordinate.x + 1;
        let mut s = String::new();
        push_char(&mut s, '(');
        push_char(&mut s, 'L');
        push_char(&mut s, 'n');
        push_char(&mut s, ' ');
        append_isize(&mut s, line);
        push_char(&mut s, ',');
        push_char(&mut s, ' ');
        push_char(&mut s, 'C');
        push_char(&mut s, 'o');
        push_char(&mut s, 'l');
        push_char(&mut s, ' ');
        append_isize(&mut s, col);
        push_char(&mut s, ')');
        assert(s@ =~= seq!['(', 'L', 'n', ' '] + int_to_decimal(self.coordinate().y + 1) + seq![
            ',',
            ' ',
            'C',
            'o',
            'l',
            ' ',
        ] + int_to_decimal(self.coordinate().x + 1) + seq![')']);
        s
    }
}

} // verus!
