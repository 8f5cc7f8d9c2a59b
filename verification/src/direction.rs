//! The four compass directions, in clockwise order starting at North.
use vstd::prelude::*;

use crate::coordinate::Coordinate;

verus! {

/// Number of directions.
pub const DIRECTION_COUNT: usize = 4;

/// A compass direction. The declaration order (North, East, South, West)
/// is the clockwise order used by all rotations.
#[derive(Clone, Copy, Debug, PartialEq, Eq, Structural, Hash)]
pub enum Direction {
    North,
    East,
    South,
    West,
}

/// Position of a direction in the clockwise order North, East, South, West.
pub open spec fn direction_index(d: Direction) -> int {
    match d {
        Direction::North => 0,
        Direction::East => 1,
        Direction::South => 2,
        Direction::West => 3,
    }
}

/// The direction at a position of the clockwise order, taken modulo four.
pub open spec fn direction_at(i: int) -> Direction {
    let r = i % 4;
    if r == 0 {
        Direction::North
    } else if r == 1 {
        Direction::East
    } else if r == 2 {
        Direction::South
    } else {
        Direction::West
    }
}

/// The unit vector of a direction; North points towards smaller y.
pub open spec fn direction_vector(d: Direction) -> (int, int) {
    match d {
        Direction::North => (0, -1),
        Direction::East => (1, 0),
        Direction::South => (0, 1),
        Direction::West => (-1, 0),
    }
}

/// Every direction sits at its own index.
pub proof fn lemma_direction_at_index(d: Direction)
    ensures
        direction_at(direction_index(d)) == d,
        direction_index(d) < 4,
{
}

/// The index of the direction found at position `i`.
pub proof fn lemma_index_of_direction_at(i: int)
    ensures
        direction_index(direction_at(i)) == i % 4,
{
}

/// Turning clockwise `a` quarter turns and then `b` more is turning `a + b`
/// quarter turns; in particular four quarter turns lead back to the start.
pub proof fn law_rotations_compose(d: Direction, a: nat, b: nat)
    ensures
        direction_at(direction_index(direction_at(direction_index(d) + a)) + b) == direction_at(
            direction_index(d) + a + b,
        ),
        direction_at(direction_index(d) + 4) == d,
{
    let i = direction_index(d) + a;
    lemma_index_of_direction_at(i);
    vstd::arithmetic::div_mod::lemma_add_mod_noop(i, b as int, 4);
    vstd::arithmetic::div_mod::lemma_mod_twice(b as int, 4);
    assert((i % 4 + b) % 4 == (i + b) % 4) by {
        vstd::arithmetic::div_mod::lemma_add_mod_noop(i % 4, b as int, 4);
        vstd::arithmetic::div_mod::lemma_mod_twice(i, 4);
    }
    vstd::arithmetic::div_mod::lemma_mod_add_multiples_vanish(direction_index(d), 4);
}

impl Default for Direction {
    fn default() -> (d: Self)
        ensures
            d == Direction::North,
    {
        Direction::North
    }
}

impl Direction {
    /// Position of this direction in the clockwise order.
    pub fn index(&self) -> (i: usize)
        ensures
            i == direction_index(*self),
    {
        match self {
            Direction::North => 0,
            Direction::East => 1,
            Direction::South => 2,
            Direction::West => 3,
        }
    }

    /// The direction at position `i % 4` of the clockwise order.
    pub fn from_index(i: usize) -> (d: Direction)
        ensures
            d == direction_at(i as int),
    {
        let r = i % 4;
        if r == 0 {
            Direction::North
        } else if r == 1 {
            Direction::East
        } else if r == 2 {
            Direction::South
        } else {
            Direction::West
        }
    }

    /// The next direction clockwise.
    pub fn rotate_clockwise(&self) -> (d: Self)
        ensures
            d == direction_at(direction_index(*self) + 1),
    {
        self.rotate_clockwise_by_steps(1)
    }

    /// The direction reached after `steps` quarter turns clockwise.
    pub fn rotate_clockwise_by_steps(&self, steps: usize) -> (d: Self)
        requires
            direction_index(*self) + steps <= usize::MAX,
        ensures
            d == direction_at(direction_index(*self) + steps),
    {
        let my_index = self.index();
        let new_index = my_index + steps;
        Direction::from_index(new_index)
    }

    /// Number of quarter turns clockwise (0 to 3) that lead from this
    /// direction to `other`.
    pub fn clockwise_rotations_to(&self, other: &Self) -> (n: usize)
        ensures
            n == (4 + direction_index(*other) - direction_index(*self)) % 4,
            n < 4,
            direction_at(direction_index(*self) + n) == *other,
    {
        let my_index = self.index();
        let other_index = other.index();
        (DIRECTION_COUNT + other_index - my_index) % DIRECTION_COUNT
    }

    /// Four minus the number of clockwise quarter turns to `other`: from 1
    /// to 4, where 4 means the two directions are the same.
    pub fn counter_clockwise_rotations_to(&self, other: &Self) -> (n: usize)
        ensures
            n == 4 - (4 + direction_index(*other) - direction_index(*self)) % 4,
            1 <= n <= 4,
    {
        DIRECTION_COUNT - self.clockwise_rotations_to(other)
    }

    /// The unit vector of this direction.
    pub fn to_vector(&self) -> (c: Coordinate)
        ensures
            (c.x as int, c.y as int) == direction_vector(*self),
    {
        Coordinate::from(self)
    }
}

} // verus!
