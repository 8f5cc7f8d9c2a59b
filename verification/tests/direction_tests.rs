use project_reindeer::coordinate::Coordinate;
use project_reindeer::direction::Direction;

#[test]
fn default_is_north() {
    assert_eq!(Direction::default(), Direction::North);
}

#[test]
fn clockwise_rotation() {
    assert_eq!(Direction::North.rotate_clockwise(), Direction::East);
    assert_eq!(Direction::West.rotate_clockwise(), Direction::North);
    assert_eq!(Direction::South.rotate_clockwise_by_steps(3), Direction::East);
    assert_eq!(Direction::East.rotate_clockwise_by_steps(4), Direction::East);
    assert_eq!(Direction::East.rotate_clockwise_by_steps(10), Direction::West);
}

#[test]
fn rotations_between_directions() {
    assert_eq!(Direction::North.clockwise_rotations_to(&Direction::West), 3);
    assert_eq!(Direction::West.clockwise_rotations_to(&Direction::North), 1);
    assert_eq!(Direction::South.clockwise_rotations_to(&Direction::South), 0);
    assert_eq!(Direction::North.counter_clockwise_rotations_to(&Direction::West), 1);
    assert_eq!(Direction::South.counter_clockwise_rotations_to(&Direction::South), 4);
}

#[test]
fn rotating_by_the_counted_turns_reaches_the_target() {
    let all = [Direction::North, Direction::East, Direction::South, Direction::West];
    for a in all {
        for b in all {
            let n = a.clockwise_rotations_to(&b);
            assert_eq!(a.rotate_clockwise_by_steps(n), b);
            assert_eq!(n + a.counter_clockwise_rotations_to(&b), if a == b { 4 } else { 4 });
        }
    }
}

#[test]
fn direction_unit_vectors() {
    assert_eq!(Direction::North.to_vector(), Coordinate::new(0, -1));
    assert_eq!(Direction::East.to_vector(), Coordinate::new(1, 0));
    assert_eq!(Direction::South.to_vector(), Coordinate::new(0, 1));
    assert_eq!(Direction::West.to_vector(), Coordinate::new(-1, 0));
}

#[test]
fn indices() {
    assert_eq!(Direction::South.index(), 2);
    assert_eq!(Direction::from_index(5), Direction::East);
}
