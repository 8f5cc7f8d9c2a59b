use project_reindeer::coordinate::Coordinate;
use project_reindeer::direction::Direction;

#[test]
fn unit_vectors() {
    assert_eq!(Coordinate::right(), Coordinate::new(1, 0));
    assert_eq!(Coordinate::left(), Coordinate::new(-1, 0));
    assert_eq!(Coordinate::down(), Coordinate::new(0, -1));
    assert_eq!(Coordinate::up(), Coordinate::new(0, 1));
}

#[test]
fn arithmetic_operators() {
    let a = Coordinate::new(3, -2);
    let b = Coordinate::new(-1, 5);
    assert_eq!(a + b, Coordinate::new(2, 3));
    assert_eq!(a - b, Coordinate::new(4, -7));
    assert_eq!(-a, Coordinate::new(-3, 2));
    assert_eq!(a * 3, Coordinate::new(9, -6));
    let mut c = a;
    c.add_assign(b);
    assert_eq!(c, Coordinate::new(2, 3));
}

#[test]
fn subtraction_is_adding_the_negation() {
    let a = Coordinate::new(7, 1);
    let b = Coordinate::new(2, -4);
    assert_eq!(a - b, a + (-b));
}

#[test]
fn from_direction() {
    assert_eq!(Coordinate::from(&Direction::North), Coordinate::new(0, -1));
    assert_eq!(Coordinate::from(&Direction::East), Coordinate::new(1, 0));
    assert_eq!(Coordinate::from(&Direction::South), Coordinate::new(0, 1));
    assert_eq!(Coordinate::from(&Direction::West), Coordinate::new(-1, 0));
}

#[test]
fn index_conversions() {
    assert_eq!(Coordinate::try_from_value(7, 3), Some(Coordinate::new(1, 2)));
    assert_eq!(Coordinate::new(1, 2).try_to_index(3, 3), Some(7));
    assert_eq!(Coordinate::new(3, 0).try_to_index(3, 3), None);
    assert_eq!(Coordinate::new(0, 3).try_to_index(3, 3), None);
    assert_eq!(Coordinate::new(-1, 0).try_to_index(3, 3), None);
}

#[test]
fn index_round_trip() {
    for y in 0..4isize {
        for x in 0..5isize {
            let c = Coordinate::new(x, y);
            let i = c.try_to_index(5, 4).unwrap();
            assert_eq!(Coordinate::try_from_value(i, 5), Some(c));
        }
    }
}

#[test]
fn distances_and_absolute_values() {
    assert_eq!(Coordinate::new(-3, 4).manhattan_distance(), 7);
    assert_eq!(Coordinate::new(0, 0).manhattan_distance(), 0);
    assert_eq!(Coordinate::new(-3, 4).abs(), Coordinate::new(3, 4));
}

#[test]
fn rotations() {
    let mut c = Coordinate::new(1, 2);
    c.rotate_right();
    assert_eq!(c, Coordinate::new(-2, 1));
    c.rotate_left();
    assert_eq!(c, Coordinate::new(1, 2));
    let mut d = Coordinate::new(5, -3);
    for _ in 0..4 {
        d.rotate_right();
    }
    assert_eq!(d, Coordinate::new(5, -3));
}

#[test]
fn rotations_to_target() {
    let a = Coordinate::new(1, 0);
    assert_eq!(a.times_to_rotate_right_to_become_target(&Coordinate::new(1, 0)), Some(0));
    assert_eq!(a.times_to_rotate_right_to_become_target(&Coordinate::new(0, 1)), Some(1));
    assert_eq!(a.times_to_rotate_right_to_become_target(&Coordinate::new(-1, 0)), Some(2));
    assert_eq!(a.times_to_rotate_right_to_become_target(&Coordinate::new(0, -1)), Some(3));
    assert_eq!(a.times_to_rotate_right_to_become_target(&Coordinate::new(2, 0)), None);
}

#[test]
fn neighbourhood_within_distance() {
    let c = Coordinate::new(10, 20);
    let around = c.get_coordinates_within_distance(1);
    assert_eq!(
        around,
        vec![
            Coordinate::new(9, 20),
            Coordinate::new(10, 19),
            Coordinate::new(10, 20),
            Coordinate::new(10, 21),
            Coordinate::new(11, 20),
        ]
    );
    assert_eq!(c.get_coordinates_within_distance(0), vec![c]);
    assert_eq!(c.get_coordinates_within_distance(2).len(), 13);
}

#[test]
fn display_texts() {
    assert_eq!(Coordinate::new(-3, 14).to_display_string(), "(-3,14)");
    let c = Coordinate::new(4, 0);
    assert_eq!(c.to_debug_coordinate().to_display_string(), "(Ln 1, Col 5)");
}
