use project_reindeer::random::{
    checked_rolls, shuffle_roll_range, shuffle_with_rolls, Raffler, RockType, HIGHEST_ROCK_ROLL, ROCK_TYPE_COUNT,
};

#[test]
fn rock_types_by_roll() {
    assert_eq!(ROCK_TYPE_COUNT, 3);
    assert_eq!(RockType::from_roll(0), RockType::Small);
    assert_eq!(RockType::from_roll(1), RockType::Medium);
    assert_eq!(RockType::from_roll(2), RockType::Large);
}

#[test]
fn raffle_gives_the_first_item() {
    let mut raffler = Raffler::new(vec![('a', 2usize), ('b', 3usize)]);
    assert_eq!(raffler.pick_with_budget(4), Some('a'));
    assert_eq!(raffler.pick_with_budget(1), Some('a'));
}

#[test]
fn empty_raffle_gives_nothing() {
    let mut raffler: Raffler<char> = Raffler::new(vec![('a', 0usize)]);
    assert_eq!(raffler.pick_with_budget(0), None);
    let mut empty: Raffler<u8> = Raffler::new(vec![]);
    assert_eq!(empty.pick_with_budget(0), None);
}

#[test]
fn shuffle_swaps_from_the_back() {
    let mut v = vec![1, 2, 3, 4];
    shuffle_with_rolls(&mut v, &vec![0, 0, 0, 0]);
    assert_eq!(v, vec![2, 3, 4, 1]);
    let mut w = vec![1, 2, 3, 4];
    shuffle_with_rolls(&mut w, &vec![3, 2, 1, 0]);
    assert_eq!(w, vec![1, 2, 3, 4]);
}

#[test]
fn shuffle_keeps_the_elements() {
    let mut v: Vec<u32> = (0..10).collect();
    shuffle_with_rolls(&mut v, &vec![7, 3, 7, 0, 5, 2, 1, 2, 0, 0]);
    let mut sorted = v.clone();
    sorted.sort();
    assert_eq!(sorted, (0..10).collect::<Vec<u32>>());
}

#[test]
fn rock_type_for_any_roll() {
    assert_eq!(HIGHEST_ROCK_ROLL, 2);
    assert_eq!(RockType::try_from_roll(0), Some(RockType::Small));
    assert_eq!(RockType::try_from_roll(1), Some(RockType::Medium));
    assert_eq!(RockType::try_from_roll(2), Some(RockType::Large));
    assert_eq!(RockType::try_from_roll(3), None);
    assert_eq!(RockType::try_from_roll(-1), None);
}

#[test]
fn raffle_by_roll() {
    let mut raffler = Raffler::new(vec![('a', 2usize), ('b', 3usize)]);
    assert_eq!(raffler.roll_range(), (0, 5));
    assert_eq!(raffler.pick_with_roll(-1), None);
    assert_eq!(raffler.pick_with_roll(1), None);
    assert_eq!(raffler.get_n_items(), 5);
    assert_eq!(raffler.pick_with_roll(2), Some('a'));
    assert_eq!(raffler.get_n_items(), 4);
    assert_eq!(raffler.first_count(), Some(1));
    assert_eq!(raffler.pick_with_roll(1), Some('a'));
    assert_eq!(raffler.first_count(), Some(0));
    assert_eq!(raffler.pick_with_roll(3), None);
    assert_eq!(raffler.get_n_items(), 3);
    let mut empty: Raffler<u8> = Raffler::new(vec![]);
    assert_eq!(empty.roll_range(), (0, 0));
    assert_eq!(empty.pick_with_roll(0), None);
}

#[test]
fn rolls_checked_against_their_lengths() {
    assert_eq!(checked_rolls(&vec![3, 2, 1, 0]), Some(vec![3usize, 2, 1, 0]));
    assert_eq!(checked_rolls(&vec![0, 0, 0, 0]), Some(vec![0usize, 0, 0, 0]));
    assert_eq!(checked_rolls(&vec![4, 0, 0, 0]), None);
    assert_eq!(checked_rolls(&vec![0, 0, 2, 0]), None);
    assert_eq!(checked_rolls(&vec![0, -1]), None);
    assert_eq!(checked_rolls(&vec![]), Some(vec![]));
}

#[test]
fn draw_ranges() {
    assert_eq!(RockType::rock_roll_range(), (0, 2));
    assert_eq!(shuffle_roll_range(1), (0, 0));
    assert_eq!(shuffle_roll_range(10), (0, 9));
}
