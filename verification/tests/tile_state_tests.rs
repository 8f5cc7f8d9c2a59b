use project_reindeer::maze_tile_state::MazeTileState;

#[test]
fn flags() {
    assert_eq!(MazeTileState::Normal.to_godot_flag(), 1);
    assert_eq!(MazeTileState::Touched.to_godot_flag(), 2);
    assert_eq!(MazeTileState::Committed.to_godot_flag(), 4);
    assert_eq!(MazeTileState::Active.to_godot_flag(), 8);
    assert_eq!(MazeTileState::default(), MazeTileState::Normal);
}

#[test]
fn flags_in_bits() {
    let bits = MazeTileState::Active.to_godot_flag() | MazeTileState::Touched.to_godot_flag();
    assert!(MazeTileState::Active.is_set_flag_in_bits(bits));
    assert!(MazeTileState::Touched.is_set_flag_in_bits(bits));
    assert!(!MazeTileState::Normal.is_set_flag_in_bits(bits));
    assert!(!MazeTileState::Committed.is_set_flag_in_bits(bits));
    let all = [
        MazeTileState::Normal,
        MazeTileState::Touched,
        MazeTileState::Committed,
        MazeTileState::Active,
    ];
    for a in all {
        for b in all {
            assert_eq!(a.is_set_flag_in_bits(b.to_godot_flag()), a == b);
        }
    }
}
