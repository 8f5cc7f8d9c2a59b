use project_reindeer::coordinate::{Coordinate, IHasCoordinates};
use project_reindeer::maze::{Maze, NewMazeError, Tile};

#[test]
fn parses_a_small_maze() {
    let maze = Maze::try_new_gd_from_str("S.#\n..E\n").ok().unwrap();
    assert_eq!(maze.rust_get_dim_x(), 3);
    assert_eq!(maze.rust_get_dim_y(), 2);
    assert_eq!(maze.rust_get_n_walls(), 1);
    assert_eq!(*maze.rust_get_reindeer_start_coordinate(), Coordinate::new(0, 0));
    assert_eq!(*maze.rust_get_end_coordinate(), Coordinate::new(2, 1));
    assert_eq!(
        maze.rust_get_array().clone(),
        vec![Tile::Ground, Tile::Ground, Tile::Wall, Tile::Ground, Tile::Ground, Tile::Ground]
    );
}

#[test]
fn skips_empty_lines_and_carriage_returns() {
    let maze = Maze::try_new_gd_from_str("\r\nS#\r\n\n.E\r\n\n").ok().unwrap();
    assert_eq!(maze.rust_get_dim_x(), 2);
    assert_eq!(maze.rust_get_dim_y(), 2);
    assert_eq!(*maze.rust_get_end_coordinate(), Coordinate::new(1, 1));
}

#[test]
fn looks_up_tiles_by_coordinate() {
    let maze = Maze::try_new_gd_from_str("S.#\n..E\n").ok().unwrap();
    let (i, t) = maze.get_index_and_content_by_coordinate(&Coordinate::new(2, 0)).unwrap();
    assert_eq!(i, 2);
    assert_eq!(*t, Tile::Wall);
    assert!(maze.get_index_and_content_by_coordinate(&Coordinate::new(3, 0)).is_none());
}

fn error_of(text: &str) -> NewMazeError {
    match Maze::try_new_gd_from_str(text) {
        Ok(_) => panic!("expected an error"),
        Err(e) => e,
    }
}

#[test]
fn refuses_unknown_characters_with_their_position() {
    let e = error_of("S.\n.x\n");
    assert_eq!(e.error, "Unrecognized token 'x'!");
    assert_eq!(e.line_and_column_index_opt, Some((1, 1)));
}

#[test]
fn refuses_a_second_start_or_end() {
    let e = error_of("S.S\n..E\n");
    assert_eq!(e.error, "Found multiple start coordinates!");
    assert_eq!(e.line_and_column_index_opt, Some((2, 0)));
    let e = error_of("SE.\n..E\n");
    assert_eq!(e.error, "Found multiple end coordinates!");
    assert_eq!(e.line_and_column_index_opt, Some((2, 1)));
}

#[test]
fn refuses_rows_of_different_lengths() {
    let e = error_of("S..\n.E\n");
    assert_eq!(e.error, "Misalignment error! Line 2 has 2 chars, but previous one(s) have 3!");
    assert_eq!(e.line_and_column_index_opt, None);
}

#[test]
fn refuses_a_maze_without_start_or_end() {
    let e = error_of("..\n.E\n");
    assert_eq!(e.error, "Found no start coordinate!");
    assert_eq!(e.line_and_column_index_opt, None);
    let e = error_of("S.\n..\n");
    assert_eq!(e.error, "Found no end coordinate!");
    assert_eq!(e.line_and_column_index_opt, None);
}

#[test]
fn too_large_integers_are_an_error() {
    let e = match NewMazeError::parse_integer(usize::MAX) {
        Ok(_) => panic!("expected an error"),
        Err(e) => e,
    };
    assert_eq!(e.error, "Integer error: Maze is too large??");
    assert_eq!(NewMazeError::parse_integer(12).ok(), Some(12));
}

#[test]
fn tiles_are_written_as_characters() {
    assert_eq!(char::from(&Tile::Ground), '.');
    assert_eq!(char::from(&Tile::Wall), '#');
}
