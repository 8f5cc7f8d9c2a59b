use std::collections::HashSet;

use project_reindeer::coordinate::Coordinate;
use project_reindeer::direction::Direction;
use project_reindeer::maze::Maze;
use project_reindeer::maze_tile_state::MazeTileState;
use project_reindeer::path_info::PathInfo;
use project_reindeer::path_search::{rotation_cost, PathSearch, SearchProgress};

const EXAMPLE: &str = "###############
#.......#....E#
#.#.###.#.###.#
#.....#.#...#.#
#.###.#####.#.#
#.#.#.......#.#
#.#.#####.###.#
#...........#.#
###.#.#####.#.#
#...#.....#.#.#
#.#.#.###.#.#.#
#.....#...#.#.#
#.###.#.#.#.#.#
#S..#.....#...#
###############
";

fn run(search: &mut PathSearch) -> Option<PathInfo> {
    loop {
        match search.step() {
            SearchProgress::Finished(result) => return result,
            SearchProgress::Running(_) => {}
        }
    }
}

fn solve(text: &str, cost_per_rotation: u32) -> Option<PathInfo> {
    let maze = Maze::try_new_gd_from_str(text).ok().unwrap();
    assert!(maze.can_search(cost_per_rotation));
    let mut search = maze.find_paths(cost_per_rotation);
    run(&mut search)
}

fn tiles_on_paths(info: &PathInfo) -> HashSet<Coordinate> {
    info.rust_get_paths().iter().flatten().cloned().collect()
}

#[test]
fn rotation_costs() {
    assert_eq!(rotation_cost(0, 7), 0);
    assert_eq!(rotation_cost(1, 7), 7);
    assert_eq!(rotation_cost(2, 7), 14);
    assert_eq!(rotation_cost(3, 7), 7);
    assert_eq!(rotation_cost(6, 7), 14);
}

#[test]
fn finds_the_cheapest_paths_of_the_example() {
    let info = solve(EXAMPLE, 1000).unwrap();
    assert_eq!(info.rust_get_score(), 7036);
    assert_eq!(info.rust_get_paths().len(), 3);
    assert_eq!(tiles_on_paths(&info).len(), 45);
    for path in info.rust_get_paths() {
        assert_eq!(path.first(), Some(&Coordinate::new(1, 13)));
        assert_eq!(path.last(), Some(&Coordinate::new(13, 1)));
        assert_eq!(path.len(), 37);
        for pair in path.windows(2) {
            let d = pair[1] - pair[0];
            assert_eq!(d.manhattan_distance(), 1);
        }
    }
}

#[test]
fn free_rotations_count_only_steps() {
    let info = solve(EXAMPLE, 0).unwrap();
    assert_eq!(info.rust_get_score(), 28);
    assert_eq!(info.rust_get_paths().len(), 3);
    assert_eq!(tiles_on_paths(&info).len(), 37);
}

#[test]
fn a_straight_corridor() {
    let info = solve("#####\n#S.E#\n#####\n", 1000).unwrap();
    assert_eq!(info.rust_get_score(), 2);
    assert_eq!(
        info.rust_get_paths().clone(),
        vec![vec![Coordinate::new(1, 1), Coordinate::new(2, 1), Coordinate::new(3, 1)]]
    );
}

#[test]
fn turning_costs_the_rotation() {
    let text = "####\n#.E#\n#S.#\n####\n";
    let info = solve(text, 1000).unwrap();
    assert_eq!(info.rust_get_score(), 1002);
    assert_eq!(
        info.rust_get_paths().clone(),
        vec![vec![Coordinate::new(1, 2), Coordinate::new(2, 2), Coordinate::new(2, 1)]]
    );
    assert_eq!(solve(text, 1).unwrap().rust_get_score(), 3);
    assert_eq!(solve(text, 0).unwrap().rust_get_score(), 2);
}

#[test]
fn an_unreachable_end_gives_nothing() {
    assert!(solve("#####\n#S#E#\n#####\n", 1000).is_none());
}

#[test]
fn steps_report_tile_changes() {
    let maze = Maze::try_new_gd_from_str("#####\n#S.E#\n#####\n").ok().unwrap();
    let mut search = maze.find_paths(1000);
    let first = search.start_update();
    assert_eq!(first.idx, 6);
    assert_eq!(first.state, MazeTileState::Committed);
    match search.step() {
        SearchProgress::Running(updates) => {
            assert_eq!(updates.first().unwrap().idx, 6);
            assert_eq!(updates.first().unwrap().state, MazeTileState::Active);
            assert_eq!(updates.last().unwrap().state, MazeTileState::Normal);
            assert_eq!(updates.len() % 2, 0);
            assert_eq!(updates.len(), 2 + 2 * 4);
            assert_eq!(updates[1].state, MazeTileState::Touched);
            assert_eq!(updates[1].idx, 7);
            assert_eq!(updates[2].state, MazeTileState::Committed);
        }
        SearchProgress::Finished(_) => panic!("the first step visits the start"),
    }
}

#[test]
fn a_huge_rotation_cost_cannot_be_searched() {
    let maze = Maze::try_new_gd_from_str("S.E\n").ok().unwrap();
    assert!(!maze.can_search(u32::MAX));
    assert!(maze.can_search(1000));
}

#[test]
fn free_turning_tries_neighbours_north_east_south_west() {
    let maze = Maze::try_new_gd_from_str("#####\n#ES.#\n#####\n").ok().unwrap();
    let mut search = maze.find_paths(0);
    match search.step() {
        SearchProgress::Running(updates) => {
            let seen: Vec<(usize, MazeTileState, Direction)> =
                updates.iter().map(|u| (u.idx, u.state, u.direction)).collect();
            assert_eq!(
                seen,
                vec![
                    (7, MazeTileState::Active, Direction::East),
                    (8, MazeTileState::Touched, Direction::East),
                    (8, MazeTileState::Committed, Direction::East),
                    (6, MazeTileState::Touched, Direction::East),
                    (6, MazeTileState::Committed, Direction::West),
                    (7, MazeTileState::Normal, Direction::East),
                ]
            );
        }
        SearchProgress::Finished(_) => panic!("the first step visits the start"),
    }
    let info = run(&mut search).unwrap();
    assert_eq!(info.rust_get_score(), 1);
    assert_eq!(
        info.rust_get_paths().clone(),
        vec![vec![Coordinate::new(2, 1), Coordinate::new(1, 1)]]
    );
}
