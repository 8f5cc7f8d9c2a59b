use project_reindeer::level::{
    level_run_change, pathfinding_change, pause_menu_response, resumes, split_snow,
    snow_bar_range, split_snow_checked,
    tile_placements, LevelRunChange, LevelRunState, PathfindingAction, PathfindingState,
    PauseMenuRequest, TilePlacement,
};
use project_reindeer::maze::Maze;

#[test]
fn paused_state() {
    assert!(LevelRunState::Paused.is_paused());
    assert!(!LevelRunState::Running.is_paused());
}

#[test]
fn run_state_changes() {
    assert_eq!(
        level_run_change(LevelRunState::Running, LevelRunState::Paused),
        LevelRunChange { paused: true, notify: true }
    );
    assert_eq!(
        level_run_change(LevelRunState::Running, LevelRunState::Running),
        LevelRunChange { paused: false, notify: false }
    );
}

#[test]
fn pathfinding_state_changes() {
    let c = pathfinding_change(PathfindingState::NotStarted, PathfindingState::Countdown);
    assert_eq!(c.action, PathfindingAction::StartCountdown);
    assert!(c.notify);
    let c = pathfinding_change(PathfindingState::Done, PathfindingState::Countdown);
    assert_eq!(c.action, PathfindingAction::Nothing);
    let c = pathfinding_change(PathfindingState::Countdown, PathfindingState::InProgress);
    assert_eq!(c.action, PathfindingAction::RunSolver);
    let c = pathfinding_change(PathfindingState::Done, PathfindingState::Done);
    assert_eq!(c.action, PathfindingAction::Nothing);
    assert!(!c.notify);
}

#[test]
fn pause_menu_answers_only_when_paused() {
    let r = pause_menu_response(LevelRunState::Running, PauseMenuRequest::Start);
    assert!(!r.resume && !r.start_countdown && !r.exit_to_main_menu);
    let r = pause_menu_response(LevelRunState::Paused, PauseMenuRequest::Start);
    assert!(r.resume && r.start_countdown && !r.exit_to_main_menu);
    let r = pause_menu_response(LevelRunState::Paused, PauseMenuRequest::Resume);
    assert!(r.resume && !r.start_countdown && !r.exit_to_main_menu);
    let r = pause_menu_response(LevelRunState::Paused, PauseMenuRequest::ToMainMenu);
    assert!(r.resume && !r.start_countdown && r.exit_to_main_menu);
}

#[test]
fn resuming_a_search() {
    assert!(resumes(true, false));
    assert!(!resumes(true, true));
    assert!(!resumes(false, false));
    assert!(!resumes(false, true));
}

#[test]
fn snow_is_split_at_the_bars() {
    assert_eq!(split_snow(10, 7, 3), (3, 4, 3));
    assert_eq!(split_snow(10, 3, 7), (3, 4, 3));
    assert_eq!(split_snow(10, 0, 10), (0, 10, 0));
    assert_eq!(split_snow(0, 0, 0), (0, 0, 0));
    let (a, b, c) = split_snow(25, 25, 4);
    assert_eq!(a + b + c, 25);
}

#[test]
fn tiles_laid_row_by_row_in_checkerboard() {
    let maze = Maze::try_new_gd_from_str("S.#\n#.E\n").ok().unwrap();
    let p = tile_placements(&maze);
    let expected = vec![
        TilePlacement { x: 0, y: 0, first_color: true, wall: false },
        TilePlacement { x: 1, y: 0, first_color: false, wall: false },
        TilePlacement { x: 2, y: 0, first_color: true, wall: true },
        TilePlacement { x: 0, y: 1, first_color: false, wall: true },
        TilePlacement { x: 1, y: 1, first_color: true, wall: false },
        TilePlacement { x: 2, y: 1, first_color: false, wall: false },
    ];
    assert_eq!(p, expected);
    assert_eq!(p.iter().filter(|t| t.wall).count(), maze.rust_get_n_walls());
}

#[test]
fn snow_split_checks_its_bars() {
    assert_eq!(split_snow_checked(10, 7, 3), Some((3, 4, 3)));
    assert_eq!(split_snow_checked(10, 0, 10), Some((0, 10, 0)));
    assert_eq!(split_snow_checked(10, 11, 3), None);
    assert_eq!(split_snow_checked(10, 3, -1), None);
    assert_eq!(split_snow_checked(-1, 0, 0), None);
}

#[test]
fn snow_bars_drawn_up_to_the_total() {
    assert_eq!(snow_bar_range(12), (0, 12));
    assert_eq!(snow_bar_range(0), (0, 0));
}
