use project_reindeer::coordinate::Coordinate;
use project_reindeer::path_info::{generate_mail_for_failed_attempt, IGenerateMail, PathInfo};

const FAILED: &str = "Dear [i]Player[/i],\n\nDue to circumstances out of my control, I was unfortunately not able to find a path to the goal...\nSorry for the inconvenience.\n\nSincerly,\n- [i]Reindeer[/i]\n        ";

#[test]
fn failed_attempt_mail() {
    assert_eq!(generate_mail_for_failed_attempt(), FAILED);
    let none: Option<PathInfo> = None;
    assert_eq!(none.generate_mail(), FAILED);
    assert_eq!(PathInfo::new_gd(vec![], 5).generate_mail(), FAILED);
}

#[test]
fn mail_for_one_path() {
    let path = vec![Coordinate::new(0, 0), Coordinate::new(1, 0), Coordinate::new(2, 0)];
    let info = PathInfo::new_gd(vec![path], 1002);
    assert_eq!(
        info.generate_mail(),
        "Dear [i]Player[/i],\n\nI found a path to the goal!\nI took a total of 2 steps, and the total cost to get there was 1002.\n\nSincerly,\n- [i]Reindeer[/i]\n            "
    );
}

#[test]
fn mail_for_several_paths() {
    let a = vec![Coordinate::new(0, 0)];
    let b = vec![Coordinate::new(1, 0)];
    let c = vec![];
    let info = Some(PathInfo::new_gd(vec![a, b, c], 0));
    assert_eq!(
        info.generate_mail(),
        "Dear [i]Player[/i],\n\nI found multiple paths to the goal - 3 to be specific!\nI took a total of 0 steps, and the total cost to get there was 0.\n\nSincerly,\n- [i]Reindeer[/i]\n            "
    );
}

#[test]
fn getters() {
    let info = PathInfo::new_gd(vec![vec![Coordinate::new(4, 2)]], 9);
    assert_eq!(info.rust_get_score(), 9);
    assert_eq!(info.rust_get_paths().clone(), vec![vec![Coordinate::new(4, 2)]]);
}
