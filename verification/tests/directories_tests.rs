use project_reindeer::directories::{CreditsOutRoot, GodotRoot, IDirectory, ProjectRoot};

#[test]
fn project_root_is_three_levels_up() {
    let root = ProjectRoot::from_path_to_this_file("/home/me/reindeer/tool/src/main.rs".to_string());
    assert_eq!(root.path, "/home/me/reindeer");
    assert_eq!(root.get_path(), "/home/me/reindeer");
}

#[test]
fn project_root_needs_three_parents() {
    assert!(ProjectRoot::try_from_path_to_this_file("main.rs".to_string()).is_none());
    assert!(ProjectRoot::try_from_path_to_this_file("/".to_string()).is_none());
    let root = ProjectRoot::try_from_path_to_this_file("/a/b/c/d".to_string()).unwrap();
    assert_eq!(root.path, "/a");
}

#[test]
fn godot_and_credits_directories() {
    let root = ProjectRoot { path: "/home/me/reindeer".to_string() };
    let godot = GodotRoot::from_project_root(root);
    assert_eq!(godot.path, "/home/me/reindeer/godot/project-reindeer");
    let credits = CreditsOutRoot::from_godot_root(godot.clone());
    assert_eq!(credits.get_path(), "/home/me/reindeer/godot/project-reindeer/about/credits");
    assert_eq!(godot.get_path(), "/home/me/reindeer/godot/project-reindeer");
}
