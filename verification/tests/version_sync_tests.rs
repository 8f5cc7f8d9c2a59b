use project_reindeer::version_sync::{
    synced_lines, try_path_to_syncable_file, validate_tag, CargoTomlFile, IVersionSyncing,
    ProjectGodotFile, SyncableFile,
};

#[test]
fn accepts_tags_of_the_form_x_y_z() {
    assert_eq!(validate_tag("1.2.3"), Ok("1.2.3".to_string()));
    assert_eq!(validate_tag("10.0.beta"), Ok("10.0.beta".to_string()));
}

#[test]
fn refuses_other_tags() {
    let message = Err("Invalid format! Must be on the form 'x.y.z'.".to_string());
    assert_eq!(validate_tag("1.2"), message);
    assert_eq!(validate_tag("1.2.3.4"), message);
    assert_eq!(validate_tag("1..3"), message);
    assert_eq!(validate_tag(".2.3"), message);
    assert_eq!(validate_tag("1.2."), message);
    assert_eq!(validate_tag(""), message);
}

#[test]
fn cargo_version_lines() {
    let f = CargoTomlFile { path: "Cargo.toml".to_string() };
    assert!(f.line_has_version_tag("version = \"0.1.0\""));
    assert!(!f.line_has_version_tag("version = \"0.1.0\" # comment"));
    assert!(!f.line_has_version_tag("rust-version = \"1.80\""));
    assert!(!f.line_has_version_tag("version=\"0.1.0\""));
    assert_eq!(f.replace_line("version = \"0.1.0\"", "1.2.3"), "version = \"1.2.3\"");
    assert_eq!(f.get_path(), "Cargo.toml");
}

#[test]
fn godot_version_lines() {
    let f = ProjectGodotFile { path: "project.godot".to_string() };
    assert!(f.line_has_version_tag("config/version=\"0.1.0\""));
    assert!(f.line_has_version_tag("  config/version=old"));
    assert!(!f.line_has_version_tag("config/name=\"Project Reindeer\""));
    assert_eq!(f.replace_line("config/version=\"0.1.0\"", "1.2.3"), "config/version=\"1.2.3\"");
}

#[test]
fn syncing_lines_replaces_only_version_lines() {
    let f = CargoTomlFile { path: "Cargo.toml".to_string() };
    let lines = vec![
        "[package]".to_string(),
        "name = \"x\"".to_string(),
        "version = \"0.1.0\"".to_string(),
        "edition = \"2021\"".to_string(),
    ];
    let out = synced_lines(&f, &lines, "2.0.1");
    assert_eq!(
        out,
        vec![
            "[package]".to_string(),
            "name = \"x\"".to_string(),
            "version = \"2.0.1\"".to_string(),
            "edition = \"2021\"".to_string(),
        ]
    );
    assert_eq!(synced_lines(&f, &out, "2.0.1"), out);
}

#[test]
fn syncing_twice_is_syncing_once() {
    let g = ProjectGodotFile { path: "project.godot".to_string() };
    let lines = vec!["config/version=\"0.0.1\"".to_string(), "x=1".to_string()];
    let once = synced_lines(&g, &lines, "3.1.4");
    assert_eq!(synced_lines(&g, &once, "3.1.4"), once);
}

#[test]
fn files_by_extension() {
    match try_path_to_syncable_file("a/b/Cargo.toml".to_string()) {
        Some(SyncableFile::CargoToml(f)) => assert_eq!(f.path, "a/b/Cargo.toml"),
        _ => panic!("expected a Cargo.toml"),
    }
    match try_path_to_syncable_file("a/project.godot".to_string()) {
        Some(SyncableFile::ProjectGodot(f)) => assert_eq!(f.path, "a/project.godot"),
        _ => panic!("expected a Godot project file"),
    }
    assert!(try_path_to_syncable_file("a/readme.md".to_string()).is_none());
    assert!(try_path_to_syncable_file("a/Makefile".to_string()).is_none());
}
