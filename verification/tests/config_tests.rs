use quick_proj::config::Config;

#[test]
fn test_default_config() {
    let config = Config::default();
    assert!(config.root_paths.is_empty());
    assert_eq!(config.max_depth, 4);
    assert!(config.project_markers.contains(&".git".to_string()));
}

#[test]
fn test_default_exclude_dirs() {
    let config = Config::default();
    assert_eq!(config.exclude_dirs.len(), 11);
    assert!(config.exclude_dirs.contains(&"node_modules".to_string()));
    assert!(config.exclude_dirs.contains(&"target".to_string()));
}

#[test]
fn test_add_root_path() {
    let dir = "/tmp/quick-proj-root".to_string();
    let mut config = Config::default();

    let added = config.add_root_path(&dir);
    assert!(added);
    assert_eq!(config.root_paths.len(), 1);

    let added_again = config.add_root_path(&dir);
    assert!(!added_again);
    assert_eq!(config.root_paths.len(), 1);
}

#[test]
fn test_remove_root_path() {
    let dir = "/tmp/quick-proj-root".to_string();
    let mut config = Config::default();

    config.add_root_path(&dir);
    assert_eq!(config.root_paths.len(), 1);

    let removed = config.remove_root_path(&dir);
    assert!(removed);
    assert!(config.root_paths.is_empty());
}

#[test]
fn test_remove_missing_root_path() {
    let mut config = Config::default();
    let removed = config.remove_root_path(&"/nowhere".to_string());
    assert!(!removed);
}

#[test]
fn test_get_editor_priority() {
    let mut config = Config::default();

    assert_eq!(config.get_editor(None, None), "code");

    config.set_editor("vim");
    assert_eq!(config.get_editor(None, None), "vim");

    assert_eq!(config.get_editor(Some("nvim"), None), "nvim");
}

#[test]
fn test_get_editor_environment_fallback() {
    let config = Config::default();
    assert_eq!(config.get_editor(None, Some("hx")), "hx");

    let mut with_editor = Config::default();
    with_editor.set_editor("vim");
    assert_eq!(with_editor.get_editor(None, Some("hx")), "vim");
}
