use quick_proj::config::Config;
use quick_proj::merge::merge_results;
use quick_proj::merge::sort_by_name;
use quick_proj::project::Project;
use quick_proj::scanner::Scanner;
use quick_proj::scanner::WalkEntry;
use quick_proj::scanner::filter_projects;
use quick_proj::scanner::first_present_marker;
use quick_proj::scanner::select_projects;

fn project(path: &str, name: &str, marker: &str) -> Project {
    Project { path: path.to_string(), name: name.to_string(), marker: marker.to_string() }
}

fn entry(components: &[&str]) -> WalkEntry {
    WalkEntry { components: components.iter().map(|c| c.to_string()).collect(), is_dir: true }
}

fn strings(items: &[&str]) -> Vec<String> {
    items.iter().map(|s| s.to_string()).collect()
}

#[test]
fn test_first_present_marker_exactly_one() {
    let markers = strings(&[".git", "Cargo.toml", "package.json"]);
    let present = vec![false, true, false];
    assert_eq!(first_present_marker(&markers, &present), Some("Cargo.toml".to_string()));
}

#[test]
fn test_first_present_marker_none() {
    let markers = strings(&[".git", "Cargo.toml"]);
    let present = vec![false, false];
    assert_eq!(first_present_marker(&markers, &present), None);
}

#[test]
fn test_first_present_marker_order_wins() {
    let markers = strings(&[".git", "Cargo.toml"]);
    let present = vec![true, true];
    assert_eq!(first_present_marker(&markers, &present), Some(".git".to_string()));
}

#[test]
fn test_select_detects_projects() {
    let root = "/r".to_string();
    let entries = vec![entry(&[]), entry(&["project-a"]), entry(&["project-b"])];
    let found = vec![None, Some(".git".to_string()), Some("Cargo.toml".to_string())];
    let excludes = strings(&["node_modules"]);
    let projects = select_projects(&root, &entries, &found, &excludes, 4);
    assert_eq!(projects.len(), 2);
    assert_eq!(projects[0].path, "/r/project-a");
    assert_eq!(projects[0].name, "project-a");
    assert_eq!(projects[0].marker, ".git");
    assert_eq!(projects[1].path, "/r/project-b");
}

#[test]
fn test_select_root_itself() {
    let root = "/home/user/repo".to_string();
    let entries = vec![entry(&[])];
    let found = vec![Some(".git".to_string())];
    let projects = select_projects(&root, &entries, &found, &strings(&[]), 4);
    assert_eq!(projects.len(), 1);
    assert_eq!(projects[0].path, "/home/user/repo");
    assert_eq!(projects[0].name, "repo");
}

#[test]
fn test_select_nested_suppression() {
    let root = "/r".to_string();
    let entries = vec![entry(&[]), entry(&["parent"]), entry(&["parent", "child"])];
    let found = vec![None, Some(".git".to_string()), Some("Cargo.toml".to_string())];
    let projects = select_projects(&root, &entries, &found, &strings(&[]), 4);
    assert_eq!(projects.len(), 1);
    assert_eq!(projects[0].name, "parent");
}

#[test]
fn test_select_never_nests_whatever_the_order() {
    // Even if a walk hands a child before its parent, at most one of the
    // two is reported: the first one found wins.
    let root = "/r".to_string();
    let entries = vec![entry(&["parent", "child"]), entry(&["parent"])];
    let found = vec![Some("Cargo.toml".to_string()), Some(".git".to_string())];
    let projects = select_projects(&root, &entries, &found, &strings(&[]), 4);
    assert_eq!(projects.len(), 1);
    assert_eq!(projects[0].name, "child");
}

#[test]
fn test_select_exclusion() {
    let root = "/r".to_string();
    let entries = vec![entry(&[]), entry(&["node_modules"]), entry(&["node_modules", "fake-project"])];
    let found = vec![None, None, Some("package.json".to_string())];
    let excludes = strings(&["node_modules"]);
    let projects = select_projects(&root, &entries, &found, &excludes, 4);
    assert!(projects.is_empty());
}

#[test]
fn test_select_depth_bound() {
    let root = "/r".to_string();
    let entries = vec![entry(&[]), entry(&["a"]), entry(&["a", "b"])];
    let found = vec![None, None, Some("Cargo.toml".to_string())];

    let shallow = select_projects(&root, &entries, &found, &strings(&[]), 1);
    assert!(shallow.is_empty());

    let deep = select_projects(&root, &entries, &found, &strings(&[]), 2);
    assert_eq!(deep.len(), 1);
    assert_eq!(deep[0].path, "/r/a/b");
}

#[test]
fn test_merge_duplicate_roots() {
    let p = project("/r/a", "a", ".git");
    let twice = merge_results(&vec![vec![p.clone()], vec![p.clone()]]);
    let once = merge_results(&vec![vec![p]]);
    assert_eq!(twice, once);
}

#[test]
fn test_merge_first_occurrence_wins() {
    let first = project("/r/a", "a", ".git");
    let second = project("/r/a", "a", "Cargo.toml");
    let other = project("/r/b", "b", "go.mod");
    let merged = merge_results(&vec![vec![first.clone()], vec![second, other.clone()]]);
    assert_eq!(merged, vec![first, other]);
}

#[test]
fn test_sort_case_insensitive() {
    let projects = vec![
        project("/r/zebra", "Zebra", ".git"),
        project("/r/alpha", "alpha", ".git"),
        project("/r/beta", "Beta", ".git"),
    ];
    let sorted = sort_by_name(&projects);
    let names: Vec<&str> = sorted.iter().map(|p| p.name.as_str()).collect();
    assert_eq!(names, vec!["alpha", "Beta", "Zebra"]);
}

#[test]
fn test_scan_missing_root() {
    let scanner = Scanner::from_config(&Config::default());
    let projects = scanner.scan(&vec!["/does/not/exist".to_string()]);
    assert!(projects.is_empty());
}

#[test]
fn test_scan_missing_root_twice() {
    let scanner = Scanner::from_config(&Config::default());
    let roots = vec!["/does/not/exist".to_string(), "/does/not/exist".to_string()];
    assert!(scanner.scan(&roots).is_empty());
}

#[test]
fn test_filter_projects() {
    let projects = vec![
        project("/home/user/rust-project", "rust-project", "Cargo.toml"),
        project("/home/user/node-app", "node-app", "package.json"),
    ];

    let filtered = filter_projects(&projects, "rust");
    assert_eq!(filtered.len(), 1);
    assert_eq!(filtered[0].name, "rust-project");

    let all = filter_projects(&projects, "");
    assert_eq!(all.len(), 2);
}

#[test]
fn test_filter_projects_case_insensitive() {
    let projects = vec![
        project("/home/user/rust-project", "rust-project", "Cargo.toml"),
        project("/home/user/node-app", "node-app", "package.json"),
    ];
    let filtered = filter_projects(&projects, "RUST");
    assert_eq!(filtered.len(), 1);
    assert_eq!(filtered[0].name, "rust-project");
}

#[test]
fn test_filter_projects_all_terms_required() {
    let projects = vec![
        project("/home/user/rust-project", "rust-project", "Cargo.toml"),
        project("/home/user/rust-tool", "rust-tool", "Cargo.toml"),
    ];
    let filtered = filter_projects(&projects, "rust tool");
    assert_eq!(filtered.len(), 1);
    assert_eq!(filtered[0].name, "rust-tool");
}

#[test]
fn test_filter_projects_matches_path() {
    let projects = vec![
        project("/work/clients/acme", "acme", ".git"),
        project("/home/user/demo", "demo", ".git"),
    ];
    let filtered = filter_projects(&projects, "clients");
    assert_eq!(filtered.len(), 1);
    assert_eq!(filtered[0].name, "acme");
}

#[test]
fn test_display_strings() {
    let p = project("/tmp/test-project", "test-project", ".git");
    assert_eq!(p.display_string(), "test-project (/tmp/test-project)");
    assert_eq!(p.short_display(), "/tmp/test-project");
}

#[test]
fn test_main_exists() {
}

/// Creates a directory with exactly the given name under `parent`.  A
/// marker "file" is created as a directory too: detection only asks
/// whether the path exists.
fn make_dir(parent: &std::path::Path, name: &str) -> std::path::PathBuf {
    tempfile::Builder::new().prefix(name).rand_bytes(0).tempdir_in(parent).unwrap().keep()
}

#[test]
fn test_scan_finds_projects() {
    let root = tempfile::tempdir().unwrap();

    let a = make_dir(root.path(), "project-a");
    make_dir(&a, ".git");
    let b = make_dir(root.path(), "project-b");
    make_dir(&b, "Cargo.toml");
    let c = make_dir(root.path(), "project-c");
    make_dir(&c, "package.json");

    let config = Config::default();
    let scanner = Scanner::from_config(&config);
    let projects = scanner.scan(&vec![root.path().to_string_lossy().into_owned()]);

    assert_eq!(projects.len(), 3);
}

#[test]
fn test_scan_ignores_nested_projects() {
    let root = tempfile::tempdir().unwrap();

    let parent = make_dir(root.path(), "parent");
    make_dir(&parent, ".git");
    let child = make_dir(&parent, "child");
    make_dir(&child, "Cargo.toml");

    let config = Config::default();
    let scanner = Scanner::from_config(&config);
    let projects = scanner.scan(&vec![root.path().to_string_lossy().into_owned()]);

    assert_eq!(projects.len(), 1);
    assert_eq!(projects[0].name, "parent");
}

#[test]
fn test_scan_same_root_twice() {
    let root = tempfile::tempdir().unwrap();

    let a = make_dir(root.path(), "project-a");
    make_dir(&a, ".git");

    let config = Config::default();
    let scanner = Scanner::from_config(&config);
    let root_str = root.path().to_string_lossy().into_owned();

    let once = scanner.scan(&vec![root_str.clone()]);
    let twice = scanner.scan(&vec![root_str.clone(), root_str]);

    assert_eq!(once.len(), 1);
    assert_eq!(twice, once);
}

#[test]
fn test_scan_skips_excluded_directories() {
    let root = tempfile::tempdir().unwrap();

    let nm = make_dir(root.path(), "node_modules");
    let fake = make_dir(&nm, "fake-project");
    make_dir(&fake, "package.json");

    let config = Config::default();
    let scanner = Scanner::from_config(&config);
    let projects = scanner.scan(&vec![root.path().to_string_lossy().into_owned()]);

    assert!(projects.is_empty());
}

#[test]
fn test_scan_depth_bound() {
    let root = tempfile::tempdir().unwrap();

    let a = make_dir(root.path(), "level-one");
    let b = make_dir(&a, "level-two");
    make_dir(&b, "Cargo.toml");

    let mut config = Config::default();
    let scanner_deep = Scanner::from_config(&config);
    let root_str = root.path().to_string_lossy().into_owned();
    assert_eq!(scanner_deep.scan(&vec![root_str.clone()]).len(), 1);

    config.max_depth = 1;
    let scanner_shallow = Scanner::from_config(&config);
    assert!(scanner_shallow.scan(&vec![root_str]).is_empty());
}
