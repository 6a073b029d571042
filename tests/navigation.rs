use fstree::builder::{build_master, is_walk_well_formed};
use fstree::git::FileStatus;
use fstree::navigation::AppState;
use fstree::sort::SortOptions;
use fstree::tree::{project_visible, FileEntry, WalkRecord};

fn entry(path: &str, depth: usize, is_dir: bool) -> FileEntry {
    FileEntry {
        path: path.to_string(),
        depth,
        is_dir,
        is_expanded: false,
        size: None,
        permissions: None,
        git_status: None,
    }
}

fn setup_test_app_state() -> AppState {
    let mut src = entry("src", 1, true);
    src.permissions = Some("drwxr-xr-x".to_string());
    let mut main = entry("src/main.rs", 2, false);
    main.size = Some(1024);
    main.permissions = Some("-rw-r--r--".to_string());
    main.git_status = Some(FileStatus::Modified);
    let mut readme = entry("README.md", 1, false);
    readme.size = Some(512);
    readme.permissions = Some("-rw-r--r--".to_string());
    AppState::new(vec![src, main, readme], None)
}

fn visible_paths(state: &AppState) -> Vec<String> {
    state.visible_entries.iter().map(|&p| state.master_entries[p].path.clone()).collect()
}

fn rec(path: &str, depth: usize, is_dir: bool) -> WalkRecord {
    WalkRecord {
        path: path.to_string(),
        name: path.rsplit('/').next().unwrap().to_string(),
        depth,
        is_dir,
        len: None,
        modified: None,
        mode: None,
        status: None,
    }
}

#[test]
fn test_navigation() {
    let mut app_state = setup_test_app_state();
    assert_eq!(app_state.selected, Some(0));
    app_state.next();
    assert_eq!(app_state.selected, Some(1));
    app_state.next();
    assert_eq!(app_state.selected, Some(0));
    app_state.previous();
    assert_eq!(app_state.selected, Some(1));
    app_state.previous();
    assert_eq!(app_state.selected, Some(0));
}

#[test]
fn test_toggle_directory() {
    let mut app_state = setup_test_app_state();
    assert_eq!(app_state.visible_entries.len(), 2);
    app_state.selected = Some(0);
    app_state.toggle_selected_directory();
    assert_eq!(app_state.visible_entries.len(), 3);
    assert_eq!(app_state.master_entries[app_state.visible_entries[1]].path, "src/main.rs");
    app_state.toggle_selected_directory();
    assert_eq!(app_state.visible_entries.len(), 2);
}

#[test]
fn test_get_selected_entry() {
    let mut app_state = setup_test_app_state();
    app_state.selected = Some(1);
    let selected = app_state.get_selected_entry();
    assert!(selected.is_some());
    assert_eq!(selected.unwrap().path, "README.md");
}

#[test]
fn empty_tree_has_no_selection() {
    let mut state = AppState::new(Vec::new(), Some(3));
    assert_eq!(state.selected, None);
    state.next();
    state.previous();
    state.toggle_selected_directory();
    assert_eq!(state.selected, None);
    assert!(state.get_selected_entry().is_none());
}

#[test]
fn collapsing_an_ancestor_selects_it() {
    let master = vec![
        entry("a", 1, true),
        entry("a/b", 2, true),
        entry("a/b/c", 3, false),
        entry("d", 1, false),
    ];
    let mut state = AppState::new(master, Some(3));
    assert_eq!(visible_paths(&state), vec!["a", "a/b", "a/b/c", "d"]);
    state.selected = Some(2);
    state.toggle_expansion(0);
    assert_eq!(visible_paths(&state), vec!["a", "d"]);
    assert_eq!(state.selected, Some(0));
    state.toggle_expansion(0);
    assert_eq!(visible_paths(&state), vec!["a", "a/b", "a/b/c", "d"]);
    assert_eq!(state.selected, Some(0));
}

#[test]
fn selection_follows_its_node_when_it_stays_visible() {
    let master = vec![entry("a", 1, true), entry("a/x", 2, false), entry("b", 1, false)];
    let mut state = AppState::new(master, None);
    state.selected = Some(1);
    state.toggle_expansion(0);
    assert_eq!(visible_paths(&state), vec!["a", "a/x", "b"]);
    assert_eq!(state.selected, Some(2));
}

#[test]
fn expanding_shows_the_children_right_after_the_directory() {
    let master = vec![
        entry("a", 1, false),
        entry("d", 1, true),
        entry("d/e", 2, true),
        entry("d/e/f", 3, false),
        entry("d/g", 2, false),
        entry("z", 1, false),
    ];
    let mut state = AppState::new(master, None);
    assert_eq!(visible_paths(&state), vec!["a", "d", "z"]);
    state.toggle_expansion(1);
    assert_eq!(visible_paths(&state), vec!["a", "d", "d/e", "d/g", "z"]);
}

#[test]
fn initial_expand_opens_directories_above_the_level() {
    let master = vec![entry("a", 1, true), entry("a/b", 2, true), entry("a/b/c", 3, false)];
    let state = AppState::new(master, Some(2));
    assert!(state.master_entries[0].is_expanded);
    assert!(!state.master_entries[1].is_expanded);
    assert_eq!(visible_paths(&state), vec!["a", "a/b"]);
}

#[test]
fn projection_depends_on_the_flags_alone() {
    let mut master = vec![entry("a", 1, true), entry("a/b", 2, false), entry("c", 1, false)];
    let first = project_visible(&master);
    let second = project_visible(&master);
    assert_eq!(first, second);
    assert_eq!(first, vec![0, 2]);
    master[0].is_expanded = true;
    assert_eq!(project_visible(&master), vec![0, 1, 2]);
}

#[test]
fn directories_first_scenario() {
    let options = SortOptions { directories_first: true, ..SortOptions::default() };
    let walk = vec![rec("c", 1, true), rec("a", 1, true), rec("a/b", 2, false)];
    assert!(is_walk_well_formed(&walk));
    let master = build_master(&walk, &options, false, false);
    let mut state = AppState::new(master, None);
    assert_eq!(visible_paths(&state), vec!["a", "c"]);
    state.toggle_expansion(0);
    assert_eq!(visible_paths(&state), vec!["a", "a/b", "c"]);
}

#[test]
fn builder_keeps_subtrees_under_their_roots() {
    let options = SortOptions::default();
    let walk = vec![
        rec("z", 1, true),
        rec("z/y", 2, false),
        rec("z/b", 2, true),
        rec("z/b/q", 3, false),
        rec("z/b/a", 3, false),
        rec("m", 1, false),
        rec("b", 1, true),
    ];
    let master = build_master(&walk, &options, false, false);
    let paths: Vec<String> = master.iter().map(|e| e.path.clone()).collect();
    assert_eq!(paths, vec!["b", "m", "z", "z/b", "z/b/a", "z/b/q", "z/y"]);
    let depths: Vec<usize> = master.iter().map(|e| e.depth).collect();
    assert_eq!(depths, vec![1, 1, 1, 2, 3, 3, 2]);
}

#[test]
fn builder_fills_display_fields_on_request() {
    let mut file = rec("f", 1, false);
    file.len = Some(42);
    file.mode = Some(0o644);
    file.status = Some(FileStatus::New);
    let mut dir = rec("d", 1, true);
    dir.len = Some(4096);
    dir.mode = Some(0o755);
    let walk = vec![file, dir];
    let options = SortOptions::default();
    let shown = build_master(&walk, &options, true, true);
    assert_eq!(shown[0].path, "d");
    assert_eq!(shown[0].size, None);
    assert_eq!(shown[0].permissions.as_deref(), Some("drwxr-xr-x"));
    assert_eq!(shown[1].size, Some(42));
    assert_eq!(shown[1].permissions.as_deref(), Some("-rw-r--r--"));
    assert_eq!(shown[1].git_status, Some(FileStatus::New));
    let bare = build_master(&walk, &options, false, false);
    assert_eq!(bare[1].size, None);
    assert_eq!(bare[1].permissions, None);
}

#[test]
fn walk_shape_checks() {
    assert!(is_walk_well_formed(&Vec::new()));
    assert!(!is_walk_well_formed(&vec![rec("a", 2, false)]));
    assert!(!is_walk_well_formed(&vec![rec("a", 1, false), rec("a/b", 2, false)]));
    assert!(!is_walk_well_formed(&vec![rec("a", 1, true), rec("a/b/c", 3, false)]));
    assert!(is_walk_well_formed(&vec![rec("a", 1, true), rec("a/b", 2, true), rec("c", 1, false)]));
}

#[test]
fn activate_toggles_directories_and_opens_files() {
    let mut state = setup_test_app_state();
    assert_eq!(state.activate(), None);
    assert_eq!(visible_paths(&state), vec!["src", "src/main.rs", "README.md"]);
    state.next();
    assert_eq!(state.activate(), Some(1));
    assert_eq!(visible_paths(&state), vec!["src", "src/main.rs", "README.md"]);
}

#[test]
fn equal_siblings_keep_walk_order() {
    let walk = vec![rec("d", 1, true), rec("d/B", 2, false), rec("d/b", 2, false), rec("A", 1, false), rec("a", 1, false)];
    let master = build_master(&walk, &SortOptions::default(), false, false);
    let paths: Vec<String> = master.iter().map(|e| e.path.clone()).collect();
    assert_eq!(paths, vec!["A", "a", "d", "d/B", "d/b"]);
}
