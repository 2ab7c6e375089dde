use fd_gui::dirtree::{DirGroup, DirTree, SearchDir};

fn dir(id: u64, path: &str, enabled: bool) -> SearchDir {
    SearchDir { id, path: path.to_string(), enabled }
}

fn group(id: u64, name: &str, enabled: bool, dirs: Vec<SearchDir>) -> DirGroup {
    DirGroup { id, name: name.to_string(), enabled, collapsed: false, dirs }
}

fn sample() -> DirTree {
    DirTree {
        free: vec![dir(0, "/a", true), dir(1, "/b", false)],
        groups: vec![
            group(2, "one", true, vec![dir(3, "/c", true), dir(4, "/d", true)]),
            group(5, "two", false, vec![dir(6, "/e", true)]),
        ],
        next_id: 7,
    }
}

fn ids(dirs: &[SearchDir]) -> Vec<u64> {
    dirs.iter().map(|d| d.id).collect()
}

#[test]
fn enabled_paths_in_order() {
    assert_eq!(sample().enabled_paths(), vec!["/a", "/c", "/d"]);
    assert!(DirTree::default().enabled_paths().is_empty());
}

#[test]
fn total_and_alloc() {
    let mut t = sample();
    assert_eq!(t.total_dirs(), 5);
    assert_eq!(t.alloc_id(), 7);
    assert_eq!(t.alloc_id(), 8);
    assert_eq!(t.next_id, 9);
}

#[test]
fn remove_dir_cases() {
    let mut t = sample();
    let d = t.remove_dir(1).unwrap();
    assert_eq!(d.path, "/b");
    assert_eq!(ids(&t.free), vec![0]);
    let d = t.remove_dir(4).unwrap();
    assert_eq!(d.path, "/d");
    assert_eq!(ids(&t.groups[0].dirs), vec![3]);
    assert!(t.remove_dir(99).is_none());
    assert_eq!(t.total_dirs(), 3);
}

#[test]
fn group_mut_finds_first() {
    let mut t = sample();
    t.group_mut(5).unwrap().name = "renamed".to_string();
    assert_eq!(t.groups[1].name, "renamed");
    assert!(t.group_mut(3).is_none());
}

#[test]
fn set_enabled_and_moves() {
    let mut t = sample();
    t.set_dir_enabled(1, true);
    assert!(t.free[1].enabled);
    t.set_dir_enabled(6, false);
    assert!(!t.groups[1].dirs[0].enabled);
    t.move_dir_into_group(0, 5);
    assert_eq!(ids(&t.free), vec![1]);
    assert_eq!(ids(&t.groups[1].dirs), vec![6, 0]);
    t.move_dir_to_free(3);
    assert_eq!(ids(&t.free), vec![1, 3]);
    assert_eq!(t.total_dirs(), 5);
    // a drop onto a group that is gone loses the directory
    t.move_dir_into_group(1, 42);
    assert_eq!(ids(&t.free), vec![3]);
    assert_eq!(t.total_dirs(), 4);
}

#[test]
fn add_directory_and_group() {
    let mut t = sample();
    assert!(!t.add_directory("/a/", true));
    assert!(!t.add_directory("/c", true));
    assert!(!t.add_directory("/new", false));
    assert!(t.add_directory("/new", true));
    assert_eq!(t.free[2].id, 7);
    assert_eq!(t.free[2].path, "/new");
    assert!(t.free[2].enabled);
    assert!(!t.add_group("   "));
    assert!(t.add_group("  docs  "));
    assert_eq!(t.groups[2].name, "docs");
    assert_eq!(t.groups[2].id, 8);
    assert_eq!(t.next_id, 9);
}

#[test]
fn migration_of_legacy_list() {
    let mut t = DirTree::default();
    t.migrate_loaded(vec![dir(50, "/x", true), dir(60, "/y", false)]);
    assert_eq!(ids(&t.free), vec![0, 1]);
    assert_eq!(t.free[1].path, "/y");
    assert!(!t.free[1].enabled);
    assert_eq!(t.next_id, 3);
}

#[test]
fn migration_repairs_next_id() {
    let mut t = sample();
    t.next_id = 0;
    t.migrate_loaded(Vec::new());
    assert_eq!(t.next_id, 16);
    let mut t = sample();
    t.groups[1].dirs.push(dir(40, "/z", true));
    t.migrate_loaded(vec![dir(1, "/ignored", true)]);
    assert_eq!(t.next_id, 41);
    assert_eq!(t.free.len(), 2);
    let fresh = t.alloc_id();
    assert!(t.free.iter().chain(t.groups.iter().flat_map(|g| g.dirs.iter())).all(|d| d.id != fresh));
}

#[test]
fn deleting_by_index() {
    let mut t = sample();
    t.delete_free_at(0);
    assert_eq!(ids(&t.free), vec![1]);
    t.delete_group_dir_at(0, 1);
    assert_eq!(ids(&t.groups[0].dirs), vec![3]);
    assert_eq!(t.groups[0].name, "one");
    assert_eq!(ids(&t.groups[1].dirs), vec![6]);
    t.delete_group_at(0);
    assert_eq!(t.groups.len(), 1);
    assert_eq!(t.groups[0].id, 5);
    assert_eq!(t.total_dirs(), 2);
    assert_eq!(t.next_id, 7);
}

#[test]
fn switching_and_folding_groups() {
    let mut t = sample();
    t.set_group_enabled(1, true);
    assert!(t.groups[1].enabled);
    assert_eq!(t.enabled_paths(), vec!["/a", "/c", "/d", "/e"]);
    t.set_group_enabled(0, false);
    assert_eq!(t.enabled_paths(), vec!["/a", "/e"]);
    t.set_group_collapsed(0, true);
    assert!(t.groups[0].collapsed);
    assert!(!t.groups[0].enabled);
    assert_eq!(ids(&t.groups[0].dirs), vec![3, 4]);
}

#[test]
fn reloading_a_saved_tree() {
    let saved = sample();
    let mut loaded = saved.clone();
    loaded.migrate_loaded(Vec::new());
    assert_eq!(ids(&loaded.free), ids(&saved.free));
    assert_eq!(loaded.groups.len(), saved.groups.len());
    for (a, b) in loaded.groups.iter().zip(saved.groups.iter()) {
        assert_eq!(a.id, b.id);
        assert_eq!(ids(&a.dirs), ids(&b.dirs));
    }
    assert_eq!(loaded.next_id, saved.next_id + 1);
}
