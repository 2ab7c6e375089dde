use fd_gui::dirtree::{DirGroup, DirTree, SearchDir};
use fd_gui::search::{parse_excludes, parse_extensions, plan_search, SearchPlan};
use fd_gui::text::{is_whitespace, trim_str};
use fd_gui::search::{collect_results, Poll};
use fd_gui::types::{ResultEntry, SearchStatus};

fn dir(id: u64, path: &str, enabled: bool) -> SearchDir {
    SearchDir { id, path: path.to_string(), enabled }
}

fn tree_with(paths: &[(&str, bool)]) -> DirTree {
    let mut t = DirTree::default();
    for (i, (p, on)) in paths.iter().enumerate() {
        t.free.push(dir(i as u64, p, *on));
    }
    t.next_id = paths.len() as u64;
    t
}

fn plan(pattern: &str, case_sensitive: bool, use_regex: bool, ext: &str, dirs_only: bool) -> SearchPlan {
    let tree = tree_with(&[("/home", true)]);
    match plan_search(&tree, pattern, case_sensitive, use_regex, false, false, true, ext, "", dirs_only) {
        Ok(p) => p,
        Err(e) => panic!("unexpected error {e}"),
    }
}

#[test]
fn extension_filter_examples() {
    assert_eq!(parse_extensions("rs, py, txt"), vec!["rs", "py", "txt"]);
    assert_eq!(parse_extensions(" .RS;;..Py\ttxt ,"), vec!["rs", "py", "txt"]);
    assert!(parse_extensions("").is_empty());
    assert!(parse_extensions(" , ; . ").is_empty());
    assert_eq!(parse_extensions("tar.gz"), vec!["tar.gz"]);
}

#[test]
fn exclude_filter_examples() {
    assert_eq!(parse_excludes("target, *.log"), vec!["target", "*.log"]);
    assert_eq!(parse_excludes(" a b ;; c ,"), vec!["a b", "c"]);
    assert!(parse_excludes("  ").is_empty());
}

#[test]
fn plan_errors() {
    let empty = DirTree::default();
    let e = plan_search(&empty, "x", false, false, false, false, true, "", "", false);
    assert_eq!(e.err(), Some("No directories enabled for search.".to_string()));
    let off = tree_with(&[("/home", false)]);
    let e = plan_search(&off, "x", false, false, false, false, true, "", "", false);
    assert_eq!(e.err(), Some("No directories enabled for search.".to_string()));
    let on = tree_with(&[("/home", true)]);
    let e = plan_search(&on, "  \t", false, false, false, false, true, "", "", false);
    assert_eq!(e.err(), Some("Enter a search pattern.".to_string()));
    let e = plan_search(&on, "(", false, true, false, false, true, "", "", false);
    let expected = format!("Invalid regex: {}", regex::Regex::new("(?i)(").unwrap_err());
    assert_eq!(e.err(), Some(expected));
    let e = plan_search(&on, "a[", true, true, false, false, true, "", "", false);
    let expected = format!("Invalid regex: {}", regex::Regex::new("a[").unwrap_err());
    assert_eq!(e.err(), Some(expected));
}

#[test]
fn plan_contents() {
    let mut tree = tree_with(&[("/a", true), ("/b", false)]);
    tree.groups.push(DirGroup {
        id: 9,
        name: "g".to_string(),
        enabled: true,
        collapsed: false,
        dirs: vec![dir(10, "/c", true), dir(11, "/d", false)],
    });
    tree.groups.push(DirGroup {
        id: 12,
        name: "h".to_string(),
        enabled: false,
        collapsed: false,
        dirs: vec![dir(13, "/e", true)],
    });
    let p = match plan_search(&tree, "Main", false, false, true, true, false, "RS, toml", "target; *.log", true) {
        Ok(p) => p,
        Err(e) => panic!("{e}"),
    };
    assert_eq!(p.roots, vec!["/a", "/c"]);
    assert_eq!(p.pattern, "Main");
    assert_eq!(p.pattern_lower, "main");
    assert_eq!(p.exts, vec!["rs", "toml"]);
    assert_eq!(p.exclude_overrides, vec!["!target", "!*.log"]);
    assert!(p.regex.is_none());
    assert!(p.show_hidden && p.follow_symlinks && !p.respect_ignorefiles && p.dirs_only);
}

#[test]
fn accepts_substring_matches() {
    let p = plan("Main", false, false, "", false);
    assert!(p.accepts("/src/main.rs", false));
    assert!(p.accepts("/src/DOMAIN.txt", false));
    assert!(!p.accepts("/main/lib.rs", false));
    let p = plan("Main", true, false, "", false);
    assert!(!p.accepts("/src/main.rs", false));
    assert!(p.accepts("/src/Main.rs", false));
}

#[test]
fn accepts_extension_filter() {
    let p = plan("a", false, false, "RS, .txt", false);
    assert!(p.accepts("/x/a.rs", false));
    assert!(p.accepts("/x/a.RS", false));
    assert!(p.accepts("/x/notes-a.TxT", false));
    assert!(!p.accepts("/x/a.py", false));
    assert!(!p.accepts("/x/a", false));
    assert!(!p.accepts("/x/.rs", false));
}

#[test]
fn accepts_regex_and_dirs_only() {
    let p = plan("^ma.n\\.rs$", false, true, "", false);
    assert!(p.accepts("/x/MAIN.rs", false));
    assert!(!p.accepts("/x/domain.rs", false));
    let p = plan("^ma.n\\.rs$", true, true, "", false);
    assert!(!p.accepts("/x/MAIN.rs", false));
    assert!(p.accepts("/x/main.rs", false));
    let p = plan("src", false, false, "", true);
    assert!(p.accepts("/x/src", true));
    assert!(!p.accepts("/x/src", false));
    assert!(!p.accepts("/", true));
}

#[test]
fn whitespace_matches_std_on_every_char() {
    for n in 0..=0x10FFFFu32 {
        if let Some(c) = char::from_u32(n) {
            assert_eq!(is_whitespace(c), c.is_whitespace(), "char {n:#x}");
        }
    }
}

#[test]
fn trim_matches_std() {
    for s in ["", "  ", " a ", "\u{3000}x y\u{a0}", "\tab\n", "x"] {
        assert_eq!(trim_str(s), s.trim());
    }
}

#[test]
fn collect_steps() {
    let mut results: Vec<ResultEntry> = Vec::new();
    let e = ResultEntry { path: "/f".to_string(), is_dir: false, size: 1, modified: 2 };
    assert_eq!(collect_results(&mut results, Some(Poll::Received(e))), None);
    assert_eq!(results.len(), 1);
    assert_eq!(collect_results(&mut results, Some(Poll::Empty)), Some(SearchStatus::Searching));
    assert_eq!(collect_results(&mut results, Some(Poll::Disconnected)), Some(SearchStatus::Done));
    assert_eq!(collect_results(&mut results, None), Some(SearchStatus::Idle));
    assert_eq!(results.len(), 1);
}
