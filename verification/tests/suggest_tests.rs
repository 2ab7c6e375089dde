use fd_gui::suggest::{complete_extension, ext_suggestions, typed_extension};
use fd_gui::types::ResultEntry;

fn entry(path: &str) -> ResultEntry {
    ResultEntry { path: path.to_string(), is_dir: false, size: 0, modified: 0 }
}

/// The computation as the standard library writes it, to compare with.
fn reference_suggestions(filter: &str, paths: &[&str]) -> Vec<String> {
    let token = filter
        .split(|c: char| c == ',' || c == ';' || c.is_whitespace())
        .last()
        .unwrap_or("")
        .trim()
        .to_lowercase();
    if token.is_empty() {
        return Vec::new();
    }
    let mut s: Vec<String> = paths
        .iter()
        .filter_map(|p| std::path::Path::new(p).extension().and_then(|e| e.to_str()))
        .map(|e| e.to_lowercase())
        .filter(|e| e.starts_with(&token))
        .collect();
    s.sort();
    s.dedup();
    s
}

#[test]
fn typed_extension_is_the_last_piece() {
    assert_eq!(typed_extension("rs, py, T"), "t");
    assert_eq!(typed_extension("rs;PY"), "py");
    assert_eq!(typed_extension("rs, "), "");
    assert_eq!(typed_extension(""), "");
    assert_eq!(typed_extension(".Tx"), ".tx");
}

#[test]
fn suggestions_are_sorted_lowercase_and_unique() {
    let results = vec![
        entry("/a/main.RS"),
        entry("/a/lib.rs"),
        entry("/a/notes.rst"),
        entry("/a/Makefile"),
        entry("/a/data.Rsx"),
        entry("/a/x.py"),
    ];
    assert_eq!(ext_suggestions("py, r", &results), vec!["rs", "rst", "rsx"]);
    assert_eq!(ext_suggestions("RS", &results), vec!["rs", "rst", "rsx"]);
    assert_eq!(ext_suggestions("rst", &results), vec!["rst"]);
    assert!(ext_suggestions("q", &results).is_empty());
}

#[test]
fn no_suggestions_without_a_typed_extension() {
    let results = vec![entry("/a/b.rs")];
    assert!(ext_suggestions("", &results).is_empty());
    assert!(ext_suggestions("rs,", &results).is_empty());
    assert!(ext_suggestions("rs ", &results).is_empty());
    assert!(ext_suggestions("r", &Vec::new()).is_empty());
}

#[test]
fn suggestions_match_the_std_computation() {
    let paths = [
        "/p/a.TXT", "/p/b.txt", "/p/c.tar.gz", "/p/.hidden", "/p/d.Tx", "/p/e", "/p/f.toml",
        "/p/g.t", "/p/h.Ü", "/p/i.ü", "/p/j.txt", "/p/...", "/p/k.", "/p/.t.tmp", "/p/..",
        "/p/.tx", "/p/l.T.", "/p/m..t",
    ];
    let results: Vec<ResultEntry> = paths.iter().map(|p| entry(p)).collect();
    for filter in ["t", "T", "tx", "rs, t", "g", "ü", "Ü", "x", "", "t ", ";t", "gz", ".", "tm"] {
        assert_eq!(ext_suggestions(filter, &results), reference_suggestions(filter, &paths), "{filter}");
    }
}

#[test]
fn completing_replaces_the_typed_extension() {
    assert_eq!(complete_extension("rs, p", "p", "py"), "rs, py");
    assert_eq!(complete_extension("t", "t", "txt"), "txt");
    // every copy of the token that ends the filter goes
    assert_eq!(complete_extension("rs, aa", "a", "abc"), "rs, abc");
    // a token typed in another case is not found at the end
    assert_eq!(complete_extension("rs, P", "p", "py"), "rs, Ppy");
    assert_eq!(complete_extension("rs", "", "x"), "rsx");
}

#[test]
fn completing_agrees_with_trim_end_matches() {
    for (filter, token, choice) in [
        ("rs, p", "p", "py"),
        ("abab", "ab", "z"),
        ("aaa", "aa", "b"),
        ("x", "xy", "q"),
        ("", "a", "b"),
        ("éé", "é", "e"),
    ] {
        let expected = format!("{}{}", filter.trim_end_matches(token), choice);
        assert_eq!(complete_extension(filter, token, choice), expected);
    }
}
