use std::cmp::Reverse;
use std::path::Path;

use fd_gui::path::file_name_key;
use fd_gui::sort::apply_sort;
use fd_gui::types::{ResultEntry, ResultView, SortOrder};

fn entry(path: &str, size: u64, modified: i64) -> ResultEntry {
    ResultEntry { path: path.to_string(), is_dir: false, size, modified }
}

fn reference_key(p: &str) -> String {
    Path::new(p).file_name().and_then(|n| n.to_str()).unwrap_or("").to_lowercase()
}

fn reference_sort(results: &mut Vec<ResultEntry>, order: SortOrder) {
    match order {
        SortOrder::NameAsc => results.sort_by_key(|e| reference_key(&e.path)),
        SortOrder::NameDesc => results.sort_by_key(|e| Reverse(reference_key(&e.path))),
        SortOrder::PathAsc => results.sort_by(|a, b| Path::new(&a.path).cmp(Path::new(&b.path))),
        SortOrder::PathDesc => results.sort_by(|a, b| Path::new(&b.path).cmp(Path::new(&a.path))),
        SortOrder::SizeAsc => results.sort_by_key(|e| e.size),
        SortOrder::SizeDesc => results.sort_by_key(|e| Reverse(e.size)),
        SortOrder::ModifiedAsc => results.sort_by_key(|e| e.modified),
        SortOrder::ModifiedDesc => results.sort_by_key(|e| Reverse(e.modified)),
    }
}

fn summary(v: &[ResultEntry]) -> Vec<(String, u64, i64)> {
    v.iter().map(|e| (e.path.clone(), e.size, e.modified)).collect()
}

fn sample() -> Vec<ResultEntry> {
    let names = [
        "/a/Zeta.txt", "/a/alpha.rs", "/b/Alpha.rs", "/b/beta", "/a/b/c", "/a.b/c", "/a/b/",
        "/x/ÉCOLE.md", "/x/école.md", "/x/Ärger", "/y/z/", "/y//z", "/", "/m/ab", "/m/aB",
        "/q/.hidden", "/q/..", "/r/report.final.PDF", "/r/report.final.pdf", "/r/a b",
    ];
    let mut out = Vec::new();
    let mut x: u64 = 12345;
    for (i, n) in names.iter().enumerate() {
        x = x.wrapping_mul(6364136223846793005).wrapping_add(1442695040888963407);
        out.push(entry(n, (x >> 60) % 4, ((x >> 50) % 3) as i64 - 1 + i as i64 % 2));
    }
    out
}

#[test]
fn sort_agrees_with_std_stable_sorts() {
    for order in SortOrder::all() {
        let mut mine = sample();
        let mut theirs = sample();
        apply_sort(&mut mine, order);
        reference_sort(&mut theirs, order);
        assert_eq!(summary(&mine), summary(&theirs), "order {}", order.label());
    }
}

#[test]
fn sort_agrees_on_larger_inputs() {
    let mut x: u64 = 7;
    let mut base = Vec::new();
    for i in 0..3000u64 {
        x ^= x << 13;
        x ^= x >> 7;
        x ^= x << 17;
        let name = format!("/d{}/F{}{}", x % 5, (x >> 8) % 30, if i % 3 == 0 { ".TXT" } else { ".txt" });
        base.push(entry(&name, (x >> 20) % 50, ((x >> 30) % 40) as i64 - 20));
    }
    for order in SortOrder::all() {
        let mut mine = base.clone();
        let mut theirs = base.clone();
        apply_sort(&mut mine, order);
        reference_sort(&mut theirs, order);
        assert_eq!(summary(&mine), summary(&theirs), "order {}", order.label());
    }
}

#[test]
fn sort_empty_and_single() {
    let mut v: Vec<ResultEntry> = Vec::new();
    apply_sort(&mut v, SortOrder::NameAsc);
    assert!(v.is_empty());
    let mut v = vec![entry("/only", 3, 4)];
    apply_sort(&mut v, SortOrder::SizeDesc);
    assert_eq!(summary(&v), vec![("/only".to_string(), 3, 4)]);
}

#[test]
fn sort_descending_keeps_ties_in_place() {
    let mut v = vec![entry("/1", 5, 0), entry("/2", 7, 0), entry("/3", 5, 0), entry("/4", 7, 0)];
    apply_sort(&mut v, SortOrder::SizeDesc);
    let paths: Vec<String> = v.iter().map(|e| e.path.clone()).collect();
    assert_eq!(paths, vec!["/2", "/4", "/1", "/3"]);
}

#[test]
fn name_key_examples() {
    assert_eq!(file_name_key("/tmp/Hello.TXT"), "hello.txt");
    assert_eq!(file_name_key("/"), "");
    assert_eq!(file_name_key("/a/b/.."), "");
    assert_eq!(file_name_key("dir/Sub/"), "sub");
}

#[test]
fn labels() {
    let labels: Vec<&str> = SortOrder::all().into_iter().map(|o| o.label()).collect();
    assert_eq!(
        labels,
        vec![
            "Name (Asc)", "Name (Des)", "Path (Asc)", "Path (Des)", "Size (Asc)", "Size (Des)",
            "Modified (Asc)", "Modified (Des)",
        ]
    );
    assert_eq!(ResultView::Aligned.label(), "Table (aligned)");
    assert_eq!(ResultView::Fluid.label(), "Table (fluid)");
    assert_eq!(ResultView::Simple.label(), "Table (compact)");
    assert_eq!(ResultView::default(), ResultView::Aligned);
}

#[test]
fn descending_reverses_ascending_without_ties() {
    let input = vec![
        entry("/z/b.txt", 30, 7),
        entry("/a/c/d", 10, 3),
        entry("/a/b", 20, 9),
        entry("/a/b/c", 50, 1),
        entry("/m/A.md", 40, 5),
    ];
    for (asc, desc) in [
        (SortOrder::NameAsc, SortOrder::NameDesc),
        (SortOrder::PathAsc, SortOrder::PathDesc),
        (SortOrder::SizeAsc, SortOrder::SizeDesc),
        (SortOrder::ModifiedAsc, SortOrder::ModifiedDesc),
    ] {
        let mut a = input.clone();
        apply_sort(&mut a, asc);
        let mut b = input.clone();
        apply_sort(&mut b, desc);
        let mut a_rev = summary(&a);
        a_rev.reverse();
        assert_eq!(summary(&b), a_rev);
    }
}

#[test]
fn path_sort_is_sorted_and_keeps_ties() {
    // "/a/./b" and "/a/b" are equal paths for `Path`'s order
    let input = vec![
        entry("/a/b", 1, 0),
        entry("/c", 2, 0),
        entry("/a/./b", 3, 0),
        entry("/a", 4, 0),
        entry("/a/b", 5, 0),
    ];
    let mut got = input.clone();
    apply_sort(&mut got, SortOrder::PathAsc);
    let sizes: Vec<u64> = got.iter().map(|e| e.size).collect();
    assert_eq!(sizes, vec![4, 1, 3, 5, 2]);
    let mut got = input.clone();
    apply_sort(&mut got, SortOrder::PathDesc);
    let sizes: Vec<u64> = got.iter().map(|e| e.size).collect();
    assert_eq!(sizes, vec![2, 1, 3, 5, 4]);
}
