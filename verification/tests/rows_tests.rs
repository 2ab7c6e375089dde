use fd_gui::rows::{hidden_rows_note, result_line, result_row, status_line, DISPLAY_LIMIT};
use fd_gui::types::{ResultEntry, ResultView, SearchStatus};

fn entry(path: &str, is_dir: bool, size: u64, modified: i64) -> ResultEntry {
    ResultEntry { path: path.to_string(), is_dir, size, modified }
}

#[test]
fn row_of_a_file() {
    let row = result_row(&entry("/home/u/notes.txt", false, 2048, 0));
    assert_eq!(row.name, "📄 notes.txt");
    assert_eq!(row.folder, "/home/u");
    assert_eq!(row.size, "2.0 KB");
    assert_eq!(row.date, "—");
}

#[test]
fn row_of_a_directory() {
    let row = result_row(&entry("/home/u/src", true, 4096, 86400 + 3600 + 60));
    assert_eq!(row.name, "📁 src");
    assert_eq!(row.folder, "/home/u");
    assert_eq!(row.size, "—");
    assert_eq!(row.date, "1970-01-02 01:01");
}

#[test]
fn row_without_file_name_or_parent() {
    let row = result_row(&entry("/", true, 0, -5));
    assert_eq!(row.name, "📁 ???");
    assert_eq!(row.folder, "");
    let row = result_row(&entry("/home/..", false, 0, 0));
    assert_eq!(row.name, "📄 ???");
    assert_eq!(row.folder, "/home");
    assert_eq!(row.size, "—");
}

#[test]
fn row_cells_agree_with_std_path() {
    for p in ["/a/b/c.rs", "rel/x", "x", "/", "a/./b", "/a/b/", "../up"] {
        let row = result_row(&entry(p, false, 1, 0));
        let path = std::path::Path::new(p);
        let name = path.file_name().and_then(|n| n.to_str()).unwrap_or("???");
        let parent = path.parent().and_then(|q| q.to_str()).unwrap_or("");
        assert_eq!(row.name, format!("📄 {name}"));
        assert_eq!(row.folder, parent);
    }
}

#[test]
fn compact_line() {
    assert_eq!(result_line(&entry("/home/u/notes.txt", false, 0, 0)), "📄 /home/u/notes.txt");
    assert_eq!(result_line(&entry("/home/u", true, 0, 0)), "📁 /home/u");
}

#[test]
fn hidden_rows_notes() {
    assert_eq!(DISPLAY_LIMIT, 10_000);
    assert_eq!(hidden_rows_note(0, ResultView::Aligned), None);
    assert_eq!(hidden_rows_note(10_000, ResultView::Aligned), None);
    assert_eq!(
        hidden_rows_note(10_001, ResultView::Aligned).as_deref(),
        Some("… and 1 more (not shown to keep the UI responsive)")
    );
    assert_eq!(hidden_rows_note(12_345, ResultView::Fluid).as_deref(), Some("… and 2345 more"));
    assert_eq!(hidden_rows_note(20_000, ResultView::Simple).as_deref(), Some("… and 10000 more"));
}

#[test]
fn status_lines() {
    assert_eq!(status_line(SearchStatus::Idle, 7), "Ready — type a pattern and press Search");
    assert_eq!(status_line(SearchStatus::Searching, 0), "Searching… 0 matches so far");
    assert_eq!(status_line(SearchStatus::Searching, 123), "Searching… 123 matches so far");
    assert_eq!(status_line(SearchStatus::Done, 45), "Done — 45 matches found");
}
