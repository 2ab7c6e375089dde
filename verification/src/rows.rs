use vstd::prelude::*;

use crate::display::{dash, decimal, format_date, format_size, push_decimal, shows_date, size_text};
use crate::path::{file_name_of, parent_of, path_file_name, path_parent};
use crate::text::{chars_of, string_from_chars, text_of};
use crate::types::{ResultEntry, ResultView, SearchStatus};

verus! {

broadcast use vstd::string::group_string_axioms;

/// How many results the results panel lists at most.
pub const DISPLAY_LIMIT: usize = 10000;

/// The icon in front of a result: a folder or a page.
pub open spec fn icon(is_dir: bool) -> char {
    if is_dir {
        '\u{1F4C1}'
    } else {
        '\u{1F4C4}'
    }
}

/// The name cell of a row: the icon, a space and the file name, or `???`
/// where the path has none.
pub open spec fn row_name(e: ResultEntry) -> Seq<char> {
    seq![icon(e.is_dir), ' '] + match path_file_name(e.path@) {
        Some(n) => n,
        None => seq!['?', '?', '?'],
    }
}

/// The folder cell of a row: the parent of the path, or nothing.
pub open spec fn row_folder(e: ResultEntry) -> Seq<char> {
    match path_parent(e.path@) {
        Some(p) => p,
        None => Seq::empty(),
    }
}

/// The size cell of a row: a dash for a directory, else the size.
pub open spec fn row_size(e: ResultEntry) -> Seq<char> {
    if e.is_dir {
        dash()
    } else {
        size_text(e.size as nat)
    }
}

/// The texts of one row of the results table.
pub struct ResultRow {
    pub name: String,
    pub folder: String,
    pub size: String,
    pub date: String,
}

/// Appends the characters of `v` to `out`.
fn push_all(out: &mut Vec<char>, v: &Vec<char>)
    ensures
        final(out)@ == old(out)@ + v@,
{
    let mut i: usize = 0;
    while i < v.len()
        invariant
            i <= v@.len(),
            out@ == old(out)@ + v@.take(i as int),
        decreases v@.len() - i,
    {
        out.push(v[i]);
        i = i + 1;
        assert(out@ =~= old(out)@ + v@.take(i as int));
    }
    assert(v@.take(i as int) =~= v@);
}

/// The texts of the row of a result in the table layouts: name, folder,
/// size and modification date.
pub fn result_row(e: &ResultEntry) -> (r: ResultRow)
    ensures
        r.name@ == row_name(*e),
        r.folder@ == row_folder(*e),
        r.size@ == row_size(*e),
        shows_date(e.modified as int, r.date@),
{
    let mut name: Vec<char> = Vec::new();
    name.push(
        if e.is_dir {
            '\u{1F4C1}'
        } else {
            '\u{1F4C4}'
        },
    );
    name.push(' ');
    let tail: Vec<char> = match file_name_of(e.path.as_str()) {
        Some(n) => chars_of(n.as_str()),
        None => vec!['?', '?', '?'],
    };
    push_all(&mut name, &tail);
    assert(name@ =~= row_name(*e));
    let folder = match parent_of(e.path.as_str()) {
        Some(p) => p,
        None => string_from_chars(Vec::new()),
    };
    let size = if e.is_dir {
        let v = vec!['\u{2014}'];
        assert(v@ =~= dash());
        string_from_chars(v)
    } else {
        format_size(e.size)
    };
    ResultRow { name: string_from_chars(name), folder, size, date: format_date(e.modified) }
}

/// The line of a result in the compact layout: the icon, a space and the
/// whole path.
pub fn result_line(e: &ResultEntry) -> (r: String)
    ensures
        r@ == seq![icon(e.is_dir), ' '] + e.path@,
{
    let mut line: Vec<char> = Vec::new();
    line.push(
        if e.is_dir {
            '\u{1F4C1}'
        } else {
            '\u{1F4C4}'
        },
    );
    line.push(' ');
    push_all(&mut line, &chars_of(e.path.as_str()));
    string_from_chars(line)
}

/// The note under a list cut at the display limit: the table with aligned
/// columns says why it is cut, the other layouts only how many are left out.
pub open spec fn hidden_note_text(hidden: nat, view: ResultView) -> Seq<char> {
    "… and "@ + decimal(hidden) + if view == ResultView::Aligned {
        " more (not shown to keep the UI responsive)"@
    } else {
        " more"@
    }
}

/// The note that says how many results the list leaves out in the given
/// layout, where it leaves any out.
pub fn hidden_rows_note(total: usize, view: ResultView) -> (r: Option<String>)
    ensures
        total <= DISPLAY_LIMIT ==> r is None,
        total > DISPLAY_LIMIT ==> (r matches Some(t) && t@ == hidden_note_text(
            (total - DISPLAY_LIMIT) as nat,
            view,
        )),
{
    if total <= DISPLAY_LIMIT {
        return None;
    }
    let hidden = total - DISPLAY_LIMIT;
    let mut out = chars_of("… and ");
    push_decimal(&mut out, hidden as u64);
    if view == ResultView::Aligned {
        push_all(&mut out, &chars_of(" more (not shown to keep the UI responsive)"));
    } else {
        push_all(&mut out, &chars_of(" more"));
    }
    Some(string_from_chars(out))
}

/// The status line above the results.
pub open spec fn status_text(status: SearchStatus, count: nat) -> Seq<char> {
    match status {
        SearchStatus::Idle => "Ready — type a pattern and press Search"@,
        SearchStatus::Searching => "Searching… "@ + decimal(count) + " matches so far"@,
        SearchStatus::Done => "Done — "@ + decimal(count) + " matches found"@,
    }
}

/// The status line above the results, for a search in the given state that
/// has found `count` results so far.
pub fn status_line(status: SearchStatus, count: usize) -> (r: String)
    ensures
        r@ == status_text(status, count as nat),
{
    match status {
        SearchStatus::Idle => text_of("Ready — type a pattern and press Search"),
        SearchStatus::Searching => {
            let mut out = chars_of("Searching… ");
            push_decimal(&mut out, count as u64);
            push_all(&mut out, &chars_of(" matches so far"));
            string_from_chars(out)
        },
        SearchStatus::Done => {
            let mut out = chars_of("Done — ");
            push_decimal(&mut out, count as u64);
            push_all(&mut out, &chars_of(" matches found"));
            string_from_chars(out)
        },
    }
}

} // verus!
