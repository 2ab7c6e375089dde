use vstd::prelude::*;

use crate::dirtree::{enabled_group_paths, enabled_paths_of, DirTree};
use crate::types::{ResultEntry, SearchStatus};
use crate::path::{extension_of, file_name_of, path_extension, path_file_name};
use crate::text::{
    chars_of, contains_chars, find_chars, lowercase, split_chars, split_pieces, string_from_chars,
    strip_dots, strip_leading_dots, text_of, to_lowercase, trim, trim_chars,
};

verus! {

broadcast use vstd::string::group_string_axioms;

#[verifier::external_type_specification]
#[verifier::external_body]
pub struct ExRegex(regex::Regex);

/// What `regex::Regex::new` says of a pattern: `None` where it compiles, else
/// the text of its error.
pub uninterp spec fn regex_compile_error(pattern: Seq<char>) -> Option<Seq<char>>;

/// What `regex::Regex::is_match` gives for the regex compiled from `pattern`
/// and a text.
pub uninterp spec fn regex_matches(pattern: Seq<char>, text: Seq<char>) -> bool;

/// A compiled regex together with the pattern it was compiled from. Only
/// `compile_regex` makes one.
pub struct FileNameRegex {
    re: regex::Regex,
    source: String,
}

impl FileNameRegex {
    /// The pattern the regex was compiled from.
    pub closed spec fn source(&self) -> Seq<char> {
        self.source@
    }
}

/// `regex::Regex::new` on a pattern, with the error turned into its text.
/// The contract names both outcomes: it compiles exactly when the name says
/// so, and an error carries the text the name gives.
#[verifier::external_body]
fn compile_regex(pattern: &str) -> (r: Result<FileNameRegex, String>)
    ensures
        r is Ok <==> regex_compile_error(pattern@) is None,
        r matches Ok(x) ==> x.source() == pattern@,
        r matches Err(e) ==> regex_compile_error(pattern@) == Some(e@),
{
    match regex::Regex::new(pattern) {
        Ok(re) => Ok(FileNameRegex { re, source: pattern.to_string() }),
        Err(e) => Err(e.to_string()),
    }
}

/// `regex::Regex::is_match` on a text, for a regex compiled from
/// `re.source()`; the contract names the result.
#[verifier::external_body]
fn regex_is_match(re: &FileNameRegex, text: &str) -> (r: bool)
    ensures
        r == regex_matches(re.source(), text@),
{
    re.re.is_match(text)
}

/// An extension as the filter lists it: trimmed, without leading dots.
pub open spec fn extension_token(piece: Seq<char>) -> Seq<char> {
    strip_leading_dots(trim(piece))
}

/// The lowercased non-empty extension tokens of the pieces, in order.
pub open spec fn extension_tokens(pieces: Seq<Seq<char>>) -> Seq<Seq<char>>
    decreases pieces.len(),
{
    if pieces.len() == 0 {
        Seq::empty()
    } else {
        let r = extension_tokens(pieces.drop_last());
        let t = extension_token(pieces.last());
        if t.len() > 0 {
            r.push(lowercase(t))
        } else {
            r
        }
    }
}

/// The extensions an extension filter such as `rs, .py;txt` names.
pub open spec fn extension_list(filter: Seq<char>) -> Seq<Seq<char>> {
    extension_tokens(split_pieces(filter, true))
}

/// The trimmed non-empty pieces, in order.
pub open spec fn glob_tokens(pieces: Seq<Seq<char>>) -> Seq<Seq<char>>
    decreases pieces.len(),
{
    if pieces.len() == 0 {
        Seq::empty()
    } else {
        let r = glob_tokens(pieces.drop_last());
        let t = trim(pieces.last());
        if t.len() > 0 {
            r.push(t)
        } else {
            r
        }
    }
}

/// The globs an exclude filter such as `target, *.log` names.
pub open spec fn glob_list(filter: Seq<char>) -> Seq<Seq<char>> {
    glob_tokens(split_pieces(filter, false))
}

/// The extension tokens of the pieces are, lowercased, the pieces that are
/// non-empty once trimmed and stripped of leading dots, and nothing else.
proof fn lemma_extension_tokens(pieces: Seq<Seq<char>>)
    ensures
        forall|k: int|
            0 <= k < pieces.len() && strip_leading_dots(trim(pieces[k])).len() > 0
                ==> extension_tokens(pieces).contains(
                lowercase(strip_leading_dots(trim(#[trigger] pieces[k]))),
            ),
        forall|x: Seq<char>|
            extension_tokens(pieces).contains(x) ==> exists|k: int|
                0 <= k < pieces.len() && strip_leading_dots(trim(#[trigger] pieces[k])).len() > 0
                    && x == lowercase(strip_leading_dots(trim(pieces[k]))),
    decreases pieces.len(),
{
    if pieces.len() > 0 {
        let init = pieces.drop_last();
        lemma_extension_tokens(init);
        let ri = extension_tokens(init);
        let r = extension_tokens(pieces);
        let t = strip_leading_dots(trim(pieces.last()));
        assert forall|k: int|
            0 <= k < pieces.len() && strip_leading_dots(trim(pieces[k])).len() > 0 implies r.contains(
            lowercase(strip_leading_dots(trim(#[trigger] pieces[k]))),
        ) by {
            if k < pieces.len() - 1 {
                assert(init[k] == pieces[k]);
                let y = lowercase(strip_leading_dots(trim(init[k])));
                assert(ri.contains(y));
                let j = choose|j: int| 0 <= j < ri.len() && ri[j] == y;
                assert(r[j] == ri[j]);
            } else {
                assert(r[r.len() - 1] == lowercase(t));
            }
        }
        assert forall|x: Seq<char>| r.contains(x) implies exists|k: int|
            0 <= k < pieces.len() && strip_leading_dots(trim(#[trigger] pieces[k])).len() > 0 && x
                == lowercase(strip_leading_dots(trim(pieces[k]))) by {
            let j = choose|j: int| 0 <= j < r.len() && r[j] == x;
            if j < ri.len() {
                assert(ri[j] == x);
                assert(ri.contains(x));
                let k = choose|k: int|
                    0 <= k < init.len() && strip_leading_dots(trim(#[trigger] init[k])).len() > 0
                        && x == lowercase(strip_leading_dots(trim(init[k])));
                assert(pieces[k] == init[k]);
            } else {
                assert(pieces[pieces.len() - 1] == pieces.last());
            }
        }
    }
}

/// The parsed extension filter: every piece between separators (`,`, `;`,
/// white space) that is non-empty once trimmed and stripped of its leading
/// dots is listed, lowercased, whatever its length; nothing else is.
pub proof fn lemma_extension_list_law(filter: Seq<char>)
    ensures
        forall|k: int|
            0 <= k < split_pieces(filter, true).len() && strip_leading_dots(
                trim(split_pieces(filter, true)[k]),
            ).len() > 0 ==> extension_list(filter).contains(
                lowercase(strip_leading_dots(trim(#[trigger] split_pieces(filter, true)[k]))),
            ),
        forall|x: Seq<char>|
            extension_list(filter).contains(x) ==> exists|k: int|
                0 <= k < split_pieces(filter, true).len() && strip_leading_dots(
                    trim(#[trigger] split_pieces(filter, true)[k]),
                ).len() > 0 && x == lowercase(strip_leading_dots(trim(split_pieces(filter, true)[k]))),
{
    lemma_extension_tokens(split_pieces(filter, true));
}

/// The glob tokens of the pieces are the pieces that are non-empty once
/// trimmed, trimmed, and nothing else.
proof fn lemma_glob_tokens(pieces: Seq<Seq<char>>)
    ensures
        forall|k: int|
            0 <= k < pieces.len() && trim(pieces[k]).len() > 0 ==> glob_tokens(pieces).contains(
                trim(#[trigger] pieces[k]),
            ),
        forall|x: Seq<char>|
            glob_tokens(pieces).contains(x) ==> exists|k: int|
                0 <= k < pieces.len() && trim(#[trigger] pieces[k]).len() > 0 && x == trim(pieces[k]),
    decreases pieces.len(),
{
    if pieces.len() > 0 {
        let init = pieces.drop_last();
        lemma_glob_tokens(init);
        let ri = glob_tokens(init);
        let r = glob_tokens(pieces);
        assert forall|k: int| 0 <= k < pieces.len() && trim(pieces[k]).len() > 0 implies r.contains(
            trim(#[trigger] pieces[k]),
        ) by {
            if k < pieces.len() - 1 {
                assert(init[k] == pieces[k]);
                assert(ri.contains(trim(init[k])));
                let j = choose|j: int| 0 <= j < ri.len() && ri[j] == trim(init[k]);
                assert(r[j] == ri[j]);
            } else {
                assert(r[r.len() - 1] == trim(pieces.last()));
            }
        }
        assert forall|x: Seq<char>| r.contains(x) implies exists|k: int|
            0 <= k < pieces.len() && trim(#[trigger] pieces[k]).len() > 0 && x == trim(
                pieces[k],
            ) by {
            let j = choose|j: int| 0 <= j < r.len() && r[j] == x;
            if j < ri.len() {
                assert(ri[j] == x);
                assert(ri.contains(x));
                let k = choose|k: int|
                    0 <= k < init.len() && trim(#[trigger] init[k]).len() > 0 && x == trim(init[k]);
                assert(pieces[k] == init[k]);
            } else {
                assert(pieces[pieces.len() - 1] == pieces.last());
            }
        }
    }
}

/// The parsed exclude filter: every piece between `,` and `;` that is
/// non-empty once trimmed is listed, trimmed; nothing else is.
pub proof fn lemma_glob_list_law(filter: Seq<char>)
    ensures
        forall|k: int|
            0 <= k < split_pieces(filter, false).len() && trim(split_pieces(filter, false)[k]).len()
                > 0 ==> glob_list(filter).contains(trim(#[trigger] split_pieces(filter, false)[k])),
        forall|x: Seq<char>|
            glob_list(filter).contains(x) ==> exists|k: int|
                0 <= k < split_pieces(filter, false).len() && trim(
                    #[trigger] split_pieces(filter, false)[k],
                ).len() > 0 && x == trim(split_pieces(filter, false)[k]),
{
    lemma_glob_tokens(split_pieces(filter, false));
}

/// The characters of each string.
pub open spec fn views(v: Seq<String>) -> Seq<Seq<char>> {
    v.map_values(|s: String| s@)
}

/// Parses an extension filter: splits it at commas, semicolons and white
/// space, trims each piece and strips its leading dots, drops empty pieces
/// and lowercases the rest.
pub fn parse_extensions(filter: &str) -> (r: Vec<String>)
    ensures
        views(r@) == extension_list(filter@),
{
    let cs = chars_of(filter);
    let pieces = split_chars(&cs, true);
    let ghost pv = pieces@.map_values(|p: Vec<char>| p@);
    let mut out: Vec<String> = Vec::new();
    let mut i: usize = 0;
    while i < pieces.len()
        invariant
            i <= pieces@.len(),
            pv == pieces@.map_values(|p: Vec<char>| p@),
            pv == split_pieces(filter@, true),
            views(out@) == extension_tokens(pv.take(i as int)),
        decreases pieces@.len() - i,
    {
        assert(pv.take(i + 1).drop_last() =~= pv.take(i as int));
        assert(pv.take(i + 1).last() == pieces@[i as int]@);
        let t = strip_dots(&trim_chars(&pieces[i]));
        let ghost before = out@;
        if t.len() > 0 {
            let s = string_from_chars(t);
            let low = to_lowercase(s.as_str());
            out.push(low);
            assert(views(out@) =~= views(before).push(low@));
        }
        i = i + 1;
    }
    assert(pv.take(i as int) =~= pv);
    out
}

/// Parses an exclude filter: splits it at commas and semicolons, trims each
/// piece and drops empty ones.
pub fn parse_excludes(filter: &str) -> (r: Vec<String>)
    ensures
        views(r@) == glob_list(filter@),
{
    let cs = chars_of(filter);
    let pieces = split_chars(&cs, false);
    let ghost pv = pieces@.map_values(|p: Vec<char>| p@);
    let mut out: Vec<String> = Vec::new();
    let mut i: usize = 0;
    while i < pieces.len()
        invariant
            i <= pieces@.len(),
            pv == pieces@.map_values(|p: Vec<char>| p@),
            pv == split_pieces(filter@, false),
            views(out@) == glob_tokens(pv.take(i as int)),
        decreases pieces@.len() - i,
    {
        assert(pv.take(i + 1).drop_last() =~= pv.take(i as int));
        assert(pv.take(i + 1).last() == pieces@[i as int]@);
        let t = trim_chars(&pieces[i]);
        let ghost before = out@;
        if t.len() > 0 {
            let s = string_from_chars(t);
            out.push(s);
            assert(views(out@) =~= views(before).push(s@));
        }
        i = i + 1;
    }
    assert(pv.take(i as int) =~= pv);
    out
}

/// Everything a walk of the file system needs to decide which entries are
/// results: the roots to walk, the walker's switches, the excludes as
/// override globs, and how file names are matched.
pub struct SearchPlan {
    pub roots: Vec<String>,
    pub pattern: String,
    pub pattern_lower: String,
    pub case_sensitive: bool,
    pub regex: Option<FileNameRegex>,
    pub exts: Vec<String>,
    pub exclude_overrides: Vec<String>,
    pub show_hidden: bool,
    pub follow_symlinks: bool,
    pub respect_ignorefiles: bool,
    pub dirs_only: bool,
}

/// The regex a search compiles: the pattern itself when matching is case
/// sensitive, else the pattern behind the case-insensitive flag `(?i)`.
pub open spec fn regex_source(pattern: Seq<char>, case_sensitive: bool) -> Seq<char> {
    if case_sensitive {
        pattern
    } else {
        seq!['(', '?', 'i', ')'] + pattern
    }
}

/// The regex compiled for a pattern is the pattern itself when matching is
/// case sensitive, else the pattern behind the case-insensitive flag `(?i)`.
pub proof fn lemma_regex_source_law(pattern: Seq<char>)
    ensures
        regex_source(pattern, true) == pattern,
        regex_source(pattern, false).len() == pattern.len() + 4,
        regex_source(pattern, false).take(4) == seq!['(', '?', 'i', ')'],
        regex_source(pattern, false).skip(4) == pattern,
{
    assert(regex_source(pattern, false).take(4) =~= seq!['(', '?', 'i', ')']);
    assert(regex_source(pattern, false).skip(4) =~= pattern);
}

/// The override globs that keep the excluded names out of a walk.
pub open spec fn exclude_overrides(filter: Seq<char>) -> Seq<Seq<char>> {
    glob_list(filter).map_values(|g: Seq<char>| seq!['!'] + g)
}

/// The error when no directory is enabled.
pub open spec fn no_dirs_message() -> Seq<char> {
    "No directories enabled for search."@
}

/// The error when the pattern is empty.
pub open spec fn no_pattern_message() -> Seq<char> {
    "Enter a search pattern."@
}

/// What the error for a pattern that does not compile starts with.
pub open spec fn bad_regex_prefix() -> Seq<char> {
    "Invalid regex: "@
}

/// Checks the search settings and prepares a walk: fails when no directory
/// is enabled, when the pattern is blank, or when regex matching is on and
/// the pattern does not compile; else gathers the enabled roots, the parsed
/// extension and exclude filters and the matcher.
pub fn plan_search(
    dir_tree: &DirTree,
    pattern: &str,
    case_sensitive: bool,
    use_regex: bool,
    show_hidden: bool,
    follow_symlinks: bool,
    respect_ignorefiles: bool,
    ext_filter: &str,
    exclude_filter: &str,
    dirs_only: bool,
) -> (r: Result<SearchPlan, String>)
    ensures
        ({
            let roots = enabled_paths_of(dir_tree.free@) + enabled_group_paths(dir_tree.groups@);
            let source = regex_source(pattern@, case_sensitive);
            &&& roots.len() == 0 ==> (r matches Err(m) && m@ == no_dirs_message())
            &&& roots.len() > 0 && trim(pattern@).len() == 0 ==> (r matches Err(m) && m@
                == no_pattern_message())
            &&& roots.len() > 0 && trim(pattern@).len() > 0 && use_regex && regex_compile_error(
                source,
            ) is Some ==> (r matches Err(m) && m@ == bad_regex_prefix() + regex_compile_error(
                source,
            )->0)
            &&& roots.len() > 0 && trim(pattern@).len() > 0 && !(use_regex && regex_compile_error(
                source,
            ) is Some) ==> (r matches Ok(plan) && {
                &&& views(plan.roots@) == roots
                &&& plan.pattern@ == pattern@
                &&& plan.pattern_lower@ == lowercase(pattern@)
                &&& plan.case_sensitive == case_sensitive
                &&& (plan.regex is Some <==> use_regex)
                &&& (plan.regex matches Some(re) ==> re.source() == source)
                &&& views(plan.exts@) == extension_list(ext_filter@)
                &&& views(plan.exclude_overrides@) == exclude_overrides(exclude_filter@)
                &&& plan.show_hidden == show_hidden
                &&& plan.follow_symlinks == follow_symlinks
                &&& plan.respect_ignorefiles == respect_ignorefiles
                &&& plan.dirs_only == dirs_only
            })
        }),
{
    let roots = dir_tree.enabled_paths();
    if roots.len() == 0 {
        proof {
            reveal_strlit("No directories enabled for search.");
            assert(roots@.map_values(|p: String| p@).len() == roots@.len());
        }
        return Err(text_of("No directories enabled for search."));
    }
    proof {
        assert(roots@.map_values(|p: String| p@).len() == roots@.len());
    }
    let pc = chars_of(pattern);
    if trim_chars(&pc).len() == 0 {
        proof {
            reveal_strlit("Enter a search pattern.");
        }
        return Err(text_of("Enter a search pattern."));
    }
    let regex = if use_regex {
        let source = if case_sensitive {
            text_of(pattern)
        } else {
            let mut v: Vec<char> = vec!['(', '?', 'i', ')'];
            let mut k: usize = 0;
            let ghost head = v@;
            while k < pc.len()
                invariant
                    k <= pc@.len(),
                    head == seq!['(', '?', 'i', ')'],
                    v@ == head + pc@.take(k as int),
                decreases pc@.len() - k,
            {
                v.push(pc[k]);
                k = k + 1;
                assert(v@ =~= head + pc@.take(k as int));
            }
            assert(pc@.take(k as int) =~= pc@);
            string_from_chars(v)
        };
        assert(source@ == regex_source(pattern@, case_sensitive));
        match compile_regex(source.as_str()) {
            Ok(re) => Some(re),
            Err(e) => {
                let mut m = chars_of("Invalid regex: ");
                let ec = chars_of(e.as_str());
                let ghost head = m@;
                let mut k: usize = 0;
                while k < ec.len()
                    invariant
                        k <= ec@.len(),
                        m@ == head + ec@.take(k as int),
                    decreases ec@.len() - k,
                {
                    m.push(ec[k]);
                    k = k + 1;
                    assert(m@ =~= head + ec@.take(k as int));
                }
                assert(ec@.take(k as int) =~= ec@);
                return Err(string_from_chars(m));
            },
        }
    } else {
        None
    };
    let exts = parse_extensions(ext_filter);
    let globs = parse_excludes(exclude_filter);
    let mut overrides: Vec<String> = Vec::new();
    let mut i: usize = 0;
    while i < globs.len()
        invariant
            i <= globs@.len(),
            views(overrides@) == views(globs@).take(i as int).map_values(
                |g: Seq<char>| seq!['!'] + g,
            ),
        decreases globs@.len() - i,
    {
        let mut v: Vec<char> = vec!['!'];
        let gc = chars_of(globs[i].as_str());
        let mut k: usize = 0;
        while k < gc.len()
            invariant
                k <= gc@.len(),
                v@ == seq!['!'] + gc@.take(k as int),
            decreases gc@.len() - k,
        {
            v.push(gc[k]);
            k = k + 1;
            assert(v@ =~= seq!['!'] + gc@.take(k as int));
        }
        assert(gc@.take(k as int) =~= gc@);
        let ghost before = overrides@;
        let o = string_from_chars(v);
        assert(o@ == seq!['!'] + globs@[i as int]@);
        overrides.push(o);
        assert(views(overrides@) =~= views(before).push(seq!['!'] + globs@[i as int]@));
        assert(views(globs@).take(i + 1) =~= views(globs@).take(i as int).push(globs@[i as int]@));
        i = i + 1;
        assert(views(overrides@) =~= views(globs@).take(i as int).map_values(
            |g: Seq<char>| seq!['!'] + g,
        ));
    }
    assert(views(globs@).take(i as int) =~= views(globs@));
    let pattern_lower = to_lowercase(pattern);
    Ok(
        SearchPlan {
            roots,
            pattern: text_of(pattern),
            pattern_lower,
            case_sensitive,
            regex,
            exts,
            exclude_overrides: overrides,
            show_hidden,
            follow_symlinks,
            respect_ignorefiles,
            dirs_only,
        },
    )
}

/// Whether the extension filter lets a path through: it is empty, or the
/// path's lowercased extension is one of the listed ones.
pub open spec fn extension_allowed(exts: Seq<Seq<char>>, path: Seq<char>) -> bool {
    exts.len() == 0 || (path_extension(path) matches Some(e) && exts.contains(lowercase(e)))
}

/// Whether a file name matches the search pattern: by the regex where there
/// is one, else as a substring, lowercased on both sides unless matching is
/// case sensitive.
pub open spec fn name_matches(plan: SearchPlan, name: Seq<char>) -> bool {
    match plan.regex {
        Some(re) => regex_matches(re.source(), name),
        None => if plan.case_sensitive {
            contains_chars(name, plan.pattern@)
        } else {
            contains_chars(lowercase(name), plan.pattern_lower@)
        },
    }
}

/// Whether a walked entry is a result of the search.
pub open spec fn entry_accepted(plan: SearchPlan, path: Seq<char>, is_dir: bool) -> bool {
    &&& extension_allowed(views(plan.exts@), path)
    &&& (path_file_name(path) matches Some(name) && name_matches(plan, name))
    &&& !(plan.dirs_only && !is_dir)
}

/// Directories and files are treated alike unless only directories are
/// asked for: with that option off, an entry is accepted as a directory
/// exactly when it is accepted as a file; with it on, no file is accepted,
/// and a directory is accepted exactly when the same entry would be with the
/// option off.
pub proof fn lemma_accepts_directories(plan: SearchPlan, path: Seq<char>)
    ensures
        !plan.dirs_only ==> entry_accepted(plan, path, true) == entry_accepted(plan, path, false),
        plan.dirs_only ==> !entry_accepted(plan, path, false),
        entry_accepted(plan, path, true) == (extension_allowed(views(plan.exts@), path) && (
        path_file_name(path) matches Some(n) && name_matches(plan, n))),
{
}

/// When an entry is a result: the extension filter is empty or lists the
/// entry's extension, lowercased; the entry has a file name that matches the
/// pattern; and it is a directory or not only directories are asked for.
/// A name matches a regex as `regex` says, else it holds the pattern as a
/// run of characters (both lowercased unless matching is case sensitive).
pub proof fn lemma_accepts_law(plan: SearchPlan, path: Seq<char>, is_dir: bool)
    ensures
        entry_accepted(plan, path, is_dir) == {
            &&& plan.exts@.len() == 0 || (path_extension(path) matches Some(e) && exists|k: int|
                0 <= k < plan.exts@.len() && #[trigger] plan.exts@[k]@ == lowercase(e))
            &&& path_file_name(path) matches Some(n) && match plan.regex {
                    Some(re) => regex_matches(re.source(), n),
                    None => if plan.case_sensitive {
                        exists|i: int|
                            0 <= i && i + plan.pattern@.len() <= n.len() && #[trigger] n.subrange(
                                i,
                                i + plan.pattern@.len(),
                            ) == plan.pattern@
                    } else {
                        exists|i: int|
                            0 <= i && i + plan.pattern_lower@.len() <= lowercase(n).len()
                                && #[trigger] lowercase(n).subrange(
                                i,
                                i + plan.pattern_lower@.len(),
                            ) == plan.pattern_lower@
                    },
                }
            &&& is_dir || !plan.dirs_only
        },
{
    if plan.exts@.len() > 0 && path_extension(path) is Some {
        let e = path_extension(path)->0;
        if views(plan.exts@).contains(lowercase(e)) {
            let k = choose|k: int|
                0 <= k < views(plan.exts@).len() && views(plan.exts@)[k] == lowercase(e);
            assert(plan.exts@[k]@ == lowercase(e));
        }
        if exists|k: int| 0 <= k < plan.exts@.len() && #[trigger] plan.exts@[k]@ == lowercase(e) {
            let k = choose|k: int| 0 <= k < plan.exts@.len() && #[trigger] plan.exts@[k]@ == lowercase(e);
            assert(views(plan.exts@)[k] == lowercase(e));
        }
    }
}

impl SearchPlan {
    /// Decides whether a walked entry, given by its path and whether it is a
    /// directory, is a result.
    pub fn accepts(&self, path: &str, is_dir: bool) -> (r: bool)
        ensures
            r == entry_accepted(*self, path@, is_dir),
    {
        if self.exts.len() > 0 {
            match extension_of(path) {
                Some(e) => {
                    let low = to_lowercase(e.as_str());
                    let mut found = false;
                    let mut k: usize = 0;
                    while k < self.exts.len()
                        invariant
                            k <= self.exts@.len(),
                            found <==> views(self.exts@).take(k as int).contains(low@),
                        decreases self.exts@.len() - k,
                    {
                        assert(views(self.exts@).take(k + 1) =~= views(self.exts@).take(
                            k as int,
                        ).push(self.exts@[k as int]@));
                        if self.exts[k] == low {
                            found = true;
                        }
                        proof {
                            vstd::seq_lib::lemma_seq_contains_after_push(
                                views(self.exts@).take(k as int),
                                self.exts@[k as int]@,
                                low@,
                            );
                        }
                        k = k + 1;
                    }
                    assert(views(self.exts@).take(k as int) =~= views(self.exts@));
                    if !found {
                        return false;
                    }
                },
                None => {
                    return false;
                },
            }
        }
        let name = match file_name_of(path) {
            Some(n) => n,
            None => {
                return false;
            },
        };
        let hit = match &self.regex {
            Some(re) => regex_is_match(re, name.as_str()),
            None => if self.case_sensitive {
                find_chars(&chars_of(name.as_str()), &chars_of(self.pattern.as_str()))
            } else {
                let low = to_lowercase(name.as_str());
                find_chars(&chars_of(low.as_str()), &chars_of(self.pattern_lower.as_str()))
            },
        };
        if !hit {
            return false;
        }
        !(self.dirs_only && !is_dir)
    }
}

/// What one poll of the channel that carries results gave.
pub enum Poll {
    Received(ResultEntry),
    Empty,
    Disconnected,
}

/// One step of draining the channel of results, given what a poll gave, or
/// `None` where there is no channel. A received result is appended and
/// draining goes on (`None`); an empty channel stops it with the search still
/// running, a closed one with the search done, and a missing one with the
/// search idle.
pub fn collect_results(results: &mut Vec<ResultEntry>, poll: Option<Poll>) -> (r: Option<SearchStatus>)
    ensures
        match poll {
            Some(Poll::Received(item)) => r is None && final(results)@ == old(results)@.push(item),
            Some(Poll::Empty) => r == Some(SearchStatus::Searching) && final(results)@ == old(results)@,
            Some(Poll::Disconnected) => r == Some(SearchStatus::Done) && final(results)@ == old(results)@,
            None => r == Some(SearchStatus::Idle) && final(results)@ == old(results)@,
        },
{
    match poll {
        Some(Poll::Received(item)) => {
            results.push(item);
            None
        },
        Some(Poll::Empty) => Some(SearchStatus::Searching),
        Some(Poll::Disconnected) => Some(SearchStatus::Done),
        None => Some(SearchStatus::Idle),
    }
}

} // verus!
