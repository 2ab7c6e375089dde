use vstd::prelude::*;

use crate::lexical::{
    chars_before, chars_less, lemma_chars_before_total, lemma_chars_before_transitive,
};
use crate::path::{extension_of, path_extension};
use crate::search::views;
use crate::text::{
    chars_of, lemma_split_pieces_nonempty, lowercase, split_chars, split_pieces, string_from_chars,
    to_lowercase, trim, trim_chars,
};
use crate::types::ResultEntry;

verus! {

broadcast use vstd::string::group_string_axioms;

/// The extension being typed into an extension filter: the last piece of the
/// filter, trimmed and lowercased.
pub open spec fn typed_token(filter: Seq<char>) -> Seq<char> {
    lowercase(trim(split_pieces(filter, true).last()))
}

/// The lowercased extension of a path, where it has one.
pub open spec fn lowered_extension(path: Seq<char>) -> Option<Seq<char>> {
    match path_extension(path) {
        Some(e) => Some(lowercase(e)),
        None => None,
    }
}

/// `e` starts with the token and is the lowercased extension of one of the
/// first `n` results.
pub open spec fn offered(results: Seq<ResultEntry>, n: int, token: Seq<char>, e: Seq<char>) -> bool {
    &&& token.is_prefix_of(e)
    &&& exists|i: int| 0 <= i < n && #[trigger] lowered_extension(results[i].path@) == Some(e)
}

/// Each sequence comes strictly before every later one.
pub open spec fn strictly_ascending(s: Seq<Seq<char>>) -> bool {
    forall|a: int, b: int| 0 <= a < b < s.len() ==> chars_before(#[trigger] s[a], #[trigger] s[b])
}

/// The extension being typed into an extension filter.
pub fn typed_extension(filter: &str) -> (r: String)
    ensures
        r@ == typed_token(filter@),
{
    let pieces = split_chars(&chars_of(filter), true);
    proof {
        lemma_split_pieces_nonempty(filter@, true);
        assert(pieces@.map_values(|p: Vec<char>| p@).len() == pieces@.len());
    }
    let n = pieces.len();
    let last = trim_chars(&pieces[n - 1]);
    to_lowercase(string_from_chars(last).as_str())
}

/// Whether `s` starts with `prefix`.
fn starts_with_chars(s: &Vec<char>, prefix: &Vec<char>) -> (r: bool)
    ensures
        r == prefix@.is_prefix_of(s@),
{
    if prefix.len() > s.len() {
        return false;
    }
    let mut i: usize = 0;
    while i < prefix.len()
        invariant
            i <= prefix@.len(),
            prefix@.len() <= s@.len(),
            forall|k: int| 0 <= k < i ==> prefix@[k] == s@[k],
        decreases prefix@.len() - i,
    {
        if prefix[i] != s[i] {
            assert(s@.subrange(0, prefix@.len() as int)[i as int] == s@[i as int]);
            return false;
        }
        i = i + 1;
    }
    assert(prefix@ =~= s@.subrange(0, prefix@.len() as int));
    true
}

/// Some vector of `s` holds exactly the characters `e`.
spec fn holds(s: Seq<Vec<char>>, e: Seq<char>) -> bool {
    exists|j: int| 0 <= j < s.len() && #[trigger] s[j]@ == e
}

/// The vectors of `s`, by their characters, come in strictly ascending order.
spec fn ascending(s: Seq<Vec<char>>) -> bool {
    forall|a: int, b: int| 0 <= a < b < s.len() ==> chars_before(#[trigger] s[a]@, #[trigger] s[b]@)
}

/// Inserts `x` into a strictly ascending list, unless it is already there.
fn insert_sorted(out: &mut Vec<Vec<char>>, x: Vec<char>)
    requires
        ascending(old(out)@),
    ensures
        ascending(final(out)@),
        forall|e: Seq<char>| holds(final(out)@, e) <==> (holds(old(out)@, e) || e == x@),
{
    let mut k: usize = 0;
    while k < out.len() && chars_less(&out[k], &x)
        invariant
            k <= out@.len(),
            out@ == old(out)@,
            forall|j: int| 0 <= j < k ==> chars_before(#[trigger] out@[j]@, x@),
        decreases out@.len() - k,
    {
        k = k + 1;
    }
    if k < out.len() && !chars_less(&x, &out[k]) {
        proof {
            lemma_chars_before_total(out@[k as int]@, x@);
            assert(holds(out@, x@));
        }
        return;
    }
    let ghost before = out@;
    out.insert(k, x);
    proof {
        assert forall|a: int, b: int| 0 <= a < b < out@.len() implies chars_before(
            #[trigger] out@[a]@,
            #[trigger] out@[b]@,
        ) by {
            if b < k {
                assert(out@[a] == before[a] && out@[b] == before[b]);
            } else if b == k {
                assert(out@[a] == before[a]);
            } else if a < k {
                assert(out@[a] == before[a] && out@[b] == before[b - 1]);
            } else if a == k {
                assert(out@[b] == before[b - 1]);
                if b - 1 > k {
                    assert(chars_before(before[k as int]@, before[b - 1]@));
                    lemma_chars_before_transitive(x@, before[k as int]@, before[b - 1]@);
                }
            } else {
                assert(out@[a] == before[a - 1] && out@[b] == before[b - 1]);
            }
        }
        assert(before == old(out)@);
        assert forall|e: Seq<char>| holds(out@, e) <==> (holds(before, e) || e == x@) by {
            if holds(out@, e) {
                let j = choose|j: int| 0 <= j < out@.len() && #[trigger] out@[j]@ == e;
                if j < k {
                    assert(before[j]@ == e);
                } else if j > k {
                    assert(before[j - 1]@ == e);
                }
            }
            if holds(before, e) {
                let j = choose|j: int| 0 <= j < before.len() && #[trigger] before[j]@ == e;
                if j < k {
                    assert(out@[j]@ == e);
                } else {
                    assert(out@[j + 1]@ == e);
                }
            }
            if e == x@ {
                assert(out@[k as int]@ == e);
            }
        }
        assert(forall|e: Seq<char>| holds(out@, e) <==> (holds(old(out)@, e) || e == x@));
        assert(ascending(out@));
    }
}

/// A copy of a vector of characters.
fn copy_chars(v: &Vec<char>) -> (r: Vec<char>)
    ensures
        r@ == v@,
{
    let mut r: Vec<char> = Vec::new();
    let mut i: usize = 0;
    while i < v.len()
        invariant
            i <= v@.len(),
            r@ == v@.take(i as int),
        decreases v@.len() - i,
    {
        r.push(v[i]);
        i = i + 1;
        assert(r@ =~= v@.take(i as int));
    }
    assert(v@.take(i as int) =~= v@);
    r
}

/// The extensions to offer while an extension is being typed into the
/// filter: the lowercased extensions of the results that start with it,
/// sorted, each once. Nothing is offered while no extension is being typed.
pub fn ext_suggestions(filter: &str, results: &Vec<ResultEntry>) -> (r: Vec<String>)
    ensures
        typed_token(filter@).len() == 0 ==> r@.len() == 0,
        typed_token(filter@).len() > 0 ==> strictly_ascending(views(r@)),
        typed_token(filter@).len() > 0 ==> forall|e: Seq<char>|
            views(r@).contains(e) <==> offered(
                results@,
                results@.len() as int,
                typed_token(filter@),
                e,
            ),
{
    let token = typed_extension(filter);
    let tc = chars_of(token.as_str());
    if tc.len() == 0 {
        return Vec::new();
    }
    let mut out: Vec<Vec<char>> = Vec::new();
    let mut i: usize = 0;
    while i < results.len()
        invariant
            i <= results@.len(),
            tc@ == typed_token(filter@),
            ascending(out@),
            forall|e: Seq<char>| holds(out@, e) <==> offered(results@, i as int, tc@, e),
        decreases results@.len() - i,
    {
        let ghost before = out@;
        let ghost found: Option<Seq<char>> = lowered_extension(results@[i as int].path@);
        match extension_of(results[i].path.as_str()) {
            Some(e) => {
                let low = to_lowercase(e.as_str());
                let lc = chars_of(low.as_str());
                assert(found == Some(lc@));
                if starts_with_chars(&lc, &tc) {
                    insert_sorted(&mut out, lc);
                }
            },
            None => {
                assert(found is None);
            },
        }
        proof {
            assert forall|e: Seq<char>| holds(out@, e) <==> offered(
                results@,
                i + 1,
                tc@,
                e,
            ) by {
                if offered(results@, i + 1, tc@, e) && !offered(results@, i as int, tc@, e) {
                    let j = choose|j: int|
                        0 <= j < i + 1 && #[trigger] lowered_extension(results@[j].path@) == Some(e);
                    assert(j == i);
                }
                if offered(results@, i as int, tc@, e) {
                    let j = choose|j: int|
                        0 <= j < i && #[trigger] lowered_extension(results@[j].path@) == Some(e);
                    assert(0 <= j < i + 1);
                }
                if holds(out@, e) && !holds(before, e) {
                    assert(lowered_extension(results@[i as int].path@) == Some(e));
                }
            }
        }
        i = i + 1;
    }
    let mut r: Vec<String> = Vec::new();
    let mut k: usize = 0;
    while k < out.len()
        invariant
            k <= out@.len(),
            r@.len() == k,
            forall|j: int| 0 <= j < k ==> #[trigger] r@[j]@ == out@[j]@,
        decreases out@.len() - k,
    {
        r.push(string_from_chars(copy_chars(&out[k])));
        k = k + 1;
    }
    proof {
        assert forall|a: int, b: int| 0 <= a < b < views(r@).len() implies chars_before(
            #[trigger] views(r@)[a],
            #[trigger] views(r@)[b],
        ) by {
            assert(views(r@)[a] == out@[a]@);
            assert(views(r@)[b] == out@[b]@);
        }
        assert forall|e: Seq<char>| views(r@).contains(e) <==> holds(out@, e) by {
            if views(r@).contains(e) {
                let j = choose|j: int| 0 <= j < views(r@).len() && views(r@)[j] == e;
                assert(out@[j]@ == e);
            }
            if holds(out@, e) {
                let j = choose|j: int| 0 <= j < out@.len() && #[trigger] out@[j]@ == e;
                assert(views(r@)[j] == e);
            }
        }
        assert(i == results@.len());
        assert forall|e: Seq<char>| views(r@).contains(e) <==> offered(
            results@,
            results@.len() as int,
            typed_token(filter@),
            e,
        ) by {
            assert(views(r@).contains(e) <==> holds(out@, e));
            assert(holds(out@, e) <==> offered(results@, i as int, tc@, e));
        }
    }
    r
}

/// What `str::trim_end_matches` with a text pattern leaves: the text with the
/// copies of the pattern that end it taken off, one after another.
pub open spec fn trim_end_copies(s: Seq<char>, t: Seq<char>) -> Seq<char>
    decreases s.len(),
{
    if 0 < t.len() <= s.len() && s.subrange(s.len() - t.len(), s.len() as int) == t {
        trim_end_copies(s.subrange(0, s.len() - t.len()), t)
    } else {
        s
    }
}

/// Whether the characters of `f` before `end` end with `t`.
fn ends_with_at(f: &Vec<char>, end: usize, t: &Vec<char>) -> (r: bool)
    requires
        t@.len() <= end <= f@.len(),
    ensures
        r == (f@.subrange(end - t@.len(), end as int) == t@),
{
    let start = end - t.len();
    let mut i: usize = 0;
    while i < t.len()
        invariant
            start + t@.len() == end,
            end <= f@.len(),
            i <= t@.len(),
            forall|k: int| 0 <= k < i ==> f@[start + k] == t@[k],
        decreases t@.len() - i,
    {
        if f[start + i] != t[i] {
            assert(f@.subrange(start as int, end as int)[i as int] != t@[i as int]);
            return false;
        }
        i = i + 1;
    }
    assert(f@.subrange(start as int, end as int) =~= t@);
    true
}

/// Puts a chosen suggestion in place of the extension being typed: the
/// filter without the copies of `token` that end it, then `choice`.
pub fn complete_extension(filter: &str, token: &str, choice: &str) -> (r: String)
    ensures
        r@ == trim_end_copies(filter@, token@) + choice@,
{
    let f = chars_of(filter);
    let t = chars_of(token);
    let mut end: usize = f.len();
    assert(f@.subrange(0, end as int) =~= f@);
    if t.len() > 0 {
        while t.len() <= end && ends_with_at(&f, end, &t)
            invariant
                end <= f@.len(),
                t@.len() > 0,
                trim_end_copies(f@.subrange(0, end as int), t@) == trim_end_copies(f@, t@),
            decreases end,
        {
            let ghost s = f@.subrange(0, end as int);
            assert(s.subrange(s.len() - t@.len(), s.len() as int) =~= f@.subrange(
                end - t@.len(),
                end as int,
            ));
            assert(s.subrange(0, s.len() - t@.len()) =~= f@.subrange(0, end - t@.len()));
            end = end - t.len();
        }
        let ghost s = f@.subrange(0, end as int);
        assert(t@.len() <= s.len() ==> s.subrange(s.len() - t@.len(), s.len() as int) =~= f@.subrange(
            end - t@.len(),
            end as int,
        ));
    }
    let c = chars_of(choice);
    let mut out: Vec<char> = Vec::new();
    let mut i: usize = 0;
    while i < end
        invariant
            i <= end <= f@.len(),
            out@ == f@.subrange(0, i as int),
        decreases end - i,
    {
        out.push(f[i]);
        i = i + 1;
        assert(out@ =~= f@.subrange(0, i as int));
    }
    let ghost head = out@;
    let mut j: usize = 0;
    while j < c.len()
        invariant
            j <= c@.len(),
            out@ == head + c@.take(j as int),
        decreases c@.len() - j,
    {
        out.push(c[j]);
        j = j + 1;
        assert(out@ =~= head + c@.take(j as int));
    }
    assert(c@.take(j as int) =~= c@);
    string_from_chars(out)
}

} // verus!
