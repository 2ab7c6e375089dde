use vstd::prelude::*;

use crate::text::{chars_of, lowercase, string_from_chars, to_lowercase};

verus! {

/// What `Path::file_name` gives for a path written as text: its last normal
/// component, if there is one.
pub uninterp spec fn path_file_name(p: Seq<char>) -> Option<Seq<char>>;

/// The index of the last `.` of a name, or -1 where it has none.
pub open spec fn last_dot(n: Seq<char>) -> int
    decreases n.len(),
{
    if n.len() == 0 {
        -1
    } else if n.last() == '.' {
        n.len() - 1
    } else {
        last_dot(n.drop_last())
    }
}

/// The extension of a file name as `Path::extension` documents it: none
/// where the name has no `.`, none where its only `.` is the first
/// character, else what follows the last `.`.
pub open spec fn name_extension(n: Seq<char>) -> Option<Seq<char>> {
    let k = last_dot(n);
    if k <= 0 {
        None
    } else {
        Some(n.subrange(k + 1, n.len() as int))
    }
}

/// What `Path::extension` gives for a path written as text: the extension of
/// its file name, none where it has no file name.
pub open spec fn path_extension(p: Seq<char>) -> Option<Seq<char>> {
    match path_file_name(p) {
        Some(n) => name_extension(n),
        None => None,
    }
}

/// Where the characters from `k` on hold no `.` and `k` is 0 or follows a
/// `.`, the last `.` is at `k - 1`.
proof fn lemma_last_dot(n: Seq<char>, k: int)
    requires
        0 <= k <= n.len(),
        k == 0 || n[k - 1] == '.',
        forall|j: int| k <= j < n.len() ==> n[j] != '.',
    ensures
        last_dot(n) == k - 1,
    decreases n.len(),
{
    if n.len() > k {
        assert forall|j: int| k <= j < n.drop_last().len() implies n.drop_last()[j] != '.' by {
            assert(n.drop_last()[j] == n[j]);
        }
        lemma_last_dot(n.drop_last(), k);
    } else if n.len() > 0 {
        assert(n.last() == n[k - 1]);
    }
}

/// What `Path::parent` gives for a path written as text: the path without
/// its last component, if it has one.
pub uninterp spec fn path_parent(p: Seq<char>) -> Option<Seq<char>>;

/// How `Path`'s `Ord` places two paths: negative, zero or positive as the
/// first comes before, compares equal to, or comes after the second.
pub uninterp spec fn path_order(a: Seq<char>, b: Seq<char>) -> int;

/// `Path::file_name` on the path `p`. A path given as a `&str` is valid UTF-8,
/// so its file name is too; the contract names the result and says nothing
/// more about which component it is.
#[verifier::external_body]
pub(crate) fn file_name_of(p: &str) -> (r: Option<String>)
    ensures
        r matches Some(n) ==> path_file_name(p@) == Some(n@),
        r is None ==> path_file_name(p@) is None,
{
    Some(std::path::Path::new(p).file_name()?.to_str()?.to_string())
}

/// `Path::extension` on the path `p`: the extension of its file name.
pub(crate) fn extension_of(p: &str) -> (r: Option<String>)
    ensures
        r matches Some(e) ==> path_extension(p@) == Some(e@),
        r is None ==> path_extension(p@) is None,
{
    let n = match file_name_of(p) {
        Some(n) => n,
        None => {
            return None;
        },
    };
    let c = chars_of(n.as_str());
    let mut k: usize = c.len();
    while k > 0 && c[k - 1] != '.'
        invariant
            k <= c@.len(),
            forall|j: int| k <= j < c@.len() ==> c@[j] != '.',
        decreases k,
    {
        k = k - 1;
    }
    proof {
        lemma_last_dot(c@, k as int);
    }
    if k <= 1 {
        return None;
    }
    let mut e: Vec<char> = Vec::new();
    let mut i: usize = k;
    while i < c.len()
        invariant
            k <= i <= c@.len(),
            e@ == c@.subrange(k as int, i as int),
        decreases c@.len() - i,
    {
        e.push(c[i]);
        i = i + 1;
        assert(e@ =~= c@.subrange(k as int, i as int));
    }
    Some(string_from_chars(e))
}

/// `Path::parent` on the path `p`; the contract names the result. A parent
/// of a path given as a `&str` is a prefix of it, so valid UTF-8 too.
#[verifier::external_body]
pub(crate) fn parent_of(p: &str) -> (r: Option<String>)
    ensures
        r matches Some(q) ==> path_parent(p@) == Some(q@),
        r is None ==> path_parent(p@) is None,
{
    Some(std::path::Path::new(p).parent()?.to_str()?.to_string())
}

/// `Path::cmp` on two paths, as -1, 0 or 1. The contract names the result
/// and states what `Ord`'s documentation requires of every implementation
/// (a total order), as far as it concerns the two paths compared: swapping
/// them negates the result, and the outcome carries over to any third path
/// through either of them (if `a` is not after `b` and `b` is not after `z`,
/// `a` is not after `z`, and so on for each way round).
#[verifier::external_body]
pub(crate) fn compare_paths(a: &str, b: &str) -> (r: i8)
    ensures
        r == path_order(a@, b@),
        -1 <= r <= 1,
        path_order(b@, a@) == -r,
        forall|z: Seq<char>|
            r <= 0 && #[trigger] path_order(b@, z) <= 0 ==> path_order(a@, z) <= 0,
        forall|z: Seq<char>|
            r <= 0 && #[trigger] path_order(z, b@) > 0 ==> path_order(a@, z) < 0,
        forall|z: Seq<char>|
            r > 0 && #[trigger] path_order(a@, z) <= 0 ==> path_order(z, b@) > 0,
        forall|z: Seq<char>|
            r > 0 && #[trigger] path_order(z, a@) > 0 ==> path_order(z, b@) > 0,
        forall|z: Seq<char>|
            r <= 0 && #[trigger] path_order(z, a@) <= 0 ==> path_order(z, b@) <= 0,
        forall|z: Seq<char>|
            r <= 0 && #[trigger] path_order(a@, z) > 0 ==> path_order(z, b@) < 0,
        forall|z: Seq<char>|
            r > 0 && #[trigger] path_order(z, b@) <= 0 ==> path_order(a@, z) > 0,
        forall|z: Seq<char>|
            r > 0 && #[trigger] path_order(b@, z) > 0 ==> path_order(a@, z) > 0,
        forall|z: Seq<char>|
            r > 0 && #[trigger] path_order(a@, z) <= 0 ==> path_order(b@, z) < 0,
        forall|z: Seq<char>|
            r > 0 && #[trigger] path_order(z, b@) <= 0 ==> path_order(z, a@) < 0,
{
    match std::path::Path::new(a).cmp(std::path::Path::new(b)) {
        std::cmp::Ordering::Less => -1,
        std::cmp::Ordering::Equal => 0,
        std::cmp::Ordering::Greater => 1,
    }
}

/// The key by which results are ordered by name: the lowercased file name,
/// or the lowercased empty string where the path has none.
pub open spec fn name_key(p: Seq<char>) -> Seq<char> {
    match path_file_name(p) {
        Some(n) => lowercase(n),
        None => lowercase(Seq::empty()),
    }
}

/// The key by which results are ordered by name: the file name of `p`,
/// lowercased.
pub fn file_name_key(p: &str) -> (r: String)
    ensures
        r@ == name_key(p@),
{
    match file_name_of(p) {
        Some(n) => to_lowercase(n.as_str()),
        None => {
            let e = "";
            proof {
                reveal_strlit("");
            }
            assert(e@ =~= Seq::<char>::empty());
            to_lowercase(e)
        },
    }
}

} // verus!
