use vstd::prelude::*;

use crate::lexical::{
    chars_before, chars_less, lemma_chars_before_asymmetric, lemma_chars_before_irreflexive,
    lemma_chars_before_total, lemma_chars_before_transitive,
};
use crate::path::{compare_paths, file_name_key, name_key, path_order};
use crate::text::chars_of;
use crate::types::{ResultEntry, SortOrder};

verus! {

/// Whether, in the given order, `x` must be listed after `y`. For the name,
/// size and date orders this is a comparison of keys (reversed for the
/// descending orders); for the path orders it is `Path`'s `Ord`.
pub open spec fn goes_after(order: SortOrder, x: ResultEntry, y: ResultEntry) -> bool {
    match order {
        SortOrder::NameAsc => chars_before(name_key(y.path@), name_key(x.path@)),
        SortOrder::NameDesc => chars_before(name_key(x.path@), name_key(y.path@)),
        SortOrder::PathAsc => path_order(x.path@, y.path@) > 0,
        SortOrder::PathDesc => path_order(y.path@, x.path@) > 0,
        SortOrder::SizeAsc => x.size > y.size,
        SortOrder::SizeDesc => x.size < y.size,
        SortOrder::ModifiedAsc => x.modified > y.modified,
        SortOrder::ModifiedDesc => x.modified < y.modified,
    }
}

/// In a stable sort of `s`, whether the element first at index `i` is listed
/// before the one first at index `j`: the earlier one goes first unless it
/// must come after the later one.
pub open spec fn precedes(order: SortOrder, s: Seq<ResultEntry>, i: usize, j: usize) -> bool {
    if i < j {
        !goes_after(order, s[i as int], s[j as int])
    } else {
        goes_after(order, s[j as int], s[i as int])
    }
}

/// `p` lists the indices `0..n`, each once.
pub open spec fn is_permutation(p: Seq<usize>, n: nat) -> bool {
    &&& p.len() == n
    &&& p.no_duplicates()
    &&& forall|k: int| 0 <= k < p.len() ==> #[trigger] p[k] < n
    &&& forall|v: usize| v < n ==> #[trigger] p.contains(v)
}

/// The indices in `p` are listed as a stable sort of `s` lists them.
pub open spec fn stably_sorted(order: SortOrder, s: Seq<ResultEntry>, p: Seq<usize>) -> bool {
    forall|a: int, b: int|
        #![trigger p[a], p[b]]
        0 <= a < b < p.len() ==> precedes(order, s, p[a], p[b])
}

/// The two transitivity conditions of a strict weak order, for three elements.
pub open spec fn weak_order_triple(
    order: SortOrder,
    x: ResultEntry,
    y: ResultEntry,
    z: ResultEntry,
) -> bool {
    &&& goes_after(order, x, y) && goes_after(order, y, z) ==> goes_after(order, x, z)
    &&& !goes_after(order, x, y) && !goes_after(order, y, z) ==> !goes_after(order, x, z)
}

/// The order is a strict weak order on the elements of `s`.
pub open spec fn strict_weak_on(order: SortOrder, s: Seq<ResultEntry>) -> bool {
    forall|i: int, j: int, k: int|
        0 <= i < s.len() && 0 <= j < s.len() && 0 <= k < s.len() ==> #[trigger] weak_order_triple(
            order,
            s[i],
            s[j],
            s[k],
        )
}

/// Every order but the two path orders is a strict weak order on any
/// sequence of results.
pub proof fn lemma_key_orders_are_weak(order: SortOrder, s: Seq<ResultEntry>)
    requires
        order != SortOrder::PathAsc,
        order != SortOrder::PathDesc,
    ensures
        strict_weak_on(order, s),
{
    assert forall|i: int, j: int, k: int|
        0 <= i < s.len() && 0 <= j < s.len() && 0 <= k < s.len() implies #[trigger] weak_order_triple(
        order,
        s[i],
        s[j],
        s[k],
    ) by {
        let kx = name_key(s[i].path@);
        let ky = name_key(s[j].path@);
        let kz = name_key(s[k].path@);
        lemma_chars_before_total(kx, ky);
        lemma_chars_before_total(ky, kz);
        lemma_chars_before_total(kx, kz);
        lemma_chars_before_asymmetric(kx, ky);
        lemma_chars_before_asymmetric(ky, kz);
        lemma_chars_before_asymmetric(kx, kz);
        lemma_chars_before_irreflexive(kx);
        lemma_chars_before_irreflexive(ky);
        if chars_before(kx, ky) && chars_before(ky, kz) {
            lemma_chars_before_transitive(kx, ky, kz);
        }
        if chars_before(kz, ky) && chars_before(ky, kx) {
            lemma_chars_before_transitive(kz, ky, kx);
        }
        if chars_before(kx, kz) && chars_before(kz, ky) {
            lemma_chars_before_transitive(kx, kz, ky);
        }
        if chars_before(ky, kx) && chars_before(kx, kz) {
            lemma_chars_before_transitive(ky, kx, kz);
        }
        if chars_before(kz, kx) && chars_before(kx, ky) {
            lemma_chars_before_transitive(kz, kx, ky);
        }
        if chars_before(ky, kz) && chars_before(kz, kx) {
            lemma_chars_before_transitive(ky, kz, kx);
        }
    }
}

/// What the sort needs beside the entries: the name keys, for the name orders.
spec fn keys_match(order: SortOrder, s: Seq<ResultEntry>, keys: Seq<Vec<char>>) -> bool {
    (order == SortOrder::NameAsc || order == SortOrder::NameDesc) ==> {
        &&& keys.len() == s.len()
        &&& forall|i: int| 0 <= i < s.len() ==> #[trigger] keys[i]@ == name_key(s[i].path@)
    }
}

fn goes_after_at(
    order: SortOrder,
    s: &Vec<ResultEntry>,
    keys: &Vec<Vec<char>>,
    i: usize,
    j: usize,
) -> (r: bool)
    requires
        keys_match(order, s@, keys@),
        i < s.len(),
        j < s.len(),
    ensures
        r == goes_after(order, s@[i as int], s@[j as int]),
        r ==> !goes_after(order, s@[j as int], s@[i as int]),
        !r ==> forall|k: int|
            0 <= k < s@.len() && (!goes_after(order, s@[j as int], #[trigger] s@[k]) || goes_after(
                order,
                s@[k],
                s@[j as int],
            )) ==> !goes_after(order, s@[i as int], s@[k]),
        r ==> forall|k: int|
            0 <= k < s@.len() && (!goes_after(order, s@[i as int], #[trigger] s@[k]) || goes_after(
                order,
                s@[k],
                s@[i as int],
            )) ==> goes_after(order, s@[k], s@[j as int]),
        r ==> forall|k: int|
            0 <= k < s@.len() && !goes_after(order, s@[i as int], #[trigger] s@[k]) ==> !goes_after(
                order,
                s@[j as int],
                s@[k],
            ),
{
    proof {
        lemma_chars_before_asymmetric(keys@[i as int]@, keys@[j as int]@);
        lemma_chars_before_asymmetric(keys@[j as int]@, keys@[i as int]@);
    }
    let r = match order {
        SortOrder::NameAsc => chars_less(&keys[j], &keys[i]),
        SortOrder::NameDesc => chars_less(&keys[i], &keys[j]),
        SortOrder::PathAsc => compare_paths(s[i].path.as_str(), s[j].path.as_str()) > 0,
        SortOrder::PathDesc => compare_paths(s[j].path.as_str(), s[i].path.as_str()) > 0,
        SortOrder::SizeAsc => s[i].size > s[j].size,
        SortOrder::SizeDesc => s[i].size < s[j].size,
        SortOrder::ModifiedAsc => s[i].modified > s[j].modified,
        SortOrder::ModifiedDesc => s[i].modified < s[j].modified,
    };
    proof {
        if order != SortOrder::PathAsc && order != SortOrder::PathDesc {
            lemma_key_orders_are_weak(order, s@);
            let (x, y) = (s@[i as int], s@[j as int]);
            assert forall|k: int|
                0 <= k < s@.len() && (!goes_after(order, y, #[trigger] s@[k]) || goes_after(
                    order,
                    s@[k],
                    y,
                )) && !r implies !goes_after(order, x, s@[k]) by {
                assert(weak_order_triple(order, x, y, s@[k]));
                assert(weak_order_triple(order, x, s@[k], y));
            }
            assert forall|k: int|
                0 <= k < s@.len() && (!goes_after(order, x, #[trigger] s@[k]) || goes_after(
                    order,
                    s@[k],
                    x,
                )) && r implies goes_after(order, s@[k], y) by {
                assert(weak_order_triple(order, x, s@[k], y));
                assert(weak_order_triple(order, s@[k], x, y));
            }
            assert forall|k: int|
                0 <= k < s@.len() && !goes_after(order, x, #[trigger] s@[k]) && r implies !goes_after(
                order,
                y,
                s@[k],
            ) by {
                assert(weak_order_triple(order, x, y, s@[k]));
            }
        }
    }
    r
}

/// No index of `p` is followed, anywhere later, by one that it must come
/// after.
pub open spec fn in_order(order: SortOrder, s: Seq<ResultEntry>, p: Seq<usize>) -> bool {
    forall|a: int, b: int|
        #![trigger p[a], p[b]]
        0 <= a < b < p.len() ==> !goes_after(order, s[p[a] as int], s[p[b] as int])
}

/// No index of `r` must come after an index of `t` from `from` on.
spec fn all_not_after(
    order: SortOrder,
    s: Seq<ResultEntry>,
    r: Seq<usize>,
    t: Seq<usize>,
    from: int,
) -> bool {
    forall|a: int, b: int|
        #![trigger r[a], t[b]]
        0 <= a < r.len() && from <= b < t.len() ==> !goes_after(order, s[r[a] as int], s[t[b] as int])
}

/// Every index of `r` is listed before every index of `t` from `from` on.
spec fn all_precede(
    order: SortOrder,
    s: Seq<ResultEntry>,
    r: Seq<usize>,
    t: Seq<usize>,
    from: int,
) -> bool {
    forall|a: int, b: int|
        #![trigger r[a], t[b]]
        0 <= a < r.len() && from <= b < t.len() ==> precedes(order, s, r[a], t[b])
}

spec fn in_range(p: Seq<usize>, lo: int, hi: int) -> bool {
    forall|k: int| 0 <= k < p.len() ==> lo <= #[trigger] p[k] < hi
}

/// Merges two sorted runs: `left` holds indices in `lo..mid`, `right` in
/// `mid..hi`.
fn merge(
    order: SortOrder,
    s: &Vec<ResultEntry>,
    keys: &Vec<Vec<char>>,
    left: Vec<usize>,
    right: Vec<usize>,
    Ghost(lo): Ghost<int>,
    Ghost(mid): Ghost<int>,
    Ghost(hi): Ghost<int>,
) -> (r: Vec<usize>)
    requires
        keys_match(order, s@, keys@),
        0 <= lo <= mid <= hi <= s.len(),
        in_range(left@, lo, mid),
        in_range(right@, mid, hi),
        left@.no_duplicates(),
        right@.no_duplicates(),
        stably_sorted(order, s@, left@),
        stably_sorted(order, s@, right@),
        in_order(order, s@, left@),
        in_order(order, s@, right@),
    ensures
        in_order(order, s@, r@),
        r@.len() == left@.len() + right@.len(),
        r@.no_duplicates(),
        in_range(r@, lo, hi),
        forall|x: usize| r@.contains(x) <==> (left@.contains(x) || right@.contains(x)),
        stably_sorted(order, s@, r@),
{
    let mut out: Vec<usize> = Vec::new();
    let mut i: usize = 0;
    let mut j: usize = 0;
    while i < left.len() || j < right.len()
        invariant
            keys_match(order, s@, keys@),
            0 <= lo <= mid <= hi <= s.len(),
            in_range(left@, lo, mid),
            in_range(right@, mid, hi),
            left@.no_duplicates(),
            right@.no_duplicates(),
                stably_sorted(order, s@, left@),
            stably_sorted(order, s@, right@),
            i <= left@.len(),
            j <= right@.len(),
            out@.len() == i + j,
            out@.no_duplicates(),
            in_range(out@, lo, hi),
            forall|x: usize|
                out@.contains(x) <==> (left@.take(i as int).contains(x) || right@.take(
                    j as int,
                ).contains(x)),
            stably_sorted(order, s@, out@),
            all_precede(order, s@, out@, left@, i as int),
            all_precede(order, s@, out@, right@, j as int),
            in_order(order, s@, left@),
            in_order(order, s@, right@),
            in_order(order, s@, out@),
            all_not_after(order, s@, out@, left@, i as int),
            all_not_after(order, s@, out@, right@, j as int),
        decreases left@.len() + right@.len() - i - j,
    {
        let take_left = if i == left.len() {
            false
        } else if j == right.len() {
            true
        } else {
            !goes_after_at(order, s, keys, left[i], right[j])
        };
        let ghost old_out = out@;
        if take_left {
            let x = left[i];
            proof {
                assert(!old_out.contains(x)) by {
                    assert(!left@.take(i as int).contains(x)) by {
                        if left@.take(i as int).contains(x) {
                            let k = choose|k: int| 0 <= k < i && left@.take(i as int)[k] == x;
                            assert(left@[k] == left@[i as int]);
                        }
                    }
                    assert(!right@.take(j as int).contains(x)) by {
                        if right@.take(j as int).contains(x) {
                            let k = choose|k: int| 0 <= k < j && right@.take(j as int)[k] == x;
                            assert(right@[k] == right@.take(j as int)[k]);
                        }
                    }
                }
                assert(left@.take(i + 1) =~= left@.take(i as int).push(x));
                assert forall|b: int| i + 1 <= b < left@.len() implies !goes_after(
                    order,
                    s@[x as int],
                    s@[left@[b] as int],
                ) by {
                    assert(left@[i as int] == x);
                }
                if j < right.len() {
                    assert forall|b: int| j <= b < right@.len() implies !goes_after(
                        order,
                        s@[x as int],
                        s@[right@[b] as int],
                    ) by {
                        if b > j {
                            assert(!goes_after(
                                order,
                                s@[right@[j as int] as int],
                                s@[right@[b] as int],
                            ));
                        }
                    }
                }
                {
                    // the new element goes before every remaining one
                    assert forall|b: int| i + 1 <= b < left@.len() implies precedes(
                        order,
                        s@,
                        x,
                        left@[b],
                    ) by {
                        assert(left@[i as int] == x);
                    }
                    if j < right.len() {
                        assert(precedes(order, s@, x, right@[j as int]));
                        assert forall|b: int| j + 1 <= b < right@.len() implies precedes(
                            order,
                            s@,
                            x,
                            right@[b],
                        ) by {
                            assert(precedes(order, s@, right@[j as int], right@[b]));
                            assert(right@[j as int] != right@[b]);
                        }
                    }
                }
            }
            out.push(x);
            i = i + 1;
            proof {
                assert(left@[i - 1] == x);
                assert(in_order(order, s@, out@)) by {
                    assert forall|a: int, b: int| 0 <= a < b < out@.len() implies !goes_after(
                        order,
                        s@[out@[a] as int],
                        s@[out@[b] as int],
                    ) by {
                        assert(old_out[a] == out@[a]);
                        if b < out@.len() - 1 {
                            assert(old_out[b] == out@[b]);
                        }
                    }
                }
                assert(all_not_after(order, s@, out@, left@, i as int)) by {
                    assert forall|a: int, b: int|
                        0 <= a < out@.len() && i <= b < left@.len() implies !goes_after(
                        order,
                        s@[out@[a] as int],
                        s@[left@[b] as int],
                    ) by {
                        if a < old_out.len() {
                            assert(old_out[a] == out@[a]);
                        }
                    }
                }
                assert(all_not_after(order, s@, out@, right@, j as int)) by {
                    assert forall|a: int, b: int|
                        0 <= a < out@.len() && j <= b < right@.len() implies !goes_after(
                        order,
                        s@[out@[a] as int],
                        s@[right@[b] as int],
                    ) by {
                        if a < old_out.len() {
                            assert(old_out[a] == out@[a]);
                        }
                    }
                }
                assert forall|y: usize|
                    out@.contains(y) <==> (left@.take(i as int).contains(y) || right@.take(
                        j as int,
                    ).contains(y)) by {
                    broadcast use vstd::seq_lib::lemma_seq_contains_after_push;

                }
                assert(out@.no_duplicates()) by {
                    assert forall|a: int, b: int|
                        0 <= a < out@.len() && 0 <= b < out@.len() && a != b implies out@[a]
                        != out@[b] by {
                        if a == out@.len() - 1 {
                            assert(old_out.contains(out@[b]));
                        } else if b == out@.len() - 1 {
                            assert(old_out.contains(out@[a]));
                        } else {
                            assert(old_out[a] == out@[a]);
                            assert(old_out[b] == out@[b]);
                        }
                    }
                }
                {
                    assert(stably_sorted(order, s@, out@)) by {
                        assert forall|a: int, b: int| 0 <= a < b < out@.len() implies precedes(
                            order,
                            s@,
                            out@[a],
                            out@[b],
                        ) by {
                            if b == out@.len() - 1 {
                                assert(old_out[a] == out@[a]);
                                assert(left@[i - 1] == x);
                            } else {
                                assert(old_out[a] == out@[a]);
                                assert(old_out[b] == out@[b]);
                            }
                        }
                    }
                    assert(all_precede(order, s@, out@, left@, i as int)) by {
                        assert forall|a: int, b: int|
                            0 <= a < out@.len() && i <= b < left@.len() implies precedes(
                            order,
                            s@,
                            out@[a],
                            left@[b],
                        ) by {
                            if a < old_out.len() {
                                assert(old_out[a] == out@[a]);
                            }
                        }
                    }
                    assert(all_precede(order, s@, out@, right@, j as int)) by {
                        assert forall|a: int, b: int|
                            0 <= a < out@.len() && j <= b < right@.len() implies precedes(
                            order,
                            s@,
                            out@[a],
                            right@[b],
                        ) by {
                            if a < old_out.len() {
                                assert(old_out[a] == out@[a]);
                            }
                        }
                    }
                }
            }
        } else {
            let x = right[j];
            proof {
                assert(!old_out.contains(x)) by {
                    assert(!right@.take(j as int).contains(x)) by {
                        if right@.take(j as int).contains(x) {
                            let k = choose|k: int| 0 <= k < j && right@.take(j as int)[k] == x;
                            assert(right@[k] == right@[j as int]);
                        }
                    }
                    assert(!left@.take(i as int).contains(x)) by {
                        if left@.take(i as int).contains(x) {
                            let k = choose|k: int| 0 <= k < i && left@.take(i as int)[k] == x;
                            assert(left@[k] == left@.take(i as int)[k]);
                        }
                    }
                }
                assert(right@.take(j + 1) =~= right@.take(j as int).push(x));
                assert forall|b: int| j + 1 <= b < right@.len() implies !goes_after(
                    order,
                    s@[x as int],
                    s@[right@[b] as int],
                ) by {
                    assert(right@[j as int] == x);
                }
                if i < left.len() {
                    assert forall|b: int| i <= b < left@.len() implies !goes_after(
                        order,
                        s@[x as int],
                        s@[left@[b] as int],
                    ) by {
                        if b > i {
                            assert(!goes_after(
                                order,
                                s@[left@[i as int] as int],
                                s@[left@[b] as int],
                            ));
                        }
                    }
                }
                {
                    assert forall|b: int| j + 1 <= b < right@.len() implies precedes(
                        order,
                        s@,
                        x,
                        right@[b],
                    ) by {
                        assert(right@[j as int] == x);
                    }
                    if i < left.len() {
                        assert(precedes(order, s@, x, left@[i as int]));
                        assert forall|b: int| i + 1 <= b < left@.len() implies precedes(
                            order,
                            s@,
                            x,
                            left@[b],
                        ) by {
                            assert(precedes(order, s@, left@[i as int], left@[b]));
                            assert(left@[i as int] != left@[b]);
                        }
                    }
                }
            }
            out.push(x);
            j = j + 1;
            proof {
                assert(right@[j - 1] == x);
                assert(in_order(order, s@, out@)) by {
                    assert forall|a: int, b: int| 0 <= a < b < out@.len() implies !goes_after(
                        order,
                        s@[out@[a] as int],
                        s@[out@[b] as int],
                    ) by {
                        assert(old_out[a] == out@[a]);
                        if b < out@.len() - 1 {
                            assert(old_out[b] == out@[b]);
                        }
                    }
                }
                assert(all_not_after(order, s@, out@, left@, i as int)) by {
                    assert forall|a: int, b: int|
                        0 <= a < out@.len() && i <= b < left@.len() implies !goes_after(
                        order,
                        s@[out@[a] as int],
                        s@[left@[b] as int],
                    ) by {
                        if a < old_out.len() {
                            assert(old_out[a] == out@[a]);
                        }
                    }
                }
                assert(all_not_after(order, s@, out@, right@, j as int)) by {
                    assert forall|a: int, b: int|
                        0 <= a < out@.len() && j <= b < right@.len() implies !goes_after(
                        order,
                        s@[out@[a] as int],
                        s@[right@[b] as int],
                    ) by {
                        if a < old_out.len() {
                            assert(old_out[a] == out@[a]);
                        }
                    }
                }
                assert forall|y: usize|
                    out@.contains(y) <==> (left@.take(i as int).contains(y) || right@.take(
                        j as int,
                    ).contains(y)) by {
                    broadcast use vstd::seq_lib::lemma_seq_contains_after_push;

                }
                assert(out@.no_duplicates()) by {
                    assert forall|a: int, b: int|
                        0 <= a < out@.len() && 0 <= b < out@.len() && a != b implies out@[a]
                        != out@[b] by {
                        if a == out@.len() - 1 {
                            assert(old_out.contains(out@[b]));
                        } else if b == out@.len() - 1 {
                            assert(old_out.contains(out@[a]));
                        } else {
                            assert(old_out[a] == out@[a]);
                            assert(old_out[b] == out@[b]);
                        }
                    }
                }
                {
                    assert(stably_sorted(order, s@, out@)) by {
                        assert forall|a: int, b: int| 0 <= a < b < out@.len() implies precedes(
                            order,
                            s@,
                            out@[a],
                            out@[b],
                        ) by {
                            if b == out@.len() - 1 {
                                assert(old_out[a] == out@[a]);
                                assert(right@[j - 1] == x);
                            } else {
                                assert(old_out[a] == out@[a]);
                                assert(old_out[b] == out@[b]);
                            }
                        }
                    }
                    assert(all_precede(order, s@, out@, left@, i as int)) by {
                        assert forall|a: int, b: int|
                            0 <= a < out@.len() && i <= b < left@.len() implies precedes(
                            order,
                            s@,
                            out@[a],
                            left@[b],
                        ) by {
                            if a < old_out.len() {
                                assert(old_out[a] == out@[a]);
                            }
                        }
                    }
                    assert(all_precede(order, s@, out@, right@, j as int)) by {
                        assert forall|a: int, b: int|
                            0 <= a < out@.len() && j <= b < right@.len() implies precedes(
                            order,
                            s@,
                            out@[a],
                            right@[b],
                        ) by {
                            if a < old_out.len() {
                                assert(old_out[a] == out@[a]);
                            }
                        }
                    }
                }
            }
        }
    }
    proof {
        assert(left@.take(i as int) =~= left@);
        assert(right@.take(j as int) =~= right@);
    }
    out
}

/// Sorts the indices `lo..hi` of `s` (merge sort).
fn sort_range(
    order: SortOrder,
    s: &Vec<ResultEntry>,
    keys: &Vec<Vec<char>>,
    lo: usize,
    hi: usize,
) -> (r: Vec<usize>)
    requires
        keys_match(order, s@, keys@),
        lo <= hi <= s.len(),
    ensures
        r@.len() == hi - lo,
        r@.no_duplicates(),
        in_range(r@, lo as int, hi as int),
        forall|x: usize| r@.contains(x) <==> lo <= x < hi,
        stably_sorted(order, s@, r@),
        in_order(order, s@, r@),
    decreases hi - lo,
{
    if hi - lo <= 1 {
        let mut r: Vec<usize> = Vec::new();
        if hi - lo == 1 {
            r.push(lo);
            assert forall|x: usize| r@.contains(x) <==> lo <= x < hi by {
                if r@.contains(x) {
                    let k = choose|k: int| 0 <= k < r@.len() && r@[k] == x;
                    assert(k == 0);
                }
                if lo <= x < hi {
                    assert(r@[0] == x);
                }
            }
        }
        return r;
    }
    let mid = lo + (hi - lo) / 2;
    let left = sort_range(order, s, keys, lo, mid);
    let right = sort_range(order, s, keys, mid, hi);
    merge(
        order,
        s,
        keys,
        left,
        right,
        Ghost(lo as int),
        Ghost(mid as int),
        Ghost(hi as int),
    )
}

/// Sorts the results in place, as the standard library's stable sorts do:
/// by lowercased file name, by path (`Path`'s order), by size or by
/// modification time, ascending or descending.
///
/// The results end up as a permutation of what they were, stably sorted:
/// two results keep their relative order unless the earlier one must come
/// after the later one, which fixes the outcome (`lemma_stable_sort_unique`).
/// No result is followed, anywhere later, by one that it must come after.
pub fn apply_sort(results: &mut Vec<ResultEntry>, sort_order: SortOrder)
    ensures
        exists|p: Seq<usize>|
            {
                &&& #[trigger] is_permutation(p, old(results)@.len())
                &&& final(results)@.len() == p.len()
                &&& forall|k: int|
                    0 <= k < p.len() ==> final(results)@[k] == old(results)@[#[trigger] p[k] as int]
                &&& stably_sorted(sort_order, old(results)@, p)
            },
        forall|a: int, b: int|
            0 <= a < b < final(results)@.len() ==> !goes_after(
                sort_order,
                #[trigger] final(results)@[a],
                #[trigger] final(results)@[b],
            ),
        forall|a: int, b: int|
            #![trigger final(results)@[a], final(results)@[b]]
            0 <= a < b < final(results)@.len() ==> {
                let x = final(results)@[a];
                let y = final(results)@[b];
                &&& sort_order == SortOrder::SizeAsc ==> x.size <= y.size
                &&& sort_order == SortOrder::SizeDesc ==> x.size >= y.size
                &&& sort_order == SortOrder::ModifiedAsc ==> x.modified <= y.modified
                &&& sort_order == SortOrder::ModifiedDesc ==> x.modified >= y.modified
                &&& sort_order == SortOrder::NameAsc ==> !chars_before(
                    name_key(y.path@),
                    name_key(x.path@),
                )
                &&& sort_order == SortOrder::NameDesc ==> !chars_before(
                    name_key(x.path@),
                    name_key(y.path@),
                )
                &&& sort_order == SortOrder::PathAsc ==> path_order(x.path@, y.path@) <= 0
                &&& sort_order == SortOrder::PathDesc ==> path_order(y.path@, x.path@) <= 0
            },
{
    let n = results.len();
    let mut keys: Vec<Vec<char>> = Vec::new();
    if sort_order == SortOrder::NameAsc || sort_order == SortOrder::NameDesc {
        let mut k: usize = 0;
        while k < n
            invariant
                n == results@.len(),
                k <= n,
                keys@.len() == k,
                forall|i: int| 0 <= i < k ==> #[trigger] keys@[i]@ == name_key(results@[i].path@),
            decreases n - k,
        {
            let key = file_name_key(results[k].path.as_str());
            keys.push(chars_of(key.as_str()));
            k = k + 1;
        }
    }
    let perm = sort_range(sort_order, results, &keys, 0, n);
    let ghost old_results = results@;

    // move the entries out, last first, and back in the sorted order
    let mut src: Vec<ResultEntry> = Vec::new();
    std::mem::swap(&mut src, results);
    let mut slots: Vec<Option<ResultEntry>> = Vec::new();
    while src.len() > 0
        invariant
            old_results.len() == n,
            src@.len() + slots@.len() == n,
            forall|i: int| 0 <= i < src@.len() ==> src@[i] == old_results[i],
            forall|i: int|
                0 <= i < slots@.len() ==> #[trigger] slots@[i] == Some(old_results[n - 1 - i]),
        decreases src@.len(),
    {
        let e = src.pop().unwrap();
        slots.push(Some(e));
    }
    let mut k: usize = 0;
    while k < n
        invariant
            old_results.len() == n,
            slots@.len() == n,
            perm@.len() == n,
            perm@.no_duplicates(),
            in_range(perm@, 0, n as int),
            k <= n,
            results@.len() == k,
            forall|i: int| 0 <= i < k ==> #[trigger] results@[i] == old_results[perm@[i] as int],
            forall|x: usize| perm@.contains(x) <==> x < n,
            forall|i: int|
                k <= i < n ==> slots@[n - 1 - perm@[i]] == Some(
                    old_results[#[trigger] perm@[i] as int],
                ),
        decreases n - k,
    {
        let t = perm[k];
        let e = slots[n - 1 - t].take().unwrap();
        results.push(e);
        k = k + 1;
    }
    proof {
        assert(is_permutation(perm@, old_results.len()));
        assert forall|a: int, b: int|
            0 <= a < b < results@.len() implies !goes_after(
            sort_order,
            #[trigger] results@[a],
            #[trigger] results@[b],
        ) by {
            assert(results@[a] == old_results[perm@[a] as int]);
            assert(results@[b] == old_results[perm@[b] as int]);
        }
        lemma_sorted_by_key(sort_order, old_results, perm@);
        assert forall|a: int, b: int|
            #![trigger results@[a], results@[b]]
            0 <= a < b < results@.len() implies {
                let x = results@[a];
                let y = results@[b];
                &&& sort_order == SortOrder::SizeAsc ==> x.size <= y.size
                &&& sort_order == SortOrder::SizeDesc ==> x.size >= y.size
                &&& sort_order == SortOrder::ModifiedAsc ==> x.modified <= y.modified
                &&& sort_order == SortOrder::ModifiedDesc ==> x.modified >= y.modified
                &&& sort_order == SortOrder::NameAsc ==> !chars_before(
                    name_key(y.path@),
                    name_key(x.path@),
                )
                &&& sort_order == SortOrder::NameDesc ==> !chars_before(
                    name_key(x.path@),
                    name_key(y.path@),
                )
                &&& sort_order == SortOrder::PathAsc ==> path_order(x.path@, y.path@) <= 0
                &&& sort_order == SortOrder::PathDesc ==> path_order(y.path@, x.path@) <= 0
            } by {
            assert(results@[a] == old_results[perm@[a] as int]);
            assert(results@[b] == old_results[perm@[b] as int]);
        }
    }
}

/// A stable sort in an order lists the results by its key, compared as
/// plain values: sizes in bytes and modification times in seconds never
/// decrease along an ascending list and never increase along a descending
/// one; names by their lowercased file name and paths by `Path`'s order
/// likewise; and two results with equal keys keep their relative order.
pub proof fn lemma_sorted_by_key(order: SortOrder, s: Seq<ResultEntry>, p: Seq<usize>)
    requires
        is_permutation(p, s.len()),
        in_order(order, s, p),
        stably_sorted(order, s, p),
    ensures
        forall|a: int, b: int|
            #![trigger p[a], p[b]]
            0 <= a < b < p.len() ==> {
                let x = s[p[a] as int];
                let y = s[p[b] as int];
                &&& order == SortOrder::SizeAsc ==> x.size <= y.size && (x.size == y.size ==> p[a]
                    < p[b])
                &&& order == SortOrder::SizeDesc ==> x.size >= y.size && (x.size == y.size ==> p[a]
                    < p[b])
                &&& order == SortOrder::ModifiedAsc ==> x.modified <= y.modified && (x.modified
                    == y.modified ==> p[a] < p[b])
                &&& order == SortOrder::ModifiedDesc ==> x.modified >= y.modified && (x.modified
                    == y.modified ==> p[a] < p[b])
                &&& order == SortOrder::NameAsc ==> !chars_before(
                    name_key(y.path@),
                    name_key(x.path@),
                ) && (name_key(x.path@) == name_key(y.path@) ==> p[a] < p[b])
                &&& order == SortOrder::NameDesc ==> !chars_before(
                    name_key(x.path@),
                    name_key(y.path@),
                ) && (name_key(x.path@) == name_key(y.path@) ==> p[a] < p[b])
                &&& order == SortOrder::PathAsc ==> path_order(x.path@, y.path@) <= 0 && (path_order(
                    x.path@,
                    y.path@,
                ) == 0 && path_order(y.path@, x.path@) == 0 ==> p[a] < p[b])
                &&& order == SortOrder::PathDesc ==> path_order(y.path@, x.path@) <= 0 && (
                path_order(x.path@, y.path@) == 0 && path_order(y.path@, x.path@) == 0 ==> p[a]
                    < p[b])
            },
{
    assert forall|a: int, b: int|
        #![trigger p[a], p[b]]
        0 <= a < b < p.len() implies {
            let x = s[p[a] as int];
            let y = s[p[b] as int];
            &&& order == SortOrder::SizeAsc ==> x.size <= y.size && (x.size == y.size ==> p[a]
                < p[b])
            &&& order == SortOrder::SizeDesc ==> x.size >= y.size && (x.size == y.size ==> p[a]
                < p[b])
            &&& order == SortOrder::ModifiedAsc ==> x.modified <= y.modified && (x.modified
                == y.modified ==> p[a] < p[b])
            &&& order == SortOrder::ModifiedDesc ==> x.modified >= y.modified && (x.modified
                == y.modified ==> p[a] < p[b])
            &&& order == SortOrder::NameAsc ==> !chars_before(
                name_key(y.path@),
                name_key(x.path@),
            ) && (name_key(x.path@) == name_key(y.path@) ==> p[a] < p[b])
            &&& order == SortOrder::NameDesc ==> !chars_before(
                name_key(x.path@),
                name_key(y.path@),
            ) && (name_key(x.path@) == name_key(y.path@) ==> p[a] < p[b])
            &&& order == SortOrder::PathAsc ==> path_order(x.path@, y.path@) <= 0 && (path_order(
                x.path@,
                y.path@,
            ) == 0 && path_order(y.path@, x.path@) == 0 ==> p[a] < p[b])
            &&& order == SortOrder::PathDesc ==> path_order(y.path@, x.path@) <= 0 && (
            path_order(x.path@, y.path@) == 0 && path_order(y.path@, x.path@) == 0 ==> p[a]
                < p[b])
        } by {
        let x = s[p[a] as int];
        let y = s[p[b] as int];
        assert(!goes_after(order, x, y));
        assert(precedes(order, s, p[a], p[b]));
        lemma_chars_before_irreflexive(name_key(x.path@));
    }
}

/// A stable sort has one outcome: two orderings of the same results that are
/// both stable sorts are the same ordering.
pub proof fn lemma_stable_sort_unique(
    order: SortOrder,
    s: Seq<ResultEntry>,
    p: Seq<usize>,
    q: Seq<usize>,
)
    requires
        is_permutation(p, s.len()),
        is_permutation(q, s.len()),
        stably_sorted(order, s, p),
        stably_sorted(order, s, q),
    ensures
        p == q,
{
    if p != q {
        assert(!(p =~= q));
        let k = choose|k: int| 0 <= k < p.len() && p[k] != q[k];
        lemma_first_difference(p, q, k);
        let first = choose|k: int|
            0 <= k < p.len() && p[k] != q[k] && forall|j: int| 0 <= j < k ==> p[j] == q[j];
        let x = p[first];
        let y = q[first];
        assert(p.contains(y));
        let jp = choose|j: int| 0 <= j < p.len() && p[j] == y;
        assert(q.contains(x));
        let jq = choose|j: int| 0 <= j < q.len() && q[j] == x;
        assert(jp > first) by {
            if jp < first {
                assert(q[jp] == y);
                assert(q[first] == y);
            }
        }
        assert(jq > first) by {
            if jq < first {
                assert(p[jq] == x);
                assert(p[first] == x);
            }
        }
        assert(precedes(order, s, p[first], p[jp]));
        assert(precedes(order, s, q[first], q[jq]));
    }
}

/// The ascending and the descending order by the same key.
pub open spec fn reversed_orders(asc: SortOrder, desc: SortOrder) -> bool {
    ||| asc == SortOrder::NameAsc && desc == SortOrder::NameDesc
    ||| asc == SortOrder::PathAsc && desc == SortOrder::PathDesc
    ||| asc == SortOrder::SizeAsc && desc == SortOrder::SizeDesc
    ||| asc == SortOrder::ModifiedAsc && desc == SortOrder::ModifiedDesc
}

/// No two results tie: of any two, one must come after the other.
pub open spec fn no_ties(order: SortOrder, s: Seq<ResultEntry>) -> bool {
    forall|i: int, j: int|
        0 <= i < s.len() && 0 <= j < s.len() && i != j ==> #[trigger] goes_after(order, s[i], s[j])
            || #[trigger] goes_after(order, s[j], s[i])
}

/// Where no two results tie, sorting them descending lists them in the
/// reverse of sorting them ascending: `p` lists the results in ascending
/// order and `q` is a stable descending sort (as `apply_sort` gives them).
pub proof fn lemma_desc_reverses_asc(
    asc: SortOrder,
    desc: SortOrder,
    s: Seq<ResultEntry>,
    p: Seq<usize>,
    q: Seq<usize>,
)
    requires
        reversed_orders(asc, desc),
        no_ties(asc, s),
        is_permutation(p, s.len()),
        is_permutation(q, s.len()),
        in_order(asc, s, p),
        stably_sorted(desc, s, q),
    ensures
        forall|k: int| 0 <= k < p.len() ==> q[k] == p[p.len() - 1 - k],
{
    let n = p.len() as int;
    let rp = Seq::new(p.len(), |k: int| p[n - 1 - k]);
    assert forall|x: ResultEntry, y: ResultEntry| goes_after(desc, x, y) == goes_after(asc, y, x) by {}
    assert(rp.no_duplicates()) by {
        assert forall|a: int, b: int| 0 <= a < rp.len() && 0 <= b < rp.len() && a != b implies rp[a]
            != rp[b] by {
            assert(p[n - 1 - a] != p[n - 1 - b]);
        }
    }
    assert forall|v: usize| v < s.len() implies #[trigger] rp.contains(v) by {
        assert(p.contains(v));
        let i = choose|i: int| 0 <= i < p.len() && p[i] == v;
        assert(rp[n - 1 - i] == v);
    }
    assert forall|k: int| 0 <= k < rp.len() implies #[trigger] rp[k] < s.len() by {
        assert(p[n - 1 - k] < s.len());
    }
    assert(is_permutation(rp, s.len()));
    assert forall|a: int, b: int| 0 <= a < b < rp.len() implies precedes(desc, s, rp[a], rp[b]) by {
        let u = p[n - 1 - b];
        let v = p[n - 1 - a];
        assert(rp[a] == v && rp[b] == u);
        assert(!goes_after(asc, s[u as int], s[v as int]));
        assert(u != v);
        assert(goes_after(asc, s[u as int], s[v as int]) || goes_after(asc, s[v as int], s[u as int]));
    }
    assert(stably_sorted(desc, s, rp));
    lemma_stable_sort_unique(desc, s, rp, q);
}

/// Where two sequences of the same length differ, they differ first somewhere.
proof fn lemma_first_difference(p: Seq<usize>, q: Seq<usize>, k: int)
    requires
        p.len() == q.len(),
        0 <= k < p.len(),
        p[k] != q[k],
    ensures
        exists|f: int| 0 <= f < p.len() && p[f] != q[f] && forall|j: int| 0 <= j < f ==> p[j] == q[j],
    decreases k,
{
    if exists|j: int| 0 <= j < k && p[j] != q[j] {
        let j = choose|j: int| 0 <= j < k && p[j] != q[j];
        lemma_first_difference(p, q, j);
    }
}

} // verus!
