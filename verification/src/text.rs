use vstd::prelude::*;

verus! {

broadcast use vstd::string::group_string_axioms;

/// What `str::to_lowercase` gives for a string: the Unicode lowercase mapping,
/// applied with the context rules of the standard library.
pub uninterp spec fn lowercase(s: Seq<char>) -> Seq<char>;

/// `str::to_lowercase`. The contract claims only that the result is a fixed
/// function of the characters of the argument.
#[verifier::external_body]
pub(crate) fn to_lowercase(s: &str) -> (r: String)
    ensures
        r@ == lowercase(s@),
{
    s.to_lowercase()
}

/// `String::from_iter` on a vector of characters: the string holds exactly
/// those characters, in order.
#[verifier::external_body]
pub(crate) fn string_from_chars(v: Vec<char>) -> (r: String)
    ensures
        r@ == v@,
{
    String::from_iter(v)
}

/// The characters of a string slice, in order.
pub fn chars_of(s: &str) -> (r: Vec<char>)
    ensures
        r@ == s@,
{
    let mut out: Vec<char> = Vec::new();
    for c in it: s.chars()
        invariant
            it.seq() == s@,
            out@ == s@.take(it.index() as int),
    {
        out.push(c);
    }
    assert(out@ =~= s@);
    out
}

/// A `String` with the characters of `s`.
pub fn text_of(s: &str) -> (r: String)
    ensures
        r@ == s@,
{
    string_from_chars(chars_of(s))
}

/// The characters with the Unicode White_Space property, which is what
/// `char::is_whitespace` tests.
pub open spec fn is_white_space(c: char) -> bool {
    let n = c as int;
    ||| 9 <= n <= 13
    ||| n == 32
    ||| n == 0x85
    ||| n == 0xA0
    ||| n == 0x1680
    ||| 0x2000 <= n <= 0x200A
    ||| n == 0x2028
    ||| n == 0x2029
    ||| n == 0x202F
    ||| n == 0x205F
    ||| n == 0x3000
}

/// `char::is_whitespace`.
pub fn is_whitespace(c: char) -> (r: bool)
    ensures
        r == is_white_space(c),
{
    ('\u{9}' <= c && c <= '\u{d}') || c == ' ' || c == '\u{85}' || c == '\u{a0}' || c
        == '\u{1680}' || ('\u{2000}' <= c && c <= '\u{200a}') || c == '\u{2028}' || c == '\u{2029}'
        || c == '\u{202f}' || c == '\u{205f}' || c == '\u{3000}'
}

/// The text without its leading white space.
pub open spec fn trim_start(s: Seq<char>) -> Seq<char>
    decreases s.len(),
{
    if s.len() > 0 && is_white_space(s[0]) {
        trim_start(s.drop_first())
    } else {
        s
    }
}

/// The text without its trailing white space.
pub open spec fn trim_end(s: Seq<char>) -> Seq<char>
    decreases s.len(),
{
    if s.len() > 0 && is_white_space(s.last()) {
        trim_end(s.drop_last())
    } else {
        s
    }
}

/// What `str::trim` gives: the text without leading and trailing white space.
pub open spec fn trim(s: Seq<char>) -> Seq<char> {
    trim_end(trim_start(s))
}

/// What `str::trim_start_matches('.')` gives: the text without its leading dots.
pub open spec fn strip_leading_dots(s: Seq<char>) -> Seq<char>
    decreases s.len(),
{
    if s.len() > 0 && s[0] == '.' {
        strip_leading_dots(s.drop_first())
    } else {
        s
    }
}

/// Dropping the leading white space keeps a suffix: everything before it is
/// white space, and it starts with a character that is not.
proof fn lemma_trim_start_shape(s: Seq<char>)
    ensures
        exists|i: int|
            0 <= i <= s.len() && trim_start(s) == s.skip(i) && (forall|k: int|
                0 <= k < i ==> is_white_space(#[trigger] s[k])) && (i < s.len() ==> !is_white_space(
                s[i],
            )),
    decreases s.len(),
{
    if s.len() > 0 && is_white_space(s[0]) {
        lemma_trim_start_shape(s.drop_first());
        let i = choose|i: int|
            0 <= i <= s.drop_first().len() && trim_start(s.drop_first()) == s.drop_first().skip(i)
                && (forall|k: int| 0 <= k < i ==> is_white_space(#[trigger] s.drop_first()[k])) && (i
                < s.drop_first().len() ==> !is_white_space(s.drop_first()[i]));
        assert(s.drop_first().skip(i) =~= s.skip(i + 1));
        assert forall|k: int| 0 <= k < i + 1 implies is_white_space(#[trigger] s[k]) by {
            if k > 0 {
                assert(s[k] == s.drop_first()[k - 1]);
            }
        }
        assert(i + 1 < s.len() ==> s[i + 1] == s.drop_first()[i]);
    } else {
        assert(s.skip(0) =~= s);
    }
}

/// Dropping the trailing white space keeps a prefix: everything after it is
/// white space, and it ends with a character that is not.
proof fn lemma_trim_end_shape(s: Seq<char>)
    ensures
        exists|j: int|
            0 <= j <= s.len() && trim_end(s) == s.take(j) && (forall|k: int|
                j <= k < s.len() ==> is_white_space(#[trigger] s[k])) && (j > 0 ==> !is_white_space(
                s[j - 1],
            )),
    decreases s.len(),
{
    if s.len() > 0 && is_white_space(s.last()) {
        lemma_trim_end_shape(s.drop_last());
        let j = choose|j: int|
            0 <= j <= s.drop_last().len() && trim_end(s.drop_last()) == s.drop_last().take(j)
                && (forall|k: int| j <= k < s.drop_last().len() ==> is_white_space(
                #[trigger] s.drop_last()[k],
            )) && (j > 0 ==> !is_white_space(s.drop_last()[j - 1]));
        assert(s.drop_last().take(j) =~= s.take(j));
        assert forall|k: int| j <= k < s.len() implies is_white_space(#[trigger] s[k]) by {
            if k < s.len() - 1 {
                assert(s[k] == s.drop_last()[k]);
            }
        }
        assert(j > 0 ==> s[j - 1] == s.drop_last()[j - 1]);
    } else {
        assert(s.take(s.len() as int) =~= s);
    }
}

/// What trimming keeps: a run of the text with only white space before and
/// after it, that neither starts nor ends with white space.
pub proof fn lemma_trim_law(s: Seq<char>)
    ensures
        exists|i: int, j: int|
            0 <= i <= j <= s.len() && trim(s) == s.subrange(i, j) && (forall|k: int|
                0 <= k < i ==> is_white_space(#[trigger] s[k])) && (forall|k: int|
                j <= k < s.len() ==> is_white_space(#[trigger] s[k])) && (i < j ==> !is_white_space(
                s[i]) && !is_white_space(s[j - 1])),
{
    lemma_trim_start_shape(s);
    let i = choose|i: int|
        0 <= i <= s.len() && trim_start(s) == s.skip(i) && (forall|k: int|
            0 <= k < i ==> is_white_space(#[trigger] s[k])) && (i < s.len() ==> !is_white_space(
            s[i],
        ));
    let t = s.skip(i);
    lemma_trim_end_shape(t);
    let j = choose|j: int|
        0 <= j <= t.len() && trim_end(t) == t.take(j) && (forall|k: int|
            j <= k < t.len() ==> is_white_space(#[trigger] t[k])) && (j > 0 ==> !is_white_space(
            t[j - 1],
        ));
    assert(t.take(j) =~= s.subrange(i, i + j));
    assert forall|k: int| i + j <= k < s.len() implies is_white_space(#[trigger] s[k]) by {
        assert(s[k] == t[k - i]);
    }
    if j > 0 {
        assert(s[i + j - 1] == t[j - 1]);
    }
    assert(trim(s) == s.subrange(i, i + j));
}

/// The number of dots a text starts with.
spec fn leading_dots(s: Seq<char>) -> int
    decreases s.len(),
{
    if s.len() > 0 && s[0] == '.' {
        1 + leading_dots(s.drop_first())
    } else {
        0
    }
}

proof fn lemma_leading_dots(s: Seq<char>)
    ensures
        0 <= leading_dots(s) <= s.len(),
        strip_leading_dots(s) == s.skip(leading_dots(s)),
        forall|k: int| #![trigger s[k]] 0 <= k < leading_dots(s) ==> s[k] == '.',
        leading_dots(s) < s.len() ==> s[leading_dots(s)] != '.',
    decreases s.len(),
{
    if s.len() > 0 && s[0] == '.' {
        let t = s.drop_first();
        lemma_leading_dots(t);
        assert(t.skip(leading_dots(t)) =~= s.skip(leading_dots(s)));
        assert forall|k: int| #![trigger s[k]] 0 <= k < leading_dots(s) implies s[k] == '.' by {
            if k > 0 {
                assert(s[k] == t[k - 1]);
            }
        }
        if leading_dots(s) < s.len() {
            assert(s[leading_dots(s)] == t[leading_dots(t)]);
        }
    } else {
        assert(s.skip(0) =~= s);
    }
}

/// What stripping leading dots keeps: the text after a run of dots, which
/// does not start with a dot.
pub proof fn lemma_strip_leading_dots_law(s: Seq<char>)
    ensures
        exists|i: int|
            #![trigger s.skip(i)]
            0 <= i <= s.len() && strip_leading_dots(s) == s.skip(i) && (forall|k: int|
                #![trigger s[k]]
                0 <= k < i ==> s[k] == '.') && (i < s.len() ==> s[i] != '.'),
{
    lemma_leading_dots(s);
    let i = leading_dots(s);
    assert(0 <= i <= s.len() && strip_leading_dots(s) == s.skip(i) && (forall|k: int|
        #![trigger s[k]]
        0 <= k < i ==> s[k] == '.') && (i < s.len() ==> s[i] != '.'));
}

/// The first index from `i` on that is not white space (or the length).
proof fn lemma_trim_start_skip(s: Seq<char>, i: int)
    requires
        0 <= i <= s.len(),
        forall|k: int| 0 <= k < i ==> is_white_space(#[trigger] s[k]),
    ensures
        trim_start(s) == trim_start(s.skip(i)),
    decreases i,
{
    if i > 0 {
        assert(s.drop_first().skip(i - 1) =~= s.skip(i));
        assert forall|k: int| 0 <= k < i - 1 implies is_white_space(#[trigger] s.drop_first()[k]) by {
            assert(s.drop_first()[k] == s[k + 1]);
        }
        lemma_trim_start_skip(s.drop_first(), i - 1);
    } else {
        assert(s.skip(0) =~= s);
    }
}

proof fn lemma_trim_end_take(s: Seq<char>, j: int)
    requires
        0 <= j <= s.len(),
        forall|k: int| j <= k < s.len() ==> is_white_space(#[trigger] s[k]),
    ensures
        trim_end(s) == trim_end(s.take(j)),
    decreases s.len() - j,
{
    if j < s.len() {
        assert(s.drop_last().take(j) =~= s.take(j));
        assert forall|k: int| j <= k < s.len() - 1 implies is_white_space(#[trigger] s.drop_last()[k]) by {
            assert(s.drop_last()[k] == s[k]);
        }
        lemma_trim_end_take(s.drop_last(), j);
    } else {
        assert(s.take(j) =~= s);
    }
}

proof fn lemma_strip_dots_skip(s: Seq<char>, i: int)
    requires
        0 <= i <= s.len(),
        forall|k: int| 0 <= k < i ==> #[trigger] s[k] == '.',
    ensures
        strip_leading_dots(s) == strip_leading_dots(s.skip(i)),
    decreases i,
{
    if i > 0 {
        assert(s.drop_first().skip(i - 1) =~= s.skip(i));
        assert forall|k: int| 0 <= k < i - 1 implies #[trigger] s.drop_first()[k] == '.' by {
            assert(s.drop_first()[k] == s[k + 1]);
        }
        lemma_strip_dots_skip(s.drop_first(), i - 1);
    } else {
        assert(s.skip(0) =~= s);
    }
}

/// `str::trim` on a sequence of characters.
pub fn trim_chars(s: &Vec<char>) -> (r: Vec<char>)
    ensures
        r@ == trim(s@),
{
    let mut i: usize = 0;
    while i < s.len() && is_whitespace(s[i])
        invariant
            i <= s@.len(),
            forall|k: int| 0 <= k < i ==> is_white_space(#[trigger] s@[k]),
        decreases s@.len() - i,
    {
        i = i + 1;
    }
    proof {
        lemma_trim_start_skip(s@, i as int);
    }
    let ghost rest = s@.skip(i as int);
    assert(trim_start(rest) == rest);
    let mut j: usize = s.len();
    while j > i && is_whitespace(s[j - 1])
        invariant
            i <= j <= s@.len(),
            rest == s@.skip(i as int),
            forall|k: int| j <= k < s@.len() ==> is_white_space(#[trigger] s@[k]),
        decreases j,
    {
        j = j - 1;
    }
    proof {
        assert forall|k: int| j - i <= k < rest.len() implies is_white_space(#[trigger] rest[k]) by {
            assert(rest[k] == s@[k + i]);
        }
        lemma_trim_end_take(rest, j - i);
        let t = rest.take(j - i);
        assert(t.len() == 0 || !is_white_space(t.last())) by {
            if t.len() > 0 {
                assert(t.last() == s@[j - 1]);
            }
        }
    }
    let mut out: Vec<char> = Vec::new();
    let mut k: usize = i;
    while k < j
        invariant
            i <= k <= j <= s@.len(),
            out@ == s@.subrange(i as int, k as int),
        decreases j - k,
    {
        out.push(s[k]);
        k = k + 1;
        assert(out@ =~= s@.subrange(i as int, k as int));
    }
    assert(out@ =~= rest.take(j - i));
    out
}

/// `str::trim` on a string slice.
pub fn trim_str(s: &str) -> (r: String)
    ensures
        r@ == trim(s@),
{
    string_from_chars(trim_chars(&chars_of(s)))
}

/// `str::trim_start_matches('.')` on a sequence of characters.
pub fn strip_dots(s: &Vec<char>) -> (r: Vec<char>)
    ensures
        r@ == strip_leading_dots(s@),
{
    let mut i: usize = 0;
    while i < s.len() && s[i] == '.'
        invariant
            i <= s@.len(),
            forall|k: int| 0 <= k < i ==> #[trigger] s@[k] == '.',
        decreases s@.len() - i,
    {
        i = i + 1;
    }
    proof {
        lemma_strip_dots_skip(s@, i as int);
    }
    let mut out: Vec<char> = Vec::new();
    let mut k: usize = i;
    while k < s.len()
        invariant
            i <= k <= s@.len(),
            out@ == s@.subrange(i as int, k as int),
        decreases s@.len() - k,
    {
        out.push(s[k]);
        k = k + 1;
        assert(out@ =~= s@.subrange(i as int, k as int));
    }
    assert(out@ =~= s@.skip(i as int));
    out
}

/// The separators of the extension filter (`,`, `;` and white space), or of
/// the exclude filter (`,` and `;`).
pub open spec fn is_separator(c: char, with_space: bool) -> bool {
    c == ',' || c == ';' || (with_space && is_white_space(c))
}

/// What `str::split` with a separator test gives: the pieces between
/// separators, empty ones included, so there is always at least one.
pub open spec fn split_pieces(s: Seq<char>, with_space: bool) -> Seq<Seq<char>>
    decreases s.len(),
{
    if s.len() == 0 {
        seq![Seq::empty()]
    } else {
        let p = split_pieces(s.drop_last(), with_space);
        if is_separator(s.last(), with_space) {
            p.push(Seq::empty())
        } else {
            p.update(p.len() - 1, p.last().push(s.last()))
        }
    }
}

/// Splitting always gives at least one piece.
pub proof fn lemma_split_pieces_nonempty(s: Seq<char>, with_space: bool)
    ensures
        split_pieces(s, with_space).len() >= 1,
    decreases s.len(),
{
    if s.len() > 0 {
        lemma_split_pieces_nonempty(s.drop_last(), with_space);
    }
}

/// Splits the text at the separators.
pub fn split_chars(s: &Vec<char>, with_space: bool) -> (r: Vec<Vec<char>>)
    ensures
        r@.map_values(|p: Vec<char>| p@) == split_pieces(s@, with_space),
{
    let mut done: Vec<Vec<char>> = Vec::new();
    let mut cur: Vec<char> = Vec::new();
    let mut i: usize = 0;
    while i < s.len()
        invariant
            i <= s@.len(),
            done@.map_values(|p: Vec<char>| p@).push(cur@) == split_pieces(
                s@.take(i as int),
                with_space,
            ),
        decreases s@.len() - i,
    {
        proof {
            assert(s@.take(i + 1).drop_last() =~= s@.take(i as int));
            lemma_split_pieces_nonempty(s@.take(i as int), with_space);
        }
        let c = s[i];
        let sep = c == ',' || c == ';' || (with_space && is_whitespace(c));
        let ghost before = done@.map_values(|p: Vec<char>| p@);
        if sep {
            let mut fresh: Vec<char> = Vec::new();
            std::mem::swap(&mut fresh, &mut cur);
            done.push(fresh);
            assert(done@.map_values(|p: Vec<char>| p@) =~= before.push(fresh@));
        } else {
            cur.push(c);
        }
        i = i + 1;
        assert(done@.map_values(|p: Vec<char>| p@).push(cur@) =~= split_pieces(
            s@.take(i as int),
            with_space,
        ));
    }
    assert(s@.take(i as int) =~= s@);
    done.push(cur);
    assert(done@.map_values(|p: Vec<char>| p@) =~= split_pieces(s@, with_space));
    done
}

/// `needle` occurs in `hay` as a run of consecutive characters.
pub open spec fn contains_chars(hay: Seq<char>, needle: Seq<char>) -> bool {
    exists|i: int| 0 <= i <= hay.len() - needle.len() && #[trigger] hay.subrange(i, i + needle.len()) == needle
}

/// `str::contains` on sequences of characters.
pub fn find_chars(hay: &Vec<char>, needle: &Vec<char>) -> (r: bool)
    ensures
        r == contains_chars(hay@, needle@),
{
    if needle.len() > hay.len() {
        return false;
    }
    let last = hay.len() - needle.len();
    let mut i: usize = 0;
    loop
        invariant
            last == hay@.len() - needle@.len(),
            needle@.len() <= hay@.len(),
            i <= last,
            forall|k: int| 0 <= k < i ==> #[trigger] hay@.subrange(k, k + needle@.len()) != needle@,
        decreases last - i,
    {
        let mut j: usize = 0;
        while j < needle.len() && hay[i + j] == needle[j]
            invariant
                i <= last,
                last == hay@.len() - needle@.len(),
                needle@.len() <= hay@.len(),
                j <= needle@.len(),
                hay@.len() == hay.len(),
                hay.len() <= usize::MAX,
                forall|k: int| 0 <= k < j ==> hay@[i + k] == needle@[k],
            decreases needle@.len() - j,
        {
            j = j + 1;
        }
        if j == needle.len() {
            assert(hay@.subrange(i as int, i + needle@.len()) =~= needle@);
            return true;
        }
        assert(hay@.subrange(i as int, i + needle@.len())[j as int] != needle@[j as int]);
        if i == last {
            return false;
        }
        i = i + 1;
    }
}

} // verus!
