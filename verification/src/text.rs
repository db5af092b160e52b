//! Character-level text helpers: character classes of the log grammar,
//! substring search over `Seq<char>` views, lexicographic ordering for
//! participant names, and the single reliance on `str::to_lowercase`.

use vstd::prelude::*;

verus! {

/// ASCII decimal digit.
pub open spec fn is_digit(c: char) -> bool {
    '0' <= c && c <= '9'
}

/// Word character of the line grammar: ASCII letter, digit or underscore.
pub open spec fn is_word_char(c: char) -> bool {
    ||| is_digit(c)
    ||| 'A' <= c && c <= 'Z'
    ||| 'a' <= c && c <= 'z'
    ||| c == '_'
}

/// Numeric value of an ASCII digit.
pub open spec fn digit_val(c: char) -> int {
    c as u32 - '0' as u32
}

pub fn digit_char(c: char) -> (r: bool)
    ensures
        r == is_digit(c),
{
    '0' <= c && c <= '9'
}

pub fn word_char(c: char) -> (r: bool)
    ensures
        r == is_word_char(c),
{
    digit_char(c) || ('A' <= c && c <= 'Z') || ('a' <= c && c <= 'z') || c == '_'
}

/// `needle` occurs in `hay` starting at position `i`.
pub open spec fn matches_at(hay: Seq<char>, i: int, needle: Seq<char>) -> bool {
    &&& 0 <= i
    &&& i + needle.len() <= hay.len()
    &&& hay.subrange(i, i + needle.len() as int) == needle
}

/// `needle` occurs somewhere in `hay`.
pub open spec fn has_sub(hay: Seq<char>, needle: Seq<char>) -> bool {
    exists|i: int| matches_at(hay, i, needle)
}

/// Compare `needle` against `hay` at position `i`.
pub fn check_at(hay: &str, i: usize, n_hay: usize, needle: &str, n_needle: usize) -> (r: bool)
    requires
        n_hay == hay@.len(),
        n_needle == needle@.len(),
        i + n_needle <= n_hay,
    ensures
        r == matches_at(hay@, i as int, needle@),
{
    let mut j: usize = 0;
    while j < n_needle
        invariant
            0 <= j <= n_needle,
            n_hay == hay@.len(),
            n_needle == needle@.len(),
            i + n_needle <= n_hay,
            forall|k: int| 0 <= k < j ==> hay@[i + k] == needle@[k],
        decreases n_needle - j,
    {
        if hay.get_char(i + j) != needle.get_char(j) {
            assert(hay@.subrange(i as int, i + n_needle as int)[j as int] != needle@[j as int]);
            return false;
        }
        j += 1;
    }
    assert(hay@.subrange(i as int, i + n_needle as int) =~= needle@);
    true
}

/// First position from `i` on where `needle` occurs in `hay`.
pub open spec fn find_from(hay: Seq<char>, needle: Seq<char>, i: int) -> Option<int>
    decreases hay.len() - i,
{
    if i + needle.len() > hay.len() {
        None
    } else if needle.len() == 0 {
        Some(i)
    } else if matches_at(hay, i, needle) {
        Some(i)
    } else {
        find_from(hay, needle, i + 1)
    }
}

/// Position of the first occurrence of `needle` in `hay`, if any.
pub open spec fn find_first(hay: Seq<char>, needle: Seq<char>) -> Option<int> {
    find_from(hay, needle, 0)
}

/// Position of the first occurrence of `needle` in `hay`, if any.
pub fn find_sub(hay: &str, needle: &str) -> (r: Option<usize>)
    ensures
        match r {
            Some(i) => find_first(hay@, needle@) == Some(i as int) && matches_at(
                hay@,
                i as int,
                needle@,
            ) && forall|j: int| 0 <= j < i ==> !matches_at(hay@, j, needle@),
            None => find_first(hay@, needle@) is None && !has_sub(hay@, needle@),
        },
{
    let n_hay = hay.unicode_len();
    let n_needle = needle.unicode_len();
    if n_needle == 0 {
        assert(hay@.subrange(0, 0) =~= needle@);
        return Some(0);
    }
    if n_needle > n_hay {
        return None;
    }
    let mut i: usize = 0;
    while i <= n_hay - n_needle
        invariant
            n_hay == hay@.len(),
            n_needle == needle@.len(),
            0 < n_needle <= n_hay,
            0 <= i <= n_hay - n_needle + 1,
            find_first(hay@, needle@) == find_from(hay@, needle@, i as int),
            forall|j: int| 0 <= j < i ==> !matches_at(hay@, j, needle@),
        decreases n_hay - i,
    {
        if check_at(hay, i, n_hay, needle, n_needle) {
            assert(find_from(hay@, needle@, i as int) == Some(i as int));
            return Some(i);
        }
        assert(find_from(hay@, needle@, i as int) == find_from(hay@, needle@, i + 1));
        i += 1;
    }
    assert(find_from(hay@, needle@, i as int) is None);
    assert forall|j: int| 0 <= j < hay@.len() implies !matches_at(hay@, j, needle@) by {
        if j > n_hay - n_needle {
            assert(j + needle@.len() > hay@.len());
        }
    }
    None
}

/// Whether `needle` occurs in `hay`.
pub fn contains_sub(hay: &str, needle: &str) -> (r: bool)
    ensures
        r == has_sub(hay@, needle@),
{
    match find_sub(hay, needle) {
        Some(_) => true,
        None => false,
    }
}

/// Splitting a sequence at a span where `needle` occurs reassembles to the
/// original: the text before the span, the needle, and the text after it.
pub proof fn lemma_split_round_trip(hay: Seq<char>, needle: Seq<char>, i: int)
    requires
        matches_at(hay, i, needle),
    ensures
        hay == hay.take(i) + needle + hay.skip(i + needle.len() as int),
{
    assert(hay =~= hay.take(i) + hay.subrange(i, i + needle.len() as int) + hay.skip(
        i + needle.len() as int,
    ));
}

/// Strict lexicographic order on character sequences, by code point; this is
/// the order in which `String` keys compare in the standard library.
pub open spec fn lex_lt(a: Seq<char>, b: Seq<char>) -> bool
    decreases a.len(),
{
    if b.len() == 0 {
        false
    } else if a.len() == 0 {
        true
    } else if a[0] < b[0] {
        true
    } else if a[0] == b[0] {
        lex_lt(a.skip(1), b.skip(1))
    } else {
        false
    }
}

pub proof fn lemma_lex_lt_connected(a: Seq<char>, b: Seq<char>)
    requires
        !lex_lt(a, b),
        !lex_lt(b, a),
    ensures
        a == b,
    decreases a.len(),
{
    if b.len() == 0 {
        assert(a.len() == 0);
        assert(a =~= b);
    } else if a.len() == 0 {
        assert(false);
    } else {
        assert(a[0] == b[0]);
        lemma_lex_lt_connected(a.skip(1), b.skip(1));
        assert(a =~= seq![a[0]] + a.skip(1));
        assert(b =~= seq![b[0]] + b.skip(1));
    }
}

pub proof fn lemma_lex_lt_asymmetric(a: Seq<char>, b: Seq<char>)
    requires
        lex_lt(a, b),
    ensures
        !lex_lt(b, a),
        a != b,
    decreases a.len(),
{
    if a.len() == 0 {
    } else if a[0] < b[0] {
    } else {
        lemma_lex_lt_asymmetric(a.skip(1), b.skip(1));
        assert(a =~= seq![a[0]] + a.skip(1));
        assert(b =~= seq![b[0]] + b.skip(1));
    }
}

pub proof fn lemma_lex_lt_transitive(a: Seq<char>, b: Seq<char>, c: Seq<char>)
    requires
        lex_lt(a, b),
        lex_lt(b, c),
    ensures
        lex_lt(a, c),
    decreases a.len(),
{
    if b.len() == 0 {
        assert(false);
    } else if c.len() == 0 {
        assert(false);
    } else if a.len() == 0 {
    } else {
        if a[0] < b[0] {
        } else {
            assert(a[0] == b[0]);
            if b[0] < c[0] {
            } else {
                assert(b[0] == c[0]);
                lemma_lex_lt_transitive(a.skip(1), b.skip(1), c.skip(1));
            }
        }
    }
}

/// Compare two strings in the lexicographic order `lex_lt`.
pub fn str_lt(a: &str, b: &str) -> (r: bool)
    ensures
        r == lex_lt(a@, b@),
{
    let n_a = a.unicode_len();
    let n_b = b.unicode_len();
    let mut i: usize = 0;
    proof {
        assert(a@.skip(0) =~= a@);
        assert(b@.skip(0) =~= b@);
    }
    loop
        invariant
            n_a == a@.len(),
            n_b == b@.len(),
            0 <= i <= n_a,
            0 <= i <= n_b,
            lex_lt(a@, b@) == lex_lt(a@.skip(i as int), b@.skip(i as int)),
        decreases n_a - i,
    {
        if i == n_b {
            assert(b@.skip(i as int).len() == 0);
            return false;
        }
        if i == n_a {
            assert(a@.skip(i as int).len() == 0);
            assert(b@.skip(i as int).len() > 0);
            return true;
        }
        let ca = a.get_char(i);
        let cb = b.get_char(i);
        assert(a@.skip(i as int)[0] == ca && b@.skip(i as int)[0] == cb);
        if ca < cb {
            return true;
        }
        if ca != cb {
            assert(!lex_lt(a@.skip(i as int), b@.skip(i as int)));
            return false;
        }
        proof {
            assert(a@.skip(i as int).skip(1) =~= a@.skip(i + 1));
            assert(b@.skip(i as int).skip(1) =~= b@.skip(i + 1));
        }
        i += 1;
    }
}

/// The character sequence that `str::to_lowercase` produces from `s`; the
/// result depends on the characters of `s` alone.
pub uninterp spec fn lower_of(s: Seq<char>) -> Seq<char>;

/// Relies on `str::to_lowercase`: the Unicode lowercase mapping of the
/// characters of `s`, which is a function of those characters alone; an
/// empty string stays empty.
#[verifier::external_body]
pub fn lowercase(s: &str) -> (r: String)
    ensures
        r@ == lower_of(s@),
        s@.len() == 0 ==> r@.len() == 0,
{
    s.to_lowercase()
}

} // verus!
