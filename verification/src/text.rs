//! Character-level helpers on strings: their characters, substring search,
//! lower case, code-point order and splitting a path at its first `/`.

use vstd::prelude::*;
use vstd::utf8::is_ascii_chars;

verus! {

/// The characters of `s`, in order.
pub fn chars_of(s: &str) -> (v: Vec<char>)
    ensures
        v@ == s@,
{
    let mut v: Vec<char> = Vec::new();
    for c in it: s.chars()
        invariant
            v@ == it.seq().take(it.index() as int),
            it.seq() == s@,
    {
        v.push(c);
    }
    v
}

/// Appends one character to a string (`String::push`).
#[verifier::external_body]
fn push_char(s: &mut String, c: char)
    ensures
        final(s)@ == old(s)@.push(c),
{
    s.push(c);
}

/// The string made of the characters `v`, in order.
pub fn string_of_chars(v: &[char]) -> (s: String)
    ensures
        s@ == v@,
{
    let mut s = String::new();
    for i in 0..v.len()
        invariant
            s@ == v@.take(i as int),
    {
        push_char(&mut s, v[i]);
        assert(v@.take(i + 1) == v@.take(i as int).push(v@[i as int]));
    }
    assert(v@.take(v@.len() as int) == v@);
    s
}

/// `needle` occurs in `hay` as a contiguous run of characters.
pub open spec fn is_substring(hay: Seq<char>, needle: Seq<char>) -> bool {
    exists|i: int|
        0 <= i && i + needle.len() <= hay.len() && #[trigger] hay.subrange(i, i + needle.len())
            == needle
}

/// `needle` occurs in `hay` starting at position `i`.
spec fn occurs_at(hay: Seq<char>, needle: Seq<char>, i: int) -> bool {
    0 <= i && i + needle.len() <= hay.len() && forall|k: int|
        0 <= k < needle.len() ==> #[trigger] hay[i + k] == needle[k]
}

proof fn lemma_occurs_at_subrange(hay: Seq<char>, needle: Seq<char>, i: int)
    requires
        0 <= i && i + needle.len() <= hay.len(),
    ensures
        occurs_at(hay, needle, i) <==> hay.subrange(i, i + needle.len()) == needle,
{
    if occurs_at(hay, needle, i) {
        assert forall|k: int| 0 <= k < needle.len() implies hay.subrange(i, i + needle.len())[k]
            == needle[k] by {
            assert(hay[i + k] == needle[k]);
        }
        assert(hay.subrange(i, i + needle.len()) =~= needle);
    }
    if hay.subrange(i, i + needle.len()) == needle {
        assert forall|k: int| 0 <= k < needle.len() implies #[trigger] hay[i + k] == needle[k] by {
            assert(hay.subrange(i, i + needle.len())[k] == hay[i + k]);
        }
    }
}

/// Whether `needle` occurs in `hay` (`str::contains` with a string pattern).
pub fn contains_chars(hay: &Vec<char>, needle: &Vec<char>) -> (b: bool)
    ensures
        b == is_substring(hay@, needle@),
{
    let n = hay.len();
    let m = needle.len();
    if m > n {
        return false;
    }
    let mut i: usize = 0;
    while i <= n - m
        invariant
            m <= n,
            n == hay@.len(),
            m == needle@.len(),
            i <= n - m + 1,
            forall|j: int| 0 <= j < i ==> !occurs_at(hay@, needle@, j),
        decreases n - m + 1 - i,
    {
        let mut k: usize = 0;
        let mut same = true;
        while k < m
            invariant
                m <= n,
                i <= n - m,
                n == hay@.len(),
                m == needle@.len(),
                k <= m,
                same == forall|t: int| 0 <= t < k ==> #[trigger] hay@[i + t] == needle@[t],
            decreases m - k,
        {
            if hay[i + k] != needle[k] {
                same = false;
            }
            k = k + 1;
        }
        if same {
            proof {
                lemma_occurs_at_subrange(hay@, needle@, i as int);
            }
            return true;
        }
        i = i + 1;
    }
    proof {
        assert forall|j: int|
            0 <= j && j + needle@.len() <= hay@.len() implies #[trigger] hay@.subrange(
            j,
            j + needle@.len(),
        ) != needle@ by {
            lemma_occurs_at_subrange(hay@, needle@, j);
        }
    }
    false
}

/// Whether `needle` occurs in `hay` (`str::contains` with a string pattern).
pub fn str_contains(hay: &str, needle: &str) -> (b: bool)
    ensures
        b == is_substring(hay@, needle@),
{
    let h = chars_of(hay);
    let n = chars_of(needle);
    contains_chars(&h, &n)
}

/// The ASCII lower case of a character: `A`..`Z` become `a`..`z`, every
/// other character stays.
pub open spec fn ascii_lower_char(c: char) -> char {
    if 'A' <= c && c <= 'Z' {
        ((c as u32) + 32) as char
    } else {
        c
    }
}

/// The ASCII upper case of a character: `a`..`z` become `A`..`Z`, every
/// other character stays.
pub open spec fn ascii_upper_char(c: char) -> char {
    if 'a' <= c && c <= 'z' {
        ((c as u32) - 32) as char
    } else {
        c
    }
}

/// The ASCII lower case of a string, character by character.
pub open spec fn ascii_lowercase(s: Seq<char>) -> Seq<char> {
    s.map_values(|c: char| ascii_lower_char(c))
}

/// The ASCII upper case of a string, character by character.
pub open spec fn ascii_uppercase(s: Seq<char>) -> Seq<char> {
    s.map_values(|c: char| ascii_upper_char(c))
}

/// The lower-case form of a string outside ASCII, as `str::to_lowercase`
/// computes it (Unicode's `Lowercase` mapping, which may change the length
/// and depends on the neighbouring characters for a final sigma).
pub uninterp spec fn unicode_lowercase(s: Seq<char>) -> Seq<char>;

/// The lower-case form of a string, as `str::to_lowercase` computes it: on
/// ASCII strings, Unicode lower case is the ASCII one.
pub open spec fn lowercase(s: Seq<char>) -> Seq<char> {
    if is_ascii_chars(s) {
        ascii_lowercase(s)
    } else {
        unicode_lowercase(s)
    }
}

/// `str::to_lowercase`: the ASCII lower case of an ASCII string, otherwise
/// the Unicode lower case named `unicode_lowercase` of the argument.
#[verifier::external_body]
pub(crate) fn to_lowercase(s: &str) -> (r: String)
    ensures
        is_ascii_chars(s@) ==> r@ == ascii_lowercase(s@),
        !is_ascii_chars(s@) ==> r@ == unicode_lowercase(s@),
{
    s.to_lowercase()
}

/// An ASCII string and its ASCII upper case have the same ASCII lower case.
pub proof fn lemma_ascii_case_round_trip(s: Seq<char>)
    requires
        is_ascii_chars(s),
    ensures
        is_ascii_chars(ascii_uppercase(s)),
        ascii_lowercase(ascii_uppercase(s)) == ascii_lowercase(s),
{
    let u = ascii_uppercase(s);
    assert forall|i: int| 0 <= i < u.len() implies '\0' <= #[trigger] u[i] <= '\u{7f}' by {
        assert('\0' <= s[i] <= '\u{7f}');
    }
    assert(ascii_lowercase(u) =~= ascii_lowercase(s));
}

/// Code-point (and so UTF-8 byte) lexicographic order: `a` sorts strictly
/// before `b`, as `<` on `str` orders them.
pub open spec fn lex_lt(a: Seq<char>, b: Seq<char>) -> bool
    decreases a.len(),
{
    if a.len() == 0 {
        b.len() > 0
    } else if b.len() == 0 {
        false
    } else if a[0] == b[0] {
        lex_lt(a.drop_first(), b.drop_first())
    } else {
        (a[0] as int) < (b[0] as int)
    }
}

/// No string sorts before itself.
pub proof fn lemma_lex_lt_irreflexive(a: Seq<char>)
    ensures
        !lex_lt(a, a),
    decreases a.len(),
{
    if a.len() > 0 {
        lemma_lex_lt_irreflexive(a.drop_first());
    }
}

/// The order is transitive.
pub proof fn lemma_lex_lt_transitive(a: Seq<char>, b: Seq<char>, c: Seq<char>)
    requires
        lex_lt(a, b),
        lex_lt(b, c),
    ensures
        lex_lt(a, c),
    decreases a.len(),
{
    if a.len() > 0 && b.len() > 0 && c.len() > 0 {
        if a[0] == b[0] && b[0] == c[0] {
            lemma_lex_lt_transitive(a.drop_first(), b.drop_first(), c.drop_first());
        }
    }
}

/// Two different strings are ordered one way or the other, never both.
pub proof fn lemma_lex_lt_total(a: Seq<char>, b: Seq<char>)
    ensures
        a != b ==> (lex_lt(a, b) || lex_lt(b, a)),
        !(lex_lt(a, b) && lex_lt(b, a)),
    decreases a.len(),
{
    if a.len() > 0 && b.len() > 0 {
        lemma_lex_lt_total(a.drop_first(), b.drop_first());
        if a[0] == b[0] && a.drop_first() == b.drop_first() {
            assert(a =~= seq![a[0]] + a.drop_first());
            assert(b =~= seq![b[0]] + b.drop_first());
        }
        if a[0] != b[0] {
            assert((a[0] as int) != (b[0] as int));
        }
    } else if a.len() == 0 && b.len() == 0 {
        assert(a =~= b);
    }
}

proof fn lemma_lex_lt_skip(a: Seq<char>, b: Seq<char>, i: int)
    requires
        0 <= i < a.len(),
        i < b.len(),
        a[i] == b[i],
    ensures
        lex_lt(a.skip(i), b.skip(i)) == lex_lt(a.skip(i + 1), b.skip(i + 1)),
{
    assert(a.skip(i).drop_first() =~= a.skip(i + 1));
    assert(b.skip(i).drop_first() =~= b.skip(i + 1));
}

/// Whether `a` sorts strictly before `b` (`a < b` on `str`).
pub fn str_lt(a: &str, b: &str) -> (r: bool)
    ensures
        r == lex_lt(a@, b@),
{
    let x = chars_of(a);
    let y = chars_of(b);
    let mut i: usize = 0;
    assert(x@.skip(0) =~= x@);
    assert(y@.skip(0) =~= y@);
    while i < x.len() && i < y.len()
        invariant
            x@ == a@,
            y@ == b@,
            i <= x@.len(),
            i <= y@.len(),
            lex_lt(x@, y@) == lex_lt(x@.skip(i as int), y@.skip(i as int)),
        decreases x@.len() - i,
    {
        if x[i] != y[i] {
            assert(x@.skip(i as int)[0] == x@[i as int]);
            assert(y@.skip(i as int)[0] == y@[i as int]);
            return x[i] < y[i];
        }
        proof {
            lemma_lex_lt_skip(x@, y@, i as int);
        }
        i = i + 1;
    }
    x.len() - i == 0 && y.len() - i > 0
}

/// `s` cut at its first `/`: the part before it (all of `s` when it holds
/// none) and, when there is a `/`, the part after it.
pub open spec fn split_at_first_slash(s: Seq<char>) -> (Seq<char>, Option<Seq<char>>) {
    match s.index_of_first('/') {
        Some(k) => (s.take(k), Some(s.skip(k + 1))),
        None => (s, None),
    }
}

/// Cuts `s@.skip(start)` at its first `/`: the characters before it, and
/// the index in `s` just after that `/`, when there is one.
pub fn split_first_slash(s: &Vec<char>, start: usize) -> (r: (Vec<char>, Option<usize>))
    requires
        start <= s@.len(),
    ensures
        r.0@ == split_at_first_slash(s@.skip(start as int)).0,
        r.1 is Some <==> split_at_first_slash(s@.skip(start as int)).1 is Some,
        r.1 matches Some(j) ==> start < j <= s@.len() && s@.skip(j as int)
            == split_at_first_slash(s@.skip(start as int)).1.unwrap(),
{
    let ghost t = s@.skip(start as int);
    let mut head: Vec<char> = Vec::new();
    let mut i: usize = start;
    while i < s.len() && s[i] != '/'
        invariant
            start <= i <= s@.len(),
            t == s@.skip(start as int),
            head@ == t.take(i - start),
            forall|j: int| start <= j < i ==> s@[j] != '/',
        decreases s@.len() - i,
    {
        head.push(s[i]);
        assert(t.take(i + 1 - start) =~= t.take(i - start).push(s@[i as int]));
        i = i + 1;
    }
    proof {
        t.index_of_first_ensures('/');
    }
    if i < s.len() {
        assert(t[i - start] == '/');
        assert(t.contains('/'));
        let ghost k = t.index_of_first('/').unwrap();
        assert(k == i - start) by {
            if k < i - start {
                assert(t[k] == s@[start + k]);
            }
        }
        assert(s@.skip(i + 1) =~= t.skip(k + 1));
        (head, Some(i + 1))
    } else {
        assert(!t.contains('/')) by {
            if t.contains('/') {
                let j = choose|j: int| 0 <= j < t.len() && t[j] == '/';
                assert(t[j] == s@[start + j]);
            }
        }
        assert(t.take(i - start) =~= t);
        (head, None)
    }
}

} // verus!
