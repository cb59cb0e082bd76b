//! Character-level helpers for the command and translation texts.
use vstd::prelude::*;

verus! {

/// The characters of `s`, in order.
pub fn chars_of(s: &str) -> (r: Vec<char>)
    ensures
        r@ == s@,
{
    let mut r: Vec<char> = Vec::new();
    for c in it: s.chars()
        invariant
            it.seq() == s@,
            r@ == it.seq().take(it.index()),
    {
        r.push(c);
        assert(r@ =~= it.seq().take(it.index() + 1));
    }
    assert(r@ =~= s@);
    r
}


/// Wraps std's `Iterator::collect` into a `String` over the characters of
/// `v`. The contract claims that the `String` holds those characters in
/// order, as std documents for `FromIterator<&char>`.
#[verifier::external_body]
pub fn string_from_chars(v: &Vec<char>) -> (r: String)
    ensures
        r@ == v@,
{
    v.iter().collect::<String>()
}

/// What `str::to_lowercase` returns for the text `s`: its Unicode lowercase
/// mapping.
pub uninterp spec fn lowercase(s: Seq<char>) -> Seq<char>;

/// Calls `str::to_lowercase`. The contract names its result
/// ([`lowercase`]).
#[verifier::external_body]
pub fn to_lowercase(s: &str) -> (r: String)
    ensures
        r@ == lowercase(s@),
{
    s.to_lowercase()
}

/// ASCII whitespace as `char::is_ascii_whitespace` defines it: space, tab,
/// line feed, form feed and carriage return.
pub open spec fn is_ascii_ws(c: char) -> bool {
    c == ' ' || c == '\t' || c == '\n' || c == '\x0C' || c == '\r'
}

/// Whether `c` is ASCII whitespace.
pub fn ascii_whitespace(c: char) -> (b: bool)
    ensures
        b == is_ascii_ws(c),
{
    c == ' ' || c == '\t' || c == '\n' || c == '\x0C' || c == '\r'
}

/// The Unicode `White_Space` characters, which `str::trim` removes.
pub open spec fn is_unicode_ws(c: char) -> bool {
    ||| ('\t' <= c && c <= '\r')
    ||| c == ' '
    ||| c == '\u{85}'
    ||| c == '\u{A0}'
    ||| c == '\u{1680}'
    ||| ('\u{2000}' <= c && c <= '\u{200A}')
    ||| c == '\u{2028}'
    ||| c == '\u{2029}'
    ||| c == '\u{202F}'
    ||| c == '\u{205F}'
    ||| c == '\u{3000}'
}

/// Whether `c` is a Unicode `White_Space` character.
pub fn unicode_whitespace(c: char) -> (b: bool)
    ensures
        b == is_unicode_ws(c),
{
    ('\t' <= c && c <= '\r') || c == ' ' || c == '\u{85}' || c == '\u{A0}' || c == '\u{1680}' || (
    '\u{2000}' <= c && c <= '\u{200A}') || c == '\u{2028}' || c == '\u{2029}' || c == '\u{202F}'
        || c == '\u{205F}' || c == '\u{3000}'
}

/// `s` without its leading and trailing Unicode whitespace: the part from
/// the first to the last character that is not whitespace.
pub open spec fn trimmed(s: Seq<char>) -> Seq<char> {
    if forall|i: int| 0 <= i < s.len() ==> #[trigger] is_unicode_ws(s[i]) {
        Seq::empty()
    } else {
        let a = choose|a: int|
            0 <= a < s.len() && !is_unicode_ws(s[a]) && forall|i: int|
                0 <= i < a ==> #[trigger] is_unicode_ws(s[i]);
        let b = choose|b: int|
            0 <= b < s.len() && !is_unicode_ws(s[b]) && forall|i: int|
                b < i < s.len() ==> #[trigger] is_unicode_ws(s[i]);
        s.subrange(a, b + 1)
    }
}

/// `s` without its leading and trailing Unicode whitespace.
pub fn trim_chars(s: &Vec<char>) -> (r: Vec<char>)
    ensures
        r@ == trimmed(s@),
{
    let n = s.len();
    let mut a: usize = 0;
    while a < n && unicode_whitespace(s[a])
        invariant
            a <= n == s@.len(),
            forall|i: int| 0 <= i < a ==> #[trigger] is_unicode_ws(s@[i]),
        decreases n - a,
    {
        a = a + 1;
    }
    if a == n {
        return Vec::new();
    }
    let mut b: usize = n - 1;
    while unicode_whitespace(s[b])
        invariant
            a < n == s@.len(),
            a <= b < n,
            !is_unicode_ws(s@[a as int]),
            forall|i: int| b < i < n ==> #[trigger] is_unicode_ws(s@[i]),
        decreases b,
    {
        b = b - 1;
    }
    let mut r: Vec<char> = Vec::new();
    let mut i: usize = a;
    while i <= b
        invariant
            a <= i <= b + 1,
            b < n == s@.len(),
            r@ == s@.subrange(a as int, i as int),
        decreases b + 1 - i,
    {
        r.push(s[i]);
        i = i + 1;
        assert(r@ =~= s@.subrange(a as int, i as int));
    }
    proof {
        let ga = choose|ga: int|
            0 <= ga < s@.len() && !is_unicode_ws(s@[ga]) && forall|j: int|
                0 <= j < ga ==> #[trigger] is_unicode_ws(s@[j]);
        let gb = choose|gb: int|
            0 <= gb < s@.len() && !is_unicode_ws(s@[gb]) && forall|j: int|
                gb < j < s@.len() ==> #[trigger] is_unicode_ws(s@[j]);
        assert(!(forall|j: int| 0 <= j < s@.len() ==> #[trigger] is_unicode_ws(s@[j])));
        if ga < a {
        } else if ga > a {
            assert(is_unicode_ws(s@[a as int]));
        }
        if gb < b {
            assert(is_unicode_ws(s@[b as int]));
        } else if gb > b {
        }
        assert(ga == a && gb == b);
    }
    r
}

/// Whether `s` holds `w` at position `at`.
pub open spec fn occurs_at(s: Seq<char>, w: Seq<char>, at: int) -> bool {
    0 <= at && at + w.len() <= s.len() && s.subrange(at, at + w.len()) == w
}

/// Whether `w` occurs in `s`.
pub open spec fn contains_word(s: Seq<char>, w: Seq<char>) -> bool {
    exists|at: int| #[trigger] occurs_at(s, w, at)
}

/// Whether `s` starts with `w`.
pub open spec fn starts_with(s: Seq<char>, w: Seq<char>) -> bool {
    occurs_at(s, w, 0)
}

/// Whether `s` holds `w` at position `at`.
pub fn matches_at(s: &Vec<char>, w: &[char], at: usize) -> (b: bool)
    ensures
        b == occurs_at(s@, w@, at as int),
{
    if at > s.len() || w.len() > s.len() - at {
        return false;
    }
    let mut i: usize = 0;
    while i < w.len()
        invariant
            at + w@.len() <= s@.len(),
            s@.len() <= usize::MAX,
            i <= w@.len(),
            forall|j: int| 0 <= j < i ==> s@[at + j] == w@[j],
        decreases w@.len() - i,
    {
        if s[at + i] != w[i] {
            assert(s@.subrange(at as int, at + w@.len())[i as int] != w@[i as int]);
            return false;
        }
        i = i + 1;
    }
    assert(s@.subrange(at as int, at + w@.len()) =~= w@);
    true
}

/// Whether `w` occurs in `s`.
pub fn contains_chars(s: &Vec<char>, w: &[char]) -> (b: bool)
    ensures
        b == contains_word(s@, w@),
{
    if w.len() == 0 {
        assert(s@.subrange(0, 0) =~= w@);
        assert(occurs_at(s@, w@, 0));
        return true;
    }
    if w.len() > s.len() {
        assert forall|j: int| !#[trigger] occurs_at(s@, w@, j) by {}
        return false;
    }
    let last = s.len() - w.len();
    let mut at: usize = 0;
    while at <= last
        invariant
            last == s@.len() - w@.len(),
            w@.len() >= 1,
            s@.len() <= usize::MAX,
            at <= last + 1,
            forall|j: int| 0 <= j < at ==> !#[trigger] occurs_at(s@, w@, j),
        decreases last + 1 - at,
    {
        if matches_at(s, w, at) {
            return true;
        }
        at = at + 1;
    }
    assert forall|j: int| !#[trigger] occurs_at(s@, w@, j) by {
        if 0 <= j < at {
        }
    }
    false
}

/// Whether `s` equals `w`.
pub fn eq_chars(s: &Vec<char>, w: &[char]) -> (b: bool)
    ensures
        b == (s@ == w@),
{
    if s.len() != w.len() {
        return false;
    }
    let r = matches_at(s, w, 0);
    assert(s@.subrange(0, w@.len() as int) =~= s@);
    r
}

} // verus!
