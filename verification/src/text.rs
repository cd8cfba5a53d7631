//! Character-level building blocks shared by every renderer in the crate.

use vstd::prelude::*;

verus! {

/// The decimal digit character for a value below ten.
pub open spec fn digit_char(d: nat) -> char {
    if d == 0 { '0' }
    else if d == 1 { '1' }
    else if d == 2 { '2' }
    else if d == 3 { '3' }
    else if d == 4 { '4' }
    else if d == 5 { '5' }
    else if d == 6 { '6' }
    else if d == 7 { '7' }
    else if d == 8 { '8' }
    else { '9' }
}

/// The base-ten rendering of a natural number, most significant digit first, with no
/// leading zeros.
pub open spec fn decimal_of(n: nat) -> Seq<char>
    decreases n,
{
    if n < 10 {
        seq![digit_char(n)]
    } else {
        decimal_of(n / 10).push(digit_char(n % 10))
    }
}

/// Appends one character to a string.
#[verifier::external_body]
pub(crate) fn push_char(s: &mut String, c: char)
    ensures
        final(s)@ == old(s)@.push(c),
{
    s.push(c);
}

fn digit(d: usize) -> (c: char)
    requires
        d < 10,
    ensures
        c == digit_char(d as nat),
{
    if d == 0 { '0' }
    else if d == 1 { '1' }
    else if d == 2 { '2' }
    else if d == 3 { '3' }
    else if d == 4 { '4' }
    else if d == 5 { '5' }
    else if d == 6 { '6' }
    else if d == 7 { '7' }
    else if d == 8 { '8' }
    else { '9' }
}

/// Renders a count in base ten, as `{}` formatting would.
pub fn decimal(n: usize) -> (s: String)
    ensures
        s@ == decimal_of(n as nat),
    decreases n,
{
    if n < 10 {
        let mut s = String::new();
        push_char(&mut s, digit(n));
        s
    } else {
        let mut s = decimal(n / 10);
        push_char(&mut s, digit(n % 10));
        s
    }
}

/// Renders a ledger sequence or another 64-bit count in base ten.
pub fn decimal_u64(n: u64) -> (s: String)
    ensures
        s@ == decimal_of(n as nat),
    decreases n,
{
    if n < 10 {
        let mut s = String::new();
        push_char(&mut s, digit(n as usize));
        s
    } else {
        let mut s = decimal_u64(n / 10);
        push_char(&mut s, digit((n % 10) as usize));
        s
    }
}

/// `t` occurs somewhere in `s`.
pub open spec fn contains_text(s: Seq<char>, t: Seq<char>) -> bool {
    exists|a: Seq<char>, b: Seq<char>| #[trigger] (a + t + b) == s
}

/// A text occurring in a piece of a larger text occurs in the larger text.
pub proof fn lemma_contains_within(s: Seq<char>, t: Seq<char>, x: Seq<char>, y: Seq<char>)
    requires
        contains_text(s, t),
    ensures
        contains_text(x + s + y, t),
{
    let (a, b) = choose|a: Seq<char>, b: Seq<char>| #[trigger] (a + t + b) == s;
    assert((x + a) + t + (b + y) =~= x + s + y);
}

/// What occurs in a piece of a text occurs in the text.
pub proof fn lemma_contains_transitive(s: Seq<char>, t: Seq<char>, u: Seq<char>)
    requires
        contains_text(s, t),
        contains_text(t, u),
    ensures
        contains_text(s, u),
{
    let (a, b) = choose|a: Seq<char>, b: Seq<char>| #[trigger] (a + t + b) == s;
    let (c, d) = choose|c: Seq<char>, d: Seq<char>| #[trigger] (c + u + d) == t;
    assert((a + c) + u + (d + b) =~= s);
}

/// A text occurs in itself followed by anything.
pub proof fn lemma_contains_prefix(t: Seq<char>, y: Seq<char>)
    ensures
        contains_text(t + y, t),
{
    assert(Seq::<char>::empty() + t + y =~= t + y);
}

/// How `{}` formatting writes a boolean.
pub open spec fn bool_text(b: bool) -> Seq<char> {
    if b { "true"@ } else { "false"@ }
}

/// Writes a boolean as `{}` formatting does.
pub fn bool_str(b: bool) -> (s: &'static str)
    ensures
        s@ == bool_text(b),
{
    if b { "true" } else { "false" }
}

/// What `{:?}` formatting writes for a string: the string quoted, with the characters
/// that need it escaped.
pub uninterp spec fn debug_text(s: Seq<char>) -> Seq<char>;

/// Formats a string the way `{:?}` does.
///
/// Calls std's `Debug` implementation for `str`; the contract names its result rather
/// than restating the escape table, which depends on Unicode property data.
#[verifier::external_body]
pub(crate) fn debug_str(s: &str) -> (quoted: String)
    ensures
        quoted@ == debug_text(s@),
{
    format!("{s:?}")
}

/// Whether two strings hold the same characters.
pub fn str_equals(a: &str, b: &str) -> (equal: bool)
    ensures
        equal == (a@ == b@),
{
    let n = a.unicode_len();
    if n != b.unicode_len() {
        return false;
    }
    for i in 0..n
        invariant
            n == a@.len(),
            n == b@.len(),
            forall|j: int| 0 <= j < i ==> a@[j] == b@[j],
    {
        if a.get_char(i) != b.get_char(i) {
            return false;
        }
    }
    assert(a@ =~= b@);
    true
}

/// Whether `s` begins with `prefix`.
pub fn starts_with(s: &str, prefix: &str) -> (begins: bool)
    ensures
        begins == prefix@.is_prefix_of(s@),
{
    let n = prefix.unicode_len();
    if n > s.unicode_len() {
        return false;
    }
    for i in 0..n
        invariant
            n == prefix@.len(),
            n <= s@.len(),
            forall|j: int| 0 <= j < i ==> prefix@[j] == s@[j],
    {
        if prefix.get_char(i) != s.get_char(i) {
            return false;
        }
    }
    true
}

/// Unicode's `White_Space` property, the set `char::is_whitespace` and `str::trim` use.
pub open spec fn is_white_space(c: char) -> bool {
    ||| ('\u{9}' <= c && c <= '\u{d}')
    ||| c == ' '
    ||| c == '\u{85}'
    ||| c == '\u{a0}'
    ||| c == '\u{1680}'
    ||| ('\u{2000}' <= c && c <= '\u{200a}')
    ||| c == '\u{2028}'
    ||| c == '\u{2029}'
    ||| c == '\u{202f}'
    ||| c == '\u{205f}'
    ||| c == '\u{3000}'
}

fn white_space(c: char) -> (ws: bool)
    ensures
        ws == is_white_space(c),
{
    ('\u{9}' <= c && c <= '\u{d}') || c == ' ' || c == '\u{85}' || c == '\u{a0}'
        || c == '\u{1680}' || ('\u{2000}' <= c && c <= '\u{200a}') || c == '\u{2028}'
        || c == '\u{2029}' || c == '\u{202f}' || c == '\u{205f}' || c == '\u{3000}'
}

/// The characters left once leading white space is removed.
pub open spec fn trim_start_of(s: Seq<char>) -> Seq<char>
    decreases s.len(),
{
    if s.len() > 0 && is_white_space(s[0]) {
        trim_start_of(s.drop_first())
    } else {
        s
    }
}

/// The characters left once trailing white space is removed.
pub open spec fn trim_end_of(s: Seq<char>) -> Seq<char>
    decreases s.len(),
{
    if s.len() > 0 && is_white_space(s.last()) {
        trim_end_of(s.drop_last())
    } else {
        s
    }
}

/// The characters left once leading and trailing white space are removed, as `str::trim`
/// leaves them.
pub open spec fn trimmed(s: Seq<char>) -> Seq<char> {
    trim_end_of(trim_start_of(s))
}

/// `c` in ASCII lower case; every other character unchanged.
pub open spec fn ascii_lower(c: char) -> char {
    if 'A' <= c && c <= 'Z' {
        ((c as u32) + 32) as char
    } else {
        c
    }
}

/// Every character in ASCII lower case, as `str::to_ascii_lowercase` writes it.
pub open spec fn ascii_lowercase_of(s: Seq<char>) -> Seq<char> {
    s.map_values(|c: char| ascii_lower(c))
}

fn lower_char(c: char) -> (l: char)
    ensures
        l == ascii_lower(c),
{
    if 'A' <= c && c <= 'Z' {
        let code: u8 = (c as u32 as u8) + 32;
        code as char
    } else {
        c
    }
}

/// Trims white space from both ends and lowers ASCII letters: how a name typed by a
/// person is compared with a vocabulary.
pub fn normalise_name(name: &str) -> (normalised: String)
    ensures
        normalised@ == ascii_lowercase_of(trimmed(name@)),
{
    let n = name.unicode_len();
    let mut lo: usize = 0;
    assert(name@.subrange(0, n as int) =~= name@);
    while lo < n && white_space(name.get_char(lo))
        invariant
            n == name@.len(),
            lo <= n,
            trim_start_of(name@) == trim_start_of(name@.subrange(lo as int, n as int)),
        decreases n - lo,
    {
        assert(name@.subrange(lo as int, n as int).drop_first() =~= name@.subrange(lo + 1, n as int));
        lo += 1;
    }
    assert(trim_start_of(name@) == name@.subrange(lo as int, n as int));
    let mut hi: usize = n;
    while hi > lo && white_space(name.get_char(hi - 1))
        invariant
            n == name@.len(),
            lo <= hi <= n,
            trimmed(name@) == trim_end_of(name@.subrange(lo as int, hi as int)),
        decreases hi - lo,
    {
        assert(name@.subrange(lo as int, hi as int).drop_last() =~= name@.subrange(lo as int, hi - 1));
        hi -= 1;
    }
    assert(trimmed(name@) == name@.subrange(lo as int, hi as int));
    let mut out = String::new();
    let mut i = lo;
    while i < hi
        invariant
            n == name@.len(),
            lo <= i <= hi <= n,
            out@ == ascii_lowercase_of(name@.subrange(lo as int, i as int)),
        decreases hi - i,
    {
        push_char(&mut out, lower_char(name.get_char(i)));
        assert(ascii_lowercase_of(name@.subrange(lo as int, i + 1)) =~= ascii_lowercase_of(name@.subrange(lo as int, i as int)).push(ascii_lower(name@[i as int])));
        i += 1;
    }
    out
}

} // verus!
