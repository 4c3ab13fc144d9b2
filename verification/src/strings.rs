//! Character-level helpers shared by the model checks, the source lowering
//! and the diagnostic messages.

use vstd::prelude::*;
use vstd::string::*;

verus! {

/// The Unicode `White_Space` property, the set that `char::is_whitespace`
/// and `str::trim` use.
pub open spec fn is_white_space(c: char) -> bool {
    ||| c == '\t' || c == '\n' || c == '\u{0B}' || c == '\u{0C}' || c == '\r' || c == ' '
    ||| c == '\u{85}' || c == '\u{A0}' || c == '\u{1680}'
    ||| ('\u{2000}' <= c && c <= '\u{200A}')
    ||| c == '\u{2028}' || c == '\u{2029}' || c == '\u{202F}' || c == '\u{205F}' || c == '\u{3000}'
}

/// Every character of `s` is white space (so `s.trim()` is empty).
pub open spec fn is_blank(s: Seq<char>) -> bool {
    forall|i: int| 0 <= i < s.len() ==> is_white_space(#[trigger] s[i])
}

/// Index of the first non-white-space character at or after `from`, or `s.len()`.
pub open spec fn first_solid_from(s: Seq<char>, from: int) -> int
    decreases s.len() - from,
{
    if from >= s.len() {
        s.len() as int
    } else if !is_white_space(s[from]) {
        from
    } else {
        first_solid_from(s, from + 1)
    }
}

/// One past the last non-white-space character before `to`, or 0.
pub open spec fn last_solid_before(s: Seq<char>, to: int) -> int
    decreases to,
{
    if to <= 0 {
        0
    } else if !is_white_space(s[to - 1]) {
        to
    } else {
        last_solid_before(s, to - 1)
    }
}

/// `str::trim`: `s` without leading and trailing white space.
pub open spec fn trimmed(s: Seq<char>) -> Seq<char> {
    let start = first_solid_from(s, 0);
    if start == s.len() {
        Seq::empty()
    } else {
        s.subrange(start, last_solid_before(s, s.len() as int))
    }
}

/// Decimal digits of a natural number, most significant first.
pub open spec fn decimal(n: nat) -> Seq<char>
    decreases n,
{
    if n < 10 {
        seq![digit_char(n)]
    } else {
        decimal(n / 10).push(digit_char(n % 10))
    }
}

pub open spec fn digit_char(d: nat) -> char {
    if d == 0 { '0' } else if d == 1 { '1' } else if d == 2 { '2' } else if d == 3 { '3' }
    else if d == 4 { '4' } else if d == 5 { '5' } else if d == 6 { '6' } else if d == 7 { '7' }
    else if d == 8 { '8' } else { '9' }
}

/// The text that `{:?}` (the `Debug` form of a string: quoted and escaped)
/// produces for a string.
pub uninterp spec fn debug_text(s: Seq<char>) -> Seq<char>;

/// `u64`'s `Display` form (`to_string`): its decimal digits.
#[verifier::external_body]
pub fn decimal_text(n: u64) -> (text: String)
    ensures
        text@ == decimal(n as nat),
{
    n.to_string()
}

/// `str`'s `Debug` form, as `format!("{:?}", s)` writes it; the contract
/// names the result and does not spell out the escaping rules.
#[verifier::external_body]
pub fn debug_quoted(s: &str) -> (text: String)
    ensures
        text@ == debug_text(s@),
{
    format!("{:?}", s)
}

/// `String::push`: appends one character.
#[verifier::external_body]
pub fn push_char(s: &mut String, c: char)
    ensures
        final(s)@ == old(s)@.push(c),
{
    s.push(c)
}

pub fn is_white_space_char(c: char) -> (b: bool)
    ensures
        b == is_white_space(c),
{
    c == '\t' || c == '\n' || c == '\u{0B}' || c == '\u{0C}' || c == '\r' || c == ' '
        || c == '\u{85}' || c == '\u{A0}' || c == '\u{1680}'
        || ('\u{2000}' <= c && c <= '\u{200A}')
        || c == '\u{2028}' || c == '\u{2029}' || c == '\u{202F}' || c == '\u{205F}'
        || c == '\u{3000}'
}

/// The characters of `s`, in order.
pub fn chars_of(s: &str) -> (v: Vec<char>)
    ensures
        v@ == s@,
{
    let mut v: Vec<char> = Vec::new();
    let n = s.unicode_len();
    let mut i: usize = 0;
    while i < n
        invariant
            n == s@.len(),
            i <= n,
            v@ == s@.subrange(0, i as int),
        decreases n - i,
    {
        let c = s.get_char(i);
        v.push(c);
        i = i + 1;
    }
    v
}

/// A string holding exactly the characters `v[from..to]`.
pub fn string_of_chars(v: &Vec<char>, from: usize, to: usize) -> (s: String)
    requires
        from <= to <= v.len(),
    ensures
        s@ == v@.subrange(from as int, to as int),
{
    let mut s = String::new();
    let mut i = from;
    while i < to
        invariant
            from <= i <= to <= v.len(),
            s@ == v@.subrange(from as int, i as int),
        decreases to - i,
    {
        push_char(&mut s, v[i]);
        i = i + 1;
    }
    s
}

/// Text of a string slice as an owned `String`.
pub fn owned(s: &str) -> (r: String)
    ensures
        r@ == s@,
{
    String::from_str(s)
}

/// `a + b` as a new string.
pub fn join2(a: &str, b: &str) -> (r: String)
    ensures
        r@ == a@ + b@,
{
    let r = String::from_str(a);
    r.concat(b)
}

/// `a + b + c` as a new string.
pub fn join3(a: &str, b: &str, c: &str) -> (r: String)
    ensures
        r@ == a@ + b@ + c@,
{
    let r = String::from_str(a);
    let r = r.concat(b);
    r.concat(c)
}

/// Whether two string slices hold the same characters.
pub fn same_text(a: &str, b: &str) -> (r: bool)
    ensures
        r == (a@ == b@),
{
    let x = String::from_str(a);
    let y = String::from_str(b);
    x == y
}

/// Whether every character of `s` is white space (`s.trim().is_empty()`).
pub fn is_blank_text(s: &str) -> (b: bool)
    ensures
        b == is_blank(s@),
{
    let v = chars_of(s);
    let mut i: usize = 0;
    while i < v.len()
        invariant
            v@ == s@,
            i <= v.len(),
            forall|j: int| 0 <= j < i ==> is_white_space(#[trigger] v@[j]),
        decreases v.len() - i,
    {
        if !is_white_space_char(v[i]) {
            return false;
        }
        i = i + 1;
    }
    true
}

proof fn lemma_first_solid_bounds(s: Seq<char>, from: int)
    requires
        0 <= from <= s.len(),
    ensures
        from <= first_solid_from(s, from) <= s.len(),
        first_solid_from(s, from) < s.len() ==> !is_white_space(s[first_solid_from(s, from)]),
        forall|j: int| from <= j < first_solid_from(s, from) ==> is_white_space(#[trigger] s[j]),
    decreases s.len() - from,
{
    if from < s.len() && is_white_space(s[from]) {
        lemma_first_solid_bounds(s, from + 1);
    }
}

proof fn lemma_last_solid_bounds(s: Seq<char>, to: int)
    requires
        0 <= to <= s.len(),
    ensures
        0 <= last_solid_before(s, to) <= to,
        last_solid_before(s, to) > 0 ==> !is_white_space(s[last_solid_before(s, to) - 1]),
        forall|j: int| last_solid_before(s, to) <= j < to ==> is_white_space(#[trigger] s[j]),
    decreases to,
{
    if to > 0 && is_white_space(s[to - 1]) {
        lemma_last_solid_bounds(s, to - 1);
    }
}

/// `str::trim` on a character vector: the bounds of the trimmed part.
pub fn trim_bounds(v: &Vec<char>) -> (r: (usize, usize))
    ensures
        r.0 <= r.1 <= v.len(),
        v@.subrange(r.0 as int, r.1 as int) == trimmed(v@),
{
    let mut start: usize = 0;
    while start < v.len() && is_white_space_char(v[start])
        invariant
            start <= v.len(),
            first_solid_from(v@, start as int) == first_solid_from(v@, 0),
        decreases v.len() - start,
    {
        start = start + 1;
    }
    proof {
        lemma_first_solid_bounds(v@, 0);
    }
    if start == v.len() {
        return (start, start);
    }
    let mut end: usize = v.len();
    while end > 0 && is_white_space_char(v[end - 1])
        invariant
            end <= v.len(),
            last_solid_before(v@, end as int) == last_solid_before(v@, v.len() as int),
        decreases end,
    {
        end = end - 1;
    }
    proof {
        lemma_last_solid_bounds(v@, v.len() as int);
        if end <= start {
            // v[start] is not white space, so the backward scan stops after it
            assert(!is_white_space(v@[start as int]));
        }
    }
    (start, end)
}

/// `s.trim()` as an owned string.
pub fn trim_text(s: &str) -> (r: String)
    ensures
        r@ == trimmed(s@),
{
    let v = chars_of(s);
    let (a, b) = trim_bounds(&v);
    string_of_chars(&v, a, b)
}

} // verus!
