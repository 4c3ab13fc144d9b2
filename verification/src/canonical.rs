//! Canonical forms of the names, identifiers and comment bodies written in
//! SysML sources.

use vstd::prelude::*;
use crate::strings::{chars_of, string_of_chars, trim_bounds, trimmed};

verus! {

/// `v` without one leading `open` and one trailing `close` when it has both
/// (as two distinct characters), else `v` itself.
pub open spec fn strip_pair(v: Seq<char>, open: char, close: char) -> Seq<char> {
    if v.len() >= 2 && v[0] == open && v[v.len() - 1] == close {
        v.subrange(1, v.len() - 1)
    } else {
        v
    }
}

/// `v` ends with `suffix`.
pub open spec fn has_suffix(v: Seq<char>, suffix: Seq<char>) -> bool {
    v.len() >= suffix.len() && v.subrange(v.len() - suffix.len(), v.len() as int) == suffix
}

/// `v` starts with `prefix`.
pub open spec fn has_prefix(v: Seq<char>, prefix: Seq<char>) -> bool {
    v.len() >= prefix.len() && v.subrange(0, prefix.len() as int) == prefix
}

/// A name: trimmed, without enclosing single quotes.
pub open spec fn canonical_name(v: Seq<char>) -> Seq<char> {
    strip_pair(trimmed(v), '\'', '\'')
}

/// A short name: trimmed, without enclosing angle brackets, then as a name.
pub open spec fn canonical_short_name(v: Seq<char>) -> Seq<char> {
    canonical_name(strip_pair(trimmed(v), '<', '>'))
}

/// A string literal: trimmed, without enclosing double quotes.
pub open spec fn canonical_string_literal(v: Seq<char>) -> Seq<char> {
    strip_pair(trimmed(v), '"', '"')
}

/// The text of a comment body: trimmed, without the `/*` and `*/` delimiters
/// when it has both, and trimmed again.
pub open spec fn comment_text(v: Seq<char>) -> Seq<char> {
    let w = trimmed(v);
    if w.len() >= 4 && has_prefix(w, "/*"@) && has_suffix(w, "*/"@) {
        trimmed(w.subrange(2, w.len() - 2))
    } else {
        trimmed(w)
    }
}

/// A reference text with a trailing `::*` removed: trimmed, then without the
/// wildcard suffix when it has one.
pub open spec fn without_wildcard(v: Seq<char>) -> Seq<char> {
    let w = trimmed(v);
    if has_suffix(w, "::*"@) {
        w.subrange(0, w.len() - 3)
    } else {
        w
    }
}

/// The trimmed characters of `s`, as a vector.
fn trimmed_chars(s: &str) -> (v: Vec<char>)
    ensures
        v@ == trimmed(s@),
{
    let all = chars_of(s);
    let (a, b) = trim_bounds(&all);
    let mut v: Vec<char> = Vec::new();
    let mut i = a;
    while i < b
        invariant
            a <= i <= b <= all@.len(),
            v@ == all@.subrange(a as int, i as int),
        decreases b - i,
    {
        v.push(all[i]);
        i = i + 1;
    }
    v
}

/// The characters `v[from..to]` as a vector.
fn chars_between(v: &Vec<char>, from: usize, to: usize) -> (r: Vec<char>)
    requires
        from <= to <= v@.len(),
    ensures
        r@ == v@.subrange(from as int, to as int),
{
    let mut r: Vec<char> = Vec::new();
    let mut i = from;
    while i < to
        invariant
            from <= i <= to <= v@.len(),
            r@ == v@.subrange(from as int, i as int),
        decreases to - i,
    {
        r.push(v[i]);
        i = i + 1;
    }
    r
}

/// The bounds of `strip_pair` on a character vector.
fn pair_bounds(v: &Vec<char>, open: char, close: char) -> (r: (usize, usize))
    ensures
        r.0 <= r.1 <= v@.len(),
        v@.subrange(r.0 as int, r.1 as int) == strip_pair(v@, open, close),
{
    let n = v.len();
    if n >= 2 && v[0] == open && v[n - 1] == close {
        (1, n - 1)
    } else {
        proof { assert(v@.subrange(0, n as int) =~= v@); }
        (0, n)
    }
}

/// Whether `v` ends with `suffix`.
pub fn ends_with_chars(v: &Vec<char>, suffix: &Vec<char>) -> (b: bool)
    ensures
        b == has_suffix(v@, suffix@),
{
    if v.len() < suffix.len() {
        return false;
    }
    let offset = v.len() - suffix.len();
    let mut i: usize = 0;
    while i < suffix.len()
        invariant
            offset + suffix@.len() == v@.len(),
            v@.len() <= usize::MAX,
            i <= suffix@.len(),
            forall|j: int| 0 <= j < i ==> v@[offset + j] == suffix@[j],
        decreases suffix@.len() - i,
    {
        if v[offset + i] != suffix[i] {
            proof {
                assert(v@.subrange(offset as int, v@.len() as int)[i as int] != suffix@[i as int]);
            }
            return false;
        }
        i = i + 1;
    }
    proof {
        assert(v@.subrange(offset as int, v@.len() as int) =~= suffix@);
    }
    true
}

/// Whether `s` ends with `suffix`.
pub fn ends_with_text(s: &str, suffix: &str) -> (b: bool)
    ensures
        b == has_suffix(s@, suffix@),
{
    ends_with_chars(&chars_of(s), &chars_of(suffix))
}

/// Whether `v` starts with `prefix`.
fn starts_with_chars(v: &Vec<char>, prefix: &Vec<char>) -> (b: bool)
    ensures
        b == has_prefix(v@, prefix@),
{
    if v.len() < prefix.len() {
        return false;
    }
    let mut i: usize = 0;
    while i < prefix.len()
        invariant
            prefix@.len() <= v@.len(),
            i <= prefix@.len(),
            forall|j: int| 0 <= j < i ==> v@[j] == prefix@[j],
        decreases prefix@.len() - i,
    {
        if v[i] != prefix[i] {
            proof {
                assert(v@.subrange(0, prefix@.len() as int)[i as int] != prefix@[i as int]);
            }
            return false;
        }
        i = i + 1;
    }
    proof {
        assert(v@.subrange(0, prefix@.len() as int) =~= prefix@);
    }
    true
}

/// The canonical form of a name.
pub fn canonical_name_text(s: &str) -> (r: String)
    ensures
        r@ == canonical_name(s@),
{
    let v = trimmed_chars(s);
    let (a, b) = pair_bounds(&v, '\'', '\'');
    string_of_chars(&v, a, b)
}

/// The canonical form of a short name.
pub fn canonical_short_name_text(s: &str) -> (r: String)
    ensures
        r@ == canonical_short_name(s@),
{
    let v = trimmed_chars(s);
    let (a, b) = pair_bounds(&v, '<', '>');
    let inner = string_of_chars(&v, a, b);
    canonical_name_text(inner.as_str())
}

/// The canonical form of a string literal.
pub fn canonical_string_literal_text(s: &str) -> (r: String)
    ensures
        r@ == canonical_string_literal(s@),
{
    let v = trimmed_chars(s);
    let (a, b) = pair_bounds(&v, '"', '"');
    string_of_chars(&v, a, b)
}

/// The text of a comment body.
pub fn comment_text_of(s: &str) -> (r: String)
    ensures
        r@ == comment_text(s@),
{
    let w = trimmed_chars(s);
    let open = chars_of("/*");
    let close = chars_of("*/");
    proof {
        reveal_strlit("/*");
        reveal_strlit("*/");
    }
    let inner = if w.len() >= 4 && starts_with_chars(&w, &open) && ends_with_chars(&w, &close) {
        chars_between(&w, 2, w.len() - 2)
    } else {
        chars_between(&w, 0, w.len())
    };
    proof {
        assert(w@.subrange(0, w@.len() as int) =~= w@);
    }
    let (a, b) = trim_bounds(&inner);
    string_of_chars(&inner, a, b)
}

/// A reference text without a trailing `::*`.
pub fn without_wildcard_text(s: &str) -> (r: String)
    ensures
        r@ == without_wildcard(s@),
{
    let w = trimmed_chars(s);
    let suffix = chars_of("::*");
    proof {
        reveal_strlit("::*");
    }
    if ends_with_chars(&w, &suffix) {
        string_of_chars(&w, 0, w.len() - 3)
    } else {
        string_of_chars(&w, 0, w.len())
    }
}

} // verus!
