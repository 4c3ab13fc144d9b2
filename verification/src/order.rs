//! Lexicographic order of texts, by code point, which is the order of their
//! UTF-8 bytes.

use vstd::prelude::*;
use crate::strings::chars_of;

verus! {

/// `a` and `b` agree before position `i`, and `a` is smaller at `i`: it has a
/// smaller character there, or it ends there while `b` goes on.
pub open spec fn less_at(a: Seq<char>, b: Seq<char>, i: int) -> bool {
    &&& 0 <= i <= a.len()
    &&& i <= b.len()
    &&& forall|k: int| 0 <= k < i ==> a[k] == b[k]
    &&& if i < a.len() {
        i < b.len() && (a[i] as u32) < (b[i] as u32)
    } else {
        i < b.len()
    }
}

/// `a` comes strictly before `b` in lexicographic order.
pub open spec fn text_less(a: Seq<char>, b: Seq<char>) -> bool {
    exists|i: int| #[trigger] less_at(a, b, i)
}

/// Strict lexicographic order is transitive.
pub proof fn lemma_text_less_transitive(a: Seq<char>, b: Seq<char>, c: Seq<char>)
    requires
        text_less(a, b),
        text_less(b, c),
    ensures
        text_less(a, c),
{
    let i = choose|i: int| #[trigger] less_at(a, b, i);
    let j = choose|j: int| #[trigger] less_at(b, c, j);
    if i < j {
        assert(b[i] == c[i]);
        assert(less_at(a, c, i));
    } else if j < i {
        assert(a[j] == b[j]);
        assert(less_at(a, c, j));
    } else {
        assert(less_at(a, c, i));
    }
}

/// No text comes before itself.
pub proof fn lemma_text_less_irreflexive(a: Seq<char>)
    ensures
        !text_less(a, a),
{
    if text_less(a, a) {
        let i = choose|i: int| #[trigger] less_at(a, a, i);
        assert(false);
    }
}

/// Two different texts are ordered one way or the other.
pub proof fn lemma_text_less_total(a: Seq<char>, b: Seq<char>)
    requires
        a != b,
    ensures
        text_less(a, b) || text_less(b, a),
{
    lemma_total_from(a, b, 0);
}

proof fn lemma_total_from(a: Seq<char>, b: Seq<char>, i: int)
    requires
        a != b,
        0 <= i <= a.len(),
        i <= b.len(),
        forall|k: int| 0 <= k < i ==> a[k] == b[k],
    ensures
        text_less(a, b) || text_less(b, a),
    decreases a.len() - i,
{
    if i == a.len() || i == b.len() {
        if a.len() == b.len() {
            assert(a =~= b);
        } else if i == a.len() {
            assert(less_at(a, b, i));
        } else {
            assert(less_at(b, a, i));
        }
    } else if a[i] != b[i] {
        vstd::utf8::char_u32_cast(a[i], a[i] as u32);
        vstd::utf8::char_u32_cast(b[i], b[i] as u32);
        if (a[i] as u32) < (b[i] as u32) {
            assert(less_at(a, b, i));
        } else {
            assert(less_at(b, a, i));
        }
    } else {
        lemma_total_from(a, b, i + 1);
    }
}

/// Whether `a` comes strictly before `b`.
pub fn text_before(a: &str, b: &str) -> (r: bool)
    ensures
        r == text_less(a@, b@),
{
    let x = chars_of(a);
    let y = chars_of(b);
    let mut i: usize = 0;
    while i < x.len() && i < y.len()
        invariant
            x@ == a@,
            y@ == b@,
            i <= x@.len(),
            i <= y@.len(),
            forall|k: int| 0 <= k < i ==> x@[k] == y@[k],
        decreases x@.len() - i,
    {
        if x[i] != y[i] {
            let r = (x[i] as u32) < (y[i] as u32);
            proof {
                if r {
                    assert(less_at(a@, b@, i as int));
                } else if text_less(a@, b@) {
                    let j = choose|j: int| #[trigger] less_at(a@, b@, j);
                    if j > i {
                        assert(a@[i as int] == b@[i as int]);
                    }
                }
            }
            return r;
        }
        i = i + 1;
    }
    let r = x.len() < y.len();
    proof {
        if r {
            assert(less_at(a@, b@, i as int));
        } else if text_less(a@, b@) {
            let j = choose|j: int| #[trigger] less_at(a@, b@, j);
        }
    }
    r
}

} // verus!
