//! Substring containment over message bodies: the matching discipline of the
//! full-text index. A query matches a body iff it occurs in it as a
//! contiguous run of characters, so arbitrary substrings are searchable, not
//! just whole tokens.

use vstd::prelude::*;
use vstd::string::*;

verus! {

/// `q` occurs in `t` as a contiguous run of characters. The empty query
/// occurs in every text.
pub open spec fn contains_sub(t: Seq<char>, q: Seq<char>) -> bool {
    exists|i: int| 0 <= i <= t.len() - q.len() && #[trigger] t.subrange(i, i + q.len()) == q
}

fn match_at(t: &str, q: &str, i: usize) -> (r: bool)
    requires
        i + q@.len() <= t@.len(),
        t@.len() <= usize::MAX,
    ensures
        r == (t@.subrange(i as int, i + q@.len()) == q@),
{
    let ql = q.unicode_len();
    let mut j: usize = 0;
    while j < ql
        invariant
            j <= ql,
            ql == q@.len(),
            i + ql <= t@.len(),
            forall|m: int| 0 <= m < j ==> t@[i + m] == q@[m],
        decreases ql - j,
    {
        if t.get_char(i + j) != q.get_char(j) {
            proof {
                assert(t@.subrange(i as int, i + q@.len())[j as int] == t@[i + j]);
            }
            return false;
        }
        j = j + 1;
    }
    proof {
        assert(t@.subrange(i as int, i + q@.len()) =~= q@);
    }
    true
}

/// True iff `q` occurs in `t` as a contiguous run of characters.
pub fn contains_substring(t: &str, q: &str) -> (r: bool)
    ensures
        r == contains_sub(t@, q@),
{
    let tl = t.unicode_len();
    let ql = q.unicode_len();
    if ql > tl {
        return false;
    }
    if ql == 0 {
        proof {
            assert(t@.subrange(0, 0 + q@.len() as int) =~= q@);
        }
        return true;
    }
    let mut i: usize = 0;
    while i <= tl - ql
        invariant
            tl == t@.len(),
            ql == q@.len(),
            0 < ql <= tl,
            i <= tl - ql + 1,
            forall|m: int| 0 <= m < i ==> #[trigger] t@.subrange(m, m + q@.len()) != q@,
        decreases tl - i,
    {
        if match_at(t, q, i) {
            return true;
        }
        i = i + 1;
    }
    false
}

} // verus!
