//! The path codec: canonical dot-rendering of segment sequences, parsing,
//! and the numeric-by-segment total order used wherever paths are ranged.
//!
//! A path such as `"3.1.4"` stands for the segment sequence `[3, 1, 4]`.
//! Ordering compares segment values numerically, never the rendered strings,
//! so `"2.9"` sorts before `"2.10"`. Ancestry is segment-prefix containment:
//! `"1.2"` contains `"1.2.3"` but not `"1.20"`.

use vstd::prelude::*;
use vstd::string::*;
use vstd::arithmetic::div_mod::lemma_fundamental_div_mod;
use vstd::arithmetic::div_mod::lemma_fundamental_div_mod_converse;
use crate::errors::StoreError;

verus! {

// ---------------------------------------------------------------------------
// Ordering over decoded paths: lexicographic by numeric segment.
// ---------------------------------------------------------------------------

/// `a` sorts strictly before `b`, comparing segments from position `j` on.
pub open spec fn seq_lt_from(a: Seq<u64>, b: Seq<u64>, j: int) -> bool
    decreases b.len() - j,
{
    if j >= b.len() {
        false
    } else if j >= a.len() {
        true
    } else if a[j] < b[j] {
        true
    } else if a[j] > b[j] {
        false
    } else {
        seq_lt_from(a, b, j + 1)
    }
}

/// The codec's comparator: `a` sorts strictly before `b`, segment by segment,
/// numerically; a proper prefix sorts before every extension of itself.
pub open spec fn seq_lt(a: Seq<u64>, b: Seq<u64>) -> bool {
    seq_lt_from(a, b, 0)
}

/// `p` is a (possibly equal) segment-prefix of `q`.
pub open spec fn is_prefix_of(p: Seq<u64>, q: Seq<u64>) -> bool {
    p.len() <= q.len() && (forall|i: int| 0 <= i < p.len() ==> q[i] == p[i])
}

/// `p` is a strict segment-prefix of `q`: `q` lies strictly below `p`.
pub open spec fn is_strict_prefix_of(p: Seq<u64>, q: Seq<u64>) -> bool {
    p.len() < q.len() && is_prefix_of(p, q)
}

/// `k` belongs to the subtree rooted at `root` (the root itself included).
pub open spec fn in_subtree(root: Seq<u64>, k: Seq<u64>) -> bool {
    is_prefix_of(root, k)
}

/// `q` is a direct child of `p`: one segment longer, same prefix.
pub open spec fn is_child_of(p: Seq<u64>, q: Seq<u64>) -> bool {
    q.len() == p.len() + 1 && is_prefix_of(p, q)
}

proof fn lemma_lt_from_pair(a: Seq<u64>, b: Seq<u64>, j: int)
    requires
        0 <= j <= a.len(),
        j <= b.len(),
    ensures
        !(seq_lt_from(a, b, j) && seq_lt_from(b, a, j)),
        (!seq_lt_from(a, b, j) && !seq_lt_from(b, a, j)) ==> (a.len() == b.len()
            && (forall|i: int| j <= i < a.len() ==> a[i] == b[i])),
    decreases a.len() + b.len() - 2 * j,
{
    if j < a.len() && j < b.len() && a[j] == b[j] {
        lemma_lt_from_pair(a, b, j + 1);
    }
}

/// The comparator is a strict total order: two paths are either ordered one
/// way, ordered the other way, or equal as segment sequences.
pub proof fn lemma_path_order_total(a: Seq<u64>, b: Seq<u64>)
    ensures
        !(seq_lt(a, b) && seq_lt(b, a)),
        seq_lt(a, b) || seq_lt(b, a) || a == b,
        a == b ==> !seq_lt(a, b),
{
    lemma_lt_from_pair(a, b, 0);
    if !seq_lt(a, b) && !seq_lt(b, a) {
        assert(a =~= b);
    }
}

proof fn lemma_lt_from_trans(a: Seq<u64>, b: Seq<u64>, c: Seq<u64>, j: int)
    requires
        0 <= j,
        seq_lt_from(a, b, j),
        seq_lt_from(b, c, j),
    ensures
        seq_lt_from(a, c, j),
    decreases c.len() - j,
{
    if j < a.len() && j < b.len() && j < c.len() && a[j] == b[j] && b[j] == c[j] {
        lemma_lt_from_trans(a, b, c, j + 1);
    }
}

/// The comparator is transitive.
pub proof fn lemma_path_order_trans(a: Seq<u64>, b: Seq<u64>, c: Seq<u64>)
    requires
        seq_lt(a, b),
        seq_lt(b, c),
    ensures
        seq_lt(a, c),
{
    lemma_lt_from_trans(a, b, c, 0);
}

/// Compares two decoded paths under the codec's order.
/// Returns -1, 0 or 1 as `a` sorts before, equal to, or after `b`.
pub fn cmp_segs(a: &Vec<u64>, b: &Vec<u64>) -> (c: i8)
    ensures
        (c == -1) <==> seq_lt(a@, b@),
        (c == 0) <==> a@ == b@,
        (c == 1) <==> seq_lt(b@, a@),
        -1 <= c <= 1,
{
    proof {
        lemma_path_order_total(a@, b@);
    }
    let mut j: usize = 0;
    while j < a.len() && j < b.len()
        invariant
            j <= a@.len(),
            j <= b@.len(),
            forall|i: int| 0 <= i < j ==> a@[i] == b@[i],
            seq_lt(a@, b@) == seq_lt_from(a@, b@, j as int),
            seq_lt(b@, a@) == seq_lt_from(b@, a@, j as int),
        decreases a@.len() - j,
    {
        let x = a[j];
        let y = b[j];
        if x < y {
            return -1;
        }
        if x > y {
            return 1;
        }
        j = j + 1;
    }
    if a.len() == b.len() {
        proof {
            assert(a@ =~= b@);
        }
        0
    } else if a.len() < b.len() {
        -1
    } else {
        1
    }
}

/// True iff `p@` is a (possibly equal) segment-prefix of `q@`.
pub fn is_prefix_segs(p: &Vec<u64>, q: &Vec<u64>) -> (r: bool)
    ensures
        r == is_prefix_of(p@, q@),
{
    if p.len() > q.len() {
        return false;
    }
    let mut j: usize = 0;
    while j < p.len()
        invariant
            j <= p@.len(),
            p@.len() <= q@.len(),
            forall|i: int| 0 <= i < j ==> q@[i] == p@[i],
        decreases p@.len() - j,
    {
        if p[j] != q[j] {
            return false;
        }
        j = j + 1;
    }
    true
}

// ---------------------------------------------------------------------------
// Canonical decimal rendering of a single segment.
// ---------------------------------------------------------------------------

/// `c` is one of the characters `'0'` through `'9'`.
pub open spec fn is_digit_char(c: char) -> bool {
    48 <= c as int <= 57
}

/// The numeric value of a digit character.
pub open spec fn digit_val(c: char) -> int {
    c as int - 48
}

/// The digit character with value `d` (meaningful for `0 <= d <= 9`).
pub open spec fn digit_char(d: int) -> char {
    if d == 0 {
        '0'
    } else if d == 1 {
        '1'
    } else if d == 2 {
        '2'
    } else if d == 3 {
        '3'
    } else if d == 4 {
        '4'
    } else if d == 5 {
        '5'
    } else if d == 6 {
        '6'
    } else if d == 7 {
        '7'
    } else if d == 8 {
        '8'
    } else {
        '9'
    }
}

pub open spec fn all_digits(s: Seq<char>) -> bool {
    forall|i: int| 0 <= i < s.len() ==> is_digit_char(s[i])
}

/// The numeric value of a digit string, most significant digit first.
pub open spec fn seg_val(s: Seq<char>) -> int
    decreases s.len(),
{
    if s.len() == 0 {
        0
    } else {
        seg_val(s.drop_last()) * 10 + digit_val(s.last())
    }
}

/// `s` is the canonical decimal rendering of a segment: non-empty, digits
/// only, no leading zero (except `"0"` itself), and the value fits in `u64`.
pub open spec fn seg_ok(s: Seq<char>) -> bool {
    s.len() > 0 && all_digits(s) && (s.len() > 1 ==> s[0] != '0') && seg_val(s) <= u64::MAX
}

/// The canonical decimal rendering of `n` (meaningful for `n >= 0`).
pub open spec fn dec_str(n: int) -> Seq<char>
    decreases n,
{
    if n < 10 {
        seq![digit_char(n)]
    } else {
        dec_str(n / 10).push(digit_char(n % 10))
    }
}

proof fn lemma_digit_char_val(c: char)
    requires
        is_digit_char(c),
    ensures
        0 <= digit_val(c) <= 9,
        digit_char(digit_val(c)) == c,
{
}

/// Rendering `n` yields a canonical digit string whose value is `n`.
pub proof fn lemma_dec_str_props(n: int)
    requires
        0 <= n,
    ensures
        dec_str(n).len() > 0,
        all_digits(dec_str(n)),
        seg_val(dec_str(n)) == n,
        n >= 1 ==> dec_str(n)[0] != '0',
        n < 10 ==> dec_str(n).len() == 1,
        forall|i: int| 0 <= i < dec_str(n).len() ==> dec_str(n)[i] != '.',
    decreases n,
{
    if n < 10 {
        assert(dec_str(n) =~= seq![digit_char(n)]);
        assert(seq![digit_char(n)].drop_last() =~= Seq::<char>::empty());
        assert(seq![digit_char(n)].last() == digit_char(n));
        assert(seg_val(dec_str(n)) == seg_val(Seq::<char>::empty()) * 10 + digit_val(digit_char(n)));
    } else {
        lemma_dec_str_props(n / 10);
        lemma_fundamental_div_mod(n, 10);
        let x = dec_str(n / 10);
        let d = digit_char(n % 10);
        assert(dec_str(n) == x.push(d));
        assert(x.push(d).drop_last() =~= x);
        assert(x.push(d).last() == d);
        assert(seg_val(x.push(d)) == seg_val(x) * 10 + digit_val(d));
        assert(dec_str(n)[0] == x[0]);
        assert forall|i: int| 0 <= i < dec_str(n).len() implies is_digit_char(dec_str(n)[i])
            && dec_str(n)[i] != '.' by {
            if i < x.len() {
                assert(dec_str(n)[i] == x[i]);
            } else {
                assert(dec_str(n)[i] == d);
            }
        }
    }
}

proof fn lemma_seg_val_pos(s: Seq<char>)
    requires
        s.len() > 0,
        all_digits(s),
        digit_val(s[0]) >= 1,
    ensures
        seg_val(s) >= 1,
    decreases s.len(),
{
    if s.len() == 1 {
        assert(s.drop_last() =~= Seq::<char>::empty());
        assert(s.last() == s[0]);
        assert(seg_val(s) == seg_val(Seq::<char>::empty()) * 10 + digit_val(s.last()));
    } else {
        assert(s.drop_last()[0] == s[0]);
        lemma_seg_val_pos(s.drop_last());
        assert(is_digit_char(s.last()));
    }
}

proof fn lemma_seg_val_nonneg(s: Seq<char>)
    requires
        all_digits(s),
    ensures
        seg_val(s) >= 0,
    decreases s.len(),
{
    if s.len() > 0 {
        lemma_seg_val_nonneg(s.drop_last());
    }
}

/// A canonical digit string is the rendering of its own value: rendering is
/// a bijection between non-negative integers and canonical digit strings.
pub proof fn lemma_canonical_digits(s: Seq<char>)
    requires
        s.len() > 0,
        all_digits(s),
        s.len() > 1 ==> s[0] != '0',
    ensures
        seg_val(s) >= 0,
        dec_str(seg_val(s)) == s,
    decreases s.len(),
{
    let x = s.drop_last();
    let d = s.last();
    lemma_digit_char_val(d);
    lemma_seg_val_nonneg(s);
    if s.len() == 1 {
        assert(seg_val(s) == seg_val(x) * 10 + digit_val(d));
        assert(x.len() == 0);
        assert(seg_val(s) == digit_val(d));
        assert(dec_str(seg_val(s)) =~= seq![digit_char(digit_val(d))]);
        assert(s =~= seq![d]);
    } else {
        assert(x[0] == s[0]);
        assert(is_digit_char(s[0]));
        assert(digit_val(s[0]) >= 1);
        lemma_seg_val_pos(x);
        lemma_canonical_digits(x);
        let m = seg_val(x);
        let v = seg_val(s);
        assert(v == m * 10 + digit_val(d));
        lemma_fundamental_div_mod_converse(v, 10, m, digit_val(d));
        assert(v >= 10);
        assert(dec_str(v) == dec_str(v / 10).push(digit_char(v % 10)));
        assert(dec_str(v) == x.push(d));
        assert(x.push(d) =~= s);
    }
}

// ---------------------------------------------------------------------------
// Parsing and rendering of whole paths.
// ---------------------------------------------------------------------------

/// The index of the last `'.'` in `s`, or `-1` if there is none.
pub open spec fn last_dot(s: Seq<char>) -> int
    decreases s.len(),
{
    if s.len() == 0 {
        -1
    } else if s.last() == '.' {
        s.len() - 1
    } else {
        last_dot(s.drop_last())
    }
}

/// What a well-formed path string denotes: `Some` of its segment sequence
/// when `s` is the canonical dot-rendering of a non-empty sequence of
/// segments, `None` otherwise.
pub open spec fn parse_path(s: Seq<char>) -> Option<Seq<u64>>
    decreases s.len(),
{
    let k = last_dot(s);
    if k < 0 {
        if seg_ok(s) {
            Some(seq![seg_val(s) as u64])
        } else {
            None
        }
    } else if 0 <= k < s.len() {
        let seg = s.skip(k + 1);
        if seg_ok(seg) {
            match parse_path(s.take(k)) {
                Some(v) => Some(v.push(seg_val(seg) as u64)),
                None => None,
            }
        } else {
            None
        }
    } else {
        None
    }
}

/// The canonical dot-rendering of a segment sequence.
pub open spec fn render_segs(v: Seq<u64>) -> Seq<char>
    decreases v.len(),
{
    if v.len() == 0 {
        Seq::<char>::empty()
    } else if v.len() == 1 {
        dec_str(v[0] as int)
    } else {
        render_segs(v.drop_last()) + seq!['.'] + dec_str(v.last() as int)
    }
}

pub proof fn lemma_last_dot(s: Seq<char>)
    ensures
        -1 <= last_dot(s) < s.len(),
        last_dot(s) >= 0 ==> s[last_dot(s)] == '.',
        forall|i: int| last_dot(s) < i < s.len() ==> s[i] != '.',
    decreases s.len(),
{
    if s.len() > 0 && s.last() != '.' {
        lemma_last_dot(s.drop_last());
        assert forall|i: int| last_dot(s) < i < s.len() implies s[i] != '.' by {
            if i < s.len() - 1 {
                assert(s.drop_last()[i] == s[i]);
            }
        }
    }
}

pub proof fn lemma_last_dot_at(s: Seq<char>, k: int)
    requires
        0 <= k < s.len(),
        s[k] == '.',
        forall|i: int| k < i < s.len() ==> s[i] != '.',
    ensures
        last_dot(s) == k,
    decreases s.len(),
{
    if k < s.len() - 1 {
        lemma_last_dot_at(s.drop_last(), k);
    }
}

pub proof fn lemma_last_dot_none(s: Seq<char>)
    requires
        forall|i: int| 0 <= i < s.len() ==> s[i] != '.',
    ensures
        last_dot(s) == -1,
    decreases s.len(),
{
    if s.len() > 0 {
        lemma_last_dot_none(s.drop_last());
    }
}

/// Inside a path that parses, every maximal dot-free run of characters is a
/// canonical segment: `a` sits just after a dot (or at the start), `b` just
/// before one (or at the end), with no dot in between.
proof fn lemma_parse_segment(s: Seq<char>, a: int, b: int)
    requires
        parse_path(s) is Some,
        0 <= a <= b <= s.len(),
        a == 0 || s[a - 1] == '.',
        b == s.len() || s[b] == '.',
        forall|i: int| a <= i < b ==> s[i] != '.',
    ensures
        seg_ok(s.subrange(a, b)),
    decreases s.len(),
{
    lemma_last_dot(s);
    let k = last_dot(s);
    if b == s.len() {
        if k < 0 {
            assert(a == 0);
            assert(s.subrange(a, b) =~= s);
        } else {
            // all dots precede a, and s[a-1] is a dot, so a - 1 == k
            assert(a >= 1);
            assert(a - 1 <= k);
            assert(k <= a - 1);
            assert(s.subrange(a, b) =~= s.skip(k + 1));
        }
    } else {
        assert(s[b] == '.');
        assert(k >= 0);
        assert(b <= k);
        let pre = s.take(k);
        assert(parse_path(pre) is Some);
        assert(pre.len() == k);
        assert(forall|i: int| 0 <= i < k ==> pre[i] == s[i]);
        lemma_parse_segment(pre, a, b);
        assert(pre.subrange(a, b) =~= s.subrange(a, b));
    }
}

/// Round trip, rendering first: a non-empty segment sequence parses back
/// from its own rendering.
pub proof fn lemma_render_then_parse(v: Seq<u64>)
    requires
        v.len() > 0,
    ensures
        parse_path(render_segs(v)) == Some(v),
    decreases v.len(),
{
    let s = render_segs(v);
    if v.len() == 1 {
        lemma_dec_str_props(v[0] as int);
        lemma_last_dot_none(s);
        assert(seg_ok(s));
        assert(seg_val(s) == v[0] as int);
        assert(seq![seg_val(s) as u64] =~= v);
    } else {
        let pre = render_segs(v.drop_last());
        let tail = dec_str(v.last() as int);
        lemma_render_then_parse(v.drop_last());
        lemma_dec_str_props(v.last() as int);
        let k = pre.len() as int;
        assert(s.len() == pre.len() + 1 + tail.len());
        assert(s[k] == '.');
        assert forall|i: int| k < i < s.len() implies s[i] != '.' by {
            assert(s[i] == tail[i - k - 1]);
        }
        lemma_last_dot_at(s, k);
        assert(s.take(k) =~= pre);
        assert(s.skip(k + 1) =~= tail);
        assert(seg_ok(tail));
        assert(parse_path(s) == Some(v.drop_last().push(seg_val(tail) as u64)));
        assert(v.drop_last().push(seg_val(tail) as u64) =~= v);
    }
}

/// Round trip, parsing first: a path string that parses is the rendering of
/// what it parses to.
pub proof fn lemma_parse_then_render(s: Seq<char>)
    requires
        parse_path(s) is Some,
    ensures
        parse_path(s)->Some_0.len() > 0,
        render_segs(parse_path(s)->Some_0) == s,
    decreases s.len(),
{
    lemma_last_dot(s);
    let k = last_dot(s);
    if k < 0 {
        assert(seg_ok(s));
        lemma_canonical_digits(s);
        let v = seq![seg_val(s) as u64];
        assert(v[0] as int == seg_val(s));
        assert(render_segs(v) == dec_str(seg_val(s)));
    } else {
        let pre = s.take(k);
        let seg = s.skip(k + 1);
        assert(seg_ok(seg));
        lemma_canonical_digits(seg);
        lemma_parse_then_render(pre);
        let v0 = parse_path(pre)->Some_0;
        let v = v0.push(seg_val(seg) as u64);
        assert(parse_path(s) == Some(v));
        assert(v.len() >= 2);
        assert(v.drop_last() =~= v0);
        assert(v.last() as int == seg_val(seg));
        assert(render_segs(v) == render_segs(v0) + seq!['.'] + dec_str(seg_val(seg)));
        assert(render_segs(v) =~= s);
    }
}

proof fn lemma_seg_val_monotone(s: Seq<char>, j: int)
    requires
        all_digits(s),
        0 <= j <= s.len(),
    ensures
        seg_val(s) >= seg_val(s.take(j)),
    decreases s.len() - j,
{
    lemma_seg_val_nonneg(s.take(j));
    if j < s.len() {
        assert(s.take(j + 1).drop_last() =~= s.take(j));
        assert(s.take(j + 1).last() == s[j]);
        assert(is_digit_char(s[j]));
        assert(seg_val(s.take(j + 1)) == seg_val(s.take(j)) * 10 + digit_val(s[j]));
        lemma_seg_val_monotone(s, j + 1);
    } else {
        assert(s.take(j) =~= s);
    }
}

/// Parses the run of characters `[from, to)` of `s` as one canonical decimal
/// segment; `None` exactly when that run is not a canonical segment.
fn parse_seg(s: &str, from: usize, to: usize) -> (r: Option<u64>)
    requires
        from <= to <= s@.len(),
    ensures
        match r {
            Some(v) => seg_ok(s@.subrange(from as int, to as int)) && v as int == seg_val(
                s@.subrange(from as int, to as int),
            ),
            None => !seg_ok(s@.subrange(from as int, to as int)),
        },
{
    let ghost seg = s@.subrange(from as int, to as int);
    if to == from {
        return None;
    }
    let c0 = s.get_char(from);
    proof {
        assert(seg[0] == s@[from as int]);
    }
    if (c0 as u32) < 48 || (c0 as u32) > 57 {
        return None;
    }
    if c0 == '0' && to - from > 1 {
        return None;
    }
    let mut acc: u64 = 0;
    let mut j: usize = from;
    while j < to
        invariant
            from <= j <= to,
            all_digits(s@.subrange(from as int, j as int)),
            acc as int == seg_val(s@.subrange(from as int, j as int)),
        decreases to - j,
    {
        let c = s.get_char(j);
        let cu = c as u32;
        proof {
            assert(seg[j - from] == s@[j as int]);
        }
        if cu < 48 || cu > 57 {
            return None;
        }
        let d: u64 = (cu - 48) as u64;
        if acc > u64::MAX / 10 || (acc == u64::MAX / 10 && d > u64::MAX % 10) {
            proof {
                let pref = s@.subrange(from as int, (j + 1) as int);
                assert(pref.drop_last() =~= s@.subrange(from as int, j as int));
                assert(pref.last() == s@[j as int]);
                assert(seg_val(pref) == acc * 10 + d);
                assert(acc * 10 + d > u64::MAX);
                if seg_ok(seg) {
                    lemma_seg_val_monotone(seg, j + 1 - from);
                    assert(seg.take(j + 1 - from) =~= pref);
                }
            }
            return None;
        }
        acc = acc * 10 + d;
        proof {
            assert(s@.subrange(from as int, (j + 1) as int).drop_last() =~= s@.subrange(
                from as int,
                j as int,
            ));
            assert(s@.subrange(from as int, (j + 1) as int).last() == s@[j as int]);
        }
        j = j + 1;
    }
    proof {
        assert(seg =~= s@.subrange(from as int, to as int));
        assert(seg.len() > 1 ==> seg[0] != '0');
    }
    Some(acc)
}

/// Parses a dot-rendered path into its segment sequence.
/// Fails with `MalformedPath` exactly when `path` is not the canonical
/// rendering of a non-empty segment sequence.
pub fn decode(path: &str) -> (r: Result<Vec<u64>, StoreError>)
    ensures
        match r {
            Ok(v) => parse_path(path@) == Some(v@),
            Err(e) => e == StoreError::MalformedPath && parse_path(path@) is None,
        },
{
    let n = path.unicode_len();
    let mut segs: Vec<u64> = Vec::new();
    let mut start: usize = 0;
    loop
        invariant
            start <= n,
            n == path@.len(),
            start == 0 ==> segs@.len() == 0,
            start > 0 ==> path@[start - 1] == '.' && parse_path(path@.take(start - 1)) == Some(
                segs@,
            ),
        decreases n - start,
    {
        let mut j: usize = start;
        while j < n && path.get_char(j) != '.'
            invariant
                start <= j <= n,
                forall|m: int| start <= m < j ==> path@[m] != '.',
            decreases n - j,
        {
            j = j + 1;
        }
        let parsed = parse_seg(path, start, j);
        let ghost seg = path@.subrange(start as int, j as int);
        match parsed {
            None => {
                proof {
                    if parse_path(path@) is Some {
                        lemma_parse_segment(path@, start as int, j as int);
                    }
                }
                return Err(StoreError::MalformedPath);
            },
            Some(v) => {
                let ghost segs0 = segs@;
                segs.push(v);
                if j == n {
                    proof {
                        if start == 0 {
                            lemma_last_dot_none(path@);
                            assert(seg =~= path@);
                            assert(segs@ =~= seq![seg_val(path@) as u64]);
                        } else {
                            lemma_last_dot_at(path@, start - 1);
                            assert(path@.skip(start as int) =~= seg);
                            assert(parse_path(path@) == Some(segs0.push(seg_val(seg) as u64)));
                        }
                    }
                    return Ok(segs);
                }
                proof {
                    let t = path@.take(j as int);
                    assert(path@[j as int] == '.');
                    if start == 0 {
                        lemma_last_dot_none(t);
                        assert(t =~= seg);
                        assert(segs@ =~= seq![seg_val(t) as u64]);
                    } else {
                        lemma_last_dot_at(t, start - 1);
                        assert(t.take(start - 1) =~= path@.take(start - 1));
                        assert(t.skip(start as int) =~= seg);
                    }
                }
                start = j + 1;
            },
        }
    }
}

fn digit_str(d: u64) -> (r: &'static str)
    requires
        d < 10,
    ensures
        r@ =~= seq![digit_char(d as int)],
{
    if d == 0 {
        proof {
            reveal_strlit("0");
        }
        "0"
    } else if d == 1 {
        proof {
            reveal_strlit("1");
        }
        "1"
    } else if d == 2 {
        proof {
            reveal_strlit("2");
        }
        "2"
    } else if d == 3 {
        proof {
            reveal_strlit("3");
        }
        "3"
    } else if d == 4 {
        proof {
            reveal_strlit("4");
        }
        "4"
    } else if d == 5 {
        proof {
            reveal_strlit("5");
        }
        "5"
    } else if d == 6 {
        proof {
            reveal_strlit("6");
        }
        "6"
    } else if d == 7 {
        proof {
            reveal_strlit("7");
        }
        "7"
    } else if d == 8 {
        proof {
            reveal_strlit("8");
        }
        "8"
    } else {
        proof {
            reveal_strlit("9");
        }
        "9"
    }
}

fn push_dec(out: &mut String, n: u64)
    ensures
        final(out)@ == old(out)@ + dec_str(n as int),
    decreases n,
{
    if n >= 10 {
        push_dec(out, n / 10);
        out.append(digit_str(n % 10));
        proof {
            assert(final(out)@ =~= old(out)@ + dec_str(n as int));
        }
    } else {
        out.append(digit_str(n));
        proof {
            assert(final(out)@ =~= old(out)@ + dec_str(n as int));
        }
    }
}

/// Renders a segment sequence as its canonical dot-delimited path string.
/// Fails with `InvalidSegment` exactly when the sequence is empty.
pub fn encode(segs: &Vec<u64>) -> (r: Result<String, StoreError>)
    ensures
        match r {
            Ok(s) => segs@.len() > 0 && s@ == render_segs(segs@),
            Err(e) => e == StoreError::InvalidSegment && segs@.len() == 0,
        },
{
    if segs.len() == 0 {
        return Err(StoreError::InvalidSegment);
    }
    let mut out = String::new();
    push_dec(&mut out, segs[0]);
    proof {
        assert(segs@.take(1)[0] == segs@[0]);
        assert(out@ =~= render_segs(segs@.take(1)));
    }
    let mut i: usize = 1;
    while i < segs.len()
        invariant
            1 <= i <= segs@.len(),
            out@ == render_segs(segs@.take(i as int)),
        decreases segs@.len() - i,
    {
        out.append(".");
        push_dec(&mut out, segs[i]);
        proof {
            reveal_strlit(".");
            assert(segs@.take(i + 1).drop_last() =~= segs@.take(i as int));
            assert(segs@.take(i + 1).last() == segs@[i as int]);
            assert(out@ =~= render_segs(segs@.take(i + 1)));
        }
        i = i + 1;
    }
    proof {
        assert(segs@.take(segs@.len() as int) =~= segs@);
    }
    Ok(out)
}

/// Removes the last segment of a well-formed path; `None` for a root-level
/// (single-segment) path. Fails with `MalformedPath` exactly when `path`
/// does not parse.
pub fn parent_of(path: &str) -> (r: Result<Option<String>, StoreError>)
    ensures
        match r {
            Ok(p) => parse_path(path@) is Some && (match p {
                Option::None => parse_path(path@)->Some_0.len() == 1,
                Option::Some(q) => parse_path(path@)->Some_0.len() > 1 && q@ == render_segs(
                    parse_path(path@)->Some_0.drop_last(),
                ),
            }),
            Err(e) => e == StoreError::MalformedPath && parse_path(path@) is None,
        },
{
    match decode(path) {
        Err(e) => Err(e),
        Ok(mut v) => {
            if v.len() == 1 {
                Ok(None)
            } else {
                let _last = v.pop();
                match encode(&v) {
                    Ok(s) => Ok(Some(s)),
                    Err(_) => {
                        proof {
                            assert(false);
                        }
                        Err(StoreError::MalformedPath)
                    },
                }
            }
        },
    }
}

/// Increments the last segment, producing the path of the next sibling.
/// Fails with `MalformedPath` when `path` does not parse, and with
/// `InvalidSegment` when the last segment is already at the machine's limit.
pub fn next_sibling(path: &str) -> (r: Result<String, StoreError>)
    ensures
        match r {
            Ok(s) => parse_path(path@) is Some && ({
                let v = parse_path(path@)->Some_0;
                v.last() < u64::MAX && s@ == render_segs(
                    v.update(v.len() - 1, (v.last() + 1) as u64),
                )
            }),
            Err(e) => (e == StoreError::MalformedPath && parse_path(path@) is None) || (e
                == StoreError::InvalidSegment && parse_path(path@) is Some && parse_path(
                path@,
            )->Some_0.last() == u64::MAX),
        },
{
    match decode(path) {
        Err(e) => Err(e),
        Ok(mut v) => {
            let last = v[v.len() - 1];
            if last == u64::MAX {
                return Err(StoreError::InvalidSegment);
            }
            let n = v.len();
            v.set(n - 1, last + 1);
            match encode(&v) {
                Ok(s) => Ok(s),
                Err(_) => {
                    proof {
                        assert(false);
                    }
                    Err(StoreError::MalformedPath)
                },
            }
        },
    }
}

/// Appends segment `0`, producing the path of a first child.
/// Fails with `MalformedPath` exactly when `path` does not parse.
pub fn first_child(path: &str) -> (r: Result<String, StoreError>)
    ensures
        match r {
            Ok(s) => parse_path(path@) is Some && s@ == render_segs(
                parse_path(path@)->Some_0.push(0u64),
            ),
            Err(e) => e == StoreError::MalformedPath && parse_path(path@) is None,
        },
{
    match decode(path) {
        Err(e) => Err(e),
        Ok(mut v) => {
            v.push(0);
            match encode(&v) {
                Ok(s) => Ok(s),
                Err(_) => {
                    proof {
                        assert(false);
                    }
                    Err(StoreError::MalformedPath)
                },
            }
        },
    }
}

/// True iff both paths parse and `candidate`'s segment sequence has
/// `ancestor`'s as a strict prefix. Segment-prefix, never character-prefix:
/// `"1.20"` is not a descendant of `"1.2"`.
pub fn is_descendant(candidate: &str, ancestor: &str) -> (r: bool)
    ensures
        r == (parse_path(candidate@) is Some && parse_path(ancestor@) is Some
            && is_strict_prefix_of(parse_path(ancestor@)->Some_0, parse_path(candidate@)->Some_0)),
{
    match decode(candidate) {
        Err(_) => false,
        Ok(c) => match decode(ancestor) {
            Err(_) => false,
            Ok(a) => a.len() < c.len() && is_prefix_segs(&a, &c),
        },
    }
}

/// The codec's comparator on rendered paths: numeric segment order, never
/// string order, so `"2.9"` sorts before `"2.10"`. Fails with
/// `MalformedPath` exactly when either path does not parse.
pub fn path_lt(a: &str, b: &str) -> (r: Result<bool, StoreError>)
    ensures
        match r {
            Ok(lt) => parse_path(a@) is Some && parse_path(b@) is Some && lt == seq_lt(
                parse_path(a@)->Some_0,
                parse_path(b@)->Some_0,
            ),
            Err(e) => e == StoreError::MalformedPath && (parse_path(a@) is None || parse_path(
                b@,
            ) is None),
        },
{
    match decode(a) {
        Err(e) => Err(e),
        Ok(va) => match decode(b) {
            Err(e) => Err(e),
            Ok(vb) => Ok(cmp_segs(&va, &vb) == -1),
        },
    }
}

} // verus!
