//! The entry matcher: decides whether an arbitrary hosts-file line is a
//! block entry for a given normalized domain. A line matches only if it
//! consists of optional leading whitespace, the fixed null-redirect
//! address `0.0.0.0`, one or more whitespace bytes, the exact domain, and
//! then nothing but optional whitespace and an optional comment starting
//! with `#`. The domain is compared byte for byte, never interpreted as
//! pattern syntax, so `example.com.evil.org` does not match `example.com`.

use vstd::prelude::*;
use vstd::slice::slice_subrange;

verus! {

/// The whitespace bytes tolerated around the fields of an entry line.
pub open spec fn is_space(b: u8) -> bool {
    b == 32 || b == 9 || b == 10 || b == 13 || b == 11 || b == 12
}

/// The fixed null-redirect address `0.0.0.0`, as bytes.
pub open spec fn addr_seq() -> Seq<u8> {
    seq![48u8, 46u8, 48u8, 46u8, 48u8, 46u8, 48u8]
}

/// The first index at or after `i` holding a non-whitespace byte, or the
/// length of `l` if only whitespace follows.
pub open spec fn ws_end(l: Seq<u8>, i: int) -> int
    decreases l.len() - i,
{
    if 0 <= i < l.len() && is_space(l[i]) {
        ws_end(l, i + 1)
    } else {
        i
    }
}

/// After index `k` the line holds nothing but whitespace, optionally
/// followed by a comment that runs to the end of the line.
pub open spec fn tail_ok(l: Seq<u8>, k: int) -> bool {
    let m = ws_end(l, k);
    m == l.len() || l[m] == 35
}

/// The domain `d` stands at index `b` of line `l`, followed by an
/// acceptable tail.
pub open spec fn domain_at(l: Seq<u8>, d: Seq<u8>, b: int) -> bool {
    &&& b + d.len() <= l.len()
    &&& l.subrange(b, b + d.len() as int) == d
    &&& tail_ok(l, b + d.len() as int)
}

/// The line `l` is a block entry for the domain `d`: optional leading
/// whitespace, the null-redirect address, at least one whitespace byte,
/// the exact domain, then only whitespace and an optional `#` comment.
pub open spec fn matches_entry(l: Seq<u8>, d: Seq<u8>) -> bool {
    let a = ws_end(l, 0);
    &&& a + 7 <= l.len()
    &&& l.subrange(a, a + 7) == addr_seq()
    &&& exists|b: int| a + 7 < b <= ws_end(l, a + 7) && #[trigger] domain_at(l, d, b)
}

/// Basic facts about `ws_end`: it does not move backwards, it never
/// passes the end, everything before it is whitespace, and the byte it
/// stops on is not.
proof fn lemma_ws_end(l: Seq<u8>, i: int)
    requires
        0 <= i <= l.len(),
    ensures
        i <= ws_end(l, i) <= l.len(),
        forall|j: int| i <= j < ws_end(l, i) ==> is_space(#[trigger] l[j]),
        ws_end(l, i) < l.len() ==> !is_space(l[ws_end(l, i)]),
    decreases l.len() - i,
{
    if i < l.len() && is_space(l[i]) {
        lemma_ws_end(l, i + 1);
    }
}

/// A stretch of whitespace starting at `i` cannot reach past `ws_end`.
pub(crate) proof fn lemma_ws_end_at_least(l: Seq<u8>, i: int, b: int)
    requires
        0 <= i <= b <= l.len(),
        forall|j: int| i <= j < b ==> is_space(#[trigger] l[j]),
    ensures
        b <= ws_end(l, i),
    decreases b - i,
{
    if i < b {
        assert(is_space(l[i]));
        lemma_ws_end_at_least(l, i + 1, b);
        assert(ws_end(l, i) == ws_end(l, i + 1));
    } else {
        lemma_ws_end(l, i);
    }
}

/// Whether `b` is one of the whitespace bytes, executably.
fn is_space_exec(b: u8) -> (r: bool)
    ensures
        r == is_space(b),
{
    b == 32 || b == 9 || b == 10 || b == 13 || b == 11 || b == 12
}

/// Scans past whitespace: the first index at or after `from` holding a
/// non-whitespace byte, or the length of `l`.
fn skip_ws(l: &[u8], from: usize) -> (r: usize)
    requires
        from <= l@.len(),
    ensures
        r == ws_end(l@, from as int),
        from <= r <= l@.len(),
{
    let mut i = from;
    while i < l.len() && is_space_exec(l[i])
        invariant
            from <= i <= l@.len(),
            ws_end(l@, from as int) == ws_end(l@, i as int),
        decreases l@.len() - i,
    {
        i = i + 1;
    }
    i
}

/// Whether the bytes of `pat` stand at index `at` of `l`.
fn bytes_at(l: &[u8], at: usize, pat: &[u8]) -> (r: bool)
    requires
        at <= l@.len(),
    ensures
        r == (at + pat@.len() <= l@.len() && l@.subrange(at as int, at as int + pat@.len() as int)
            == pat@),
{
    if pat.len() > l.len() - at {
        return false;
    }
    let mut i: usize = 0;
    while i < pat.len()
        invariant
            0 <= i <= pat@.len(),
            at + pat@.len() <= l@.len(),
            l@.len() <= usize::MAX,
            forall|j: int| 0 <= j < i ==> l@[at + j] == #[trigger] pat@[j],
        decreases pat@.len() - i,
    {
        if l[at + i] != pat[i] {
            proof {
                assert(l@.subrange(at as int, at as int + pat@.len() as int)[i as int] == l@[at
                    + i]);
            }
            return false;
        }
        i = i + 1;
    }
    proof {
        assert(l@.subrange(at as int, at as int + pat@.len() as int) =~= pat@);
    }
    true
}

/// Whether the domain `d` stands at index `b` of `l` with an acceptable
/// tail, executably.
fn domain_at_exec(l: &[u8], d: &[u8], b: usize) -> (r: bool)
    requires
        b <= l@.len(),
    ensures
        r == domain_at(l@, d@, b as int),
{
    if d.len() > l.len() - b {
        return false;
    }
    if !bytes_at(l, b, d) {
        return false;
    }
    let m = skip_ws(l, b + d.len());
    m == l.len() || l[m] == 35
}

/// Decides whether the line `l` is a block entry for the domain `d`.
pub fn line_matches(l: &[u8], d: &[u8]) -> (r: bool)
    ensures
        r == matches_entry(l@, d@),
{
    let a = skip_ws(l, 0);
    proof {
        lemma_ws_end(l@, 0);
    }
    if l.len() - a < 7 {
        return false;
    }
    if !(l[a] == 48 && l[a + 1] == 46 && l[a + 2] == 48 && l[a + 3] == 46 && l[a + 4] == 48 && l[a
        + 5] == 46 && l[a + 6] == 48) {
        proof {
            if l@.subrange(a as int, a as int + 7) == addr_seq() {
                assert(forall|j: int|
                    0 <= j < 7 ==> l@.subrange(a as int, a as int + 7)[j] == #[trigger] l@[a + j]);
            }
        }
        return false;
    }
    proof {
        assert(l@.subrange(a as int, a as int + 7) =~= addr_seq());
    }
    let wend = skip_ws(l, a + 7);
    let ghost a7: int = a as int + 7;
    let mut b = a + 7;
    while b < wend
        invariant
            a7 == a as int + 7,
            a + 7 <= b <= wend,
            a as int == ws_end(l@, 0),
            a + 7 <= l@.len(),
            l@.subrange(a as int, a as int + 7) == addr_seq(),
            wend == ws_end(l@, a7),
            a + 7 <= wend <= l@.len(),
            forall|b2: int| a7 < b2 <= b ==> !(#[trigger] domain_at(l@, d@, b2)),
        decreases wend - b,
    {
        b = b + 1;
        if domain_at_exec(l, d, b) {
            proof {
                assert(domain_at(l@, d@, b as int));
                assert(exists|b2: int|
                    a7 < b2 <= ws_end(l@, a7) && #[trigger] domain_at(l@, d@, b2));
            }
            return true;
        }
    }
    false
}

/// Extracts a copy of `l[from..to]`.
pub(crate) fn copy_range(l: &[u8], from: usize, to: usize) -> (v: Vec<u8>)
    requires
        from <= to <= l@.len(),
    ensures
        v@ == l@.subrange(from as int, to as int),
{
    let s = slice_subrange(l, from, to);
    let mut v: Vec<u8> = Vec::new();
    let mut i: usize = 0;
    while i < s.len()
        invariant
            0 <= i <= s@.len(),
            s@ == l@.subrange(from as int, to as int),
            v@ == s@.subrange(0, i as int),
        decreases s@.len() - i,
    {
        v.push(s[i]);
        proof {
            assert(v@ =~= s@.subrange(0, i + 1));
        }
        i = i + 1;
    }
    proof {
        assert(v@ =~= s@);
    }
    v
}

} // verus!
