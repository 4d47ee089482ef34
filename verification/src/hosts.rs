//! The hosts-file editor: resolves the platform hosts-file path and
//! computes the two operations, block and unblock, as pure edits on the
//! file's bytes.
//!
//! A block operation appends one entry line per missing domain variant
//! (the bare domain and its `www.` counterpart), first adding a line
//! terminator if the file does not end in one; existing lines are never
//! rewritten. An unblock operation drops exactly the lines that match
//! either variant and keeps every other line byte for byte, in order.

use crate::domain::{cleaned, format_domain_for_hosts};
use crate::error::AppError;
use crate::matcher::{
    addr_seq, copy_range, domain_at, line_matches, lemma_ws_end_at_least, matches_entry, is_space,
    tail_ok, ws_end,
};
use vstd::prelude::*;
use vstd::string::{StrSliceExecFns, StringSliceAdditionalSpecFns};
use vstd::utf8::encode_utf8;

verus! {

/// The UTF-8 bytes of the normalized form of a domain argument.
pub open spec fn norm_bytes(domain: Seq<char>) -> Seq<u8> {
    encode_utf8(cleaned(domain))
}

/// The `www.` variant of a domain.
pub open spec fn www_bytes(d: Seq<u8>) -> Seq<u8> {
    seq![119u8, 119u8, 119u8, 46u8] + d
}

/// The marker comment `# Blocked by gwd` that identifies entry lines this
/// tool owns.
pub open spec fn tag_seq() -> Seq<u8> {
    seq![
        35u8,
        32u8,
        66u8,
        108u8,
        111u8,
        99u8,
        107u8,
        101u8,
        100u8,
        32u8,
        98u8,
        121u8,
        32u8,
        103u8,
        119u8,
        100u8,
    ]
}

/// The entry line written for a domain: `0.0.0.0 <domain> # Blocked by gwd`.
pub open spec fn entry_line(d: Seq<u8>) -> Seq<u8> {
    addr_seq() + seq![32u8] + d + seq![32u8] + tag_seq()
}

/// The index of the first line terminator at or after `i`, or the length
/// of `c` if the last line is unterminated.
pub open spec fn next_nl(c: Seq<u8>, i: int) -> int
    decreases c.len() - i,
{
    if 0 <= i < c.len() && c[i] != 10 {
        next_nl(c, i + 1)
    } else {
        i
    }
}

/// Where the contents continue after the line that starts at `i`: past
/// the terminator, or at the end for an unterminated last line.
pub open spec fn line_stop(c: Seq<u8>, i: int) -> int {
    if next_nl(c, i) < c.len() {
        next_nl(c, i) + 1
    } else {
        next_nl(c, i)
    }
}

/// The content of the first line, without its terminator.
pub open spec fn first_line(c: Seq<u8>) -> Seq<u8> {
    c.take(next_nl(c, 0))
}

/// Everything after the first line and its terminator.
pub open spec fn after_first_line(c: Seq<u8>) -> Seq<u8> {
    c.skip(line_stop(c, 0))
}

/// Basic facts about `next_nl`: it does not move backwards, it never
/// passes the end, no terminator stands before it, and it stops on one.
pub proof fn lemma_next_nl(c: Seq<u8>, i: int)
    requires
        0 <= i <= c.len(),
    ensures
        i <= next_nl(c, i) <= c.len(),
        forall|j: int| i <= j < next_nl(c, i) ==> #[trigger] c[j] != 10,
        next_nl(c, i) < c.len() ==> c[next_nl(c, i)] == 10,
    decreases c.len() - i,
{
    if i < c.len() && c[i] != 10 {
        lemma_next_nl(c, i + 1);
    }
}

/// `next_nl` is the least terminator position: a terminator at `k` with
/// none before it pins `next_nl` to `k`.
pub proof fn lemma_next_nl_is(c: Seq<u8>, i: int, k: int)
    requires
        0 <= i <= k <= c.len(),
        k < c.len() ==> c[k] == 10,
        forall|j: int| i <= j < k ==> #[trigger] c[j] != 10,
    ensures
        next_nl(c, i) == k,
    decreases k - i,
{
    if i < k {
        assert(c[i] != 10);
        lemma_next_nl_is(c, i + 1, k);
    }
}

/// Splitting off the processed prefix commutes with finding the next
/// terminator.
pub proof fn lemma_next_nl_shift(c: Seq<u8>, pos: int, i: int)
    requires
        0 <= pos <= i <= c.len(),
    ensures
        next_nl(c, i) - pos == next_nl(c.skip(pos), i - pos),
    decreases c.len() - i,
{
    if i < c.len() && c[i] != 10 {
        assert(c.skip(pos)[i - pos] == c[i]);
        lemma_next_nl_shift(c, pos, i + 1);
    } else {
        if i < c.len() {
            assert(c.skip(pos)[i - pos] == c[i]);
        }
    }
}

/// Viewing the unprocessed suffix as contents of its own, its first line
/// and remainder line up with `next_nl` and `line_stop` on the whole.
pub proof fn lemma_line_decomp(c: Seq<u8>, pos: int)
    requires
        0 <= pos <= c.len(),
    ensures
        pos <= next_nl(c, pos) <= c.len(),
        next_nl(c.skip(pos), 0) == next_nl(c, pos) - pos,
        line_stop(c.skip(pos), 0) == line_stop(c, pos) - pos,
        first_line(c.skip(pos)) == c.subrange(pos, next_nl(c, pos)),
        after_first_line(c.skip(pos)) == c.skip(line_stop(c, pos)),
        pos < c.len() ==> pos < line_stop(c, pos) <= c.len(),
{
    lemma_next_nl(c, pos);
    lemma_next_nl_shift(c, pos, pos);
    let k = next_nl(c, pos);
    assert(first_line(c.skip(pos)) =~= c.subrange(pos, k));
    if k < c.len() {
        assert(after_first_line(c.skip(pos)) =~= c.skip(k + 1));
    } else {
        assert(after_first_line(c.skip(pos)) =~= c.skip(k));
    }
}

/// Some line of the contents is a block entry for the domain `d`.
pub open spec fn has_entry(c: Seq<u8>, d: Seq<u8>) -> bool
    decreases c.len(),
    via has_entry_dec
{
    if c.len() == 0 {
        false
    } else {
        matches_entry(first_line(c), d) || has_entry(after_first_line(c), d)
    }
}

#[via_fn]
proof fn has_entry_dec(c: Seq<u8>, d: Seq<u8>) {
    lemma_line_decomp(c, 0);
}

/// A line is owned by an unblock of `d` when it is an entry for the bare
/// domain or for its `www.` variant.
pub open spec fn combined_matches(l: Seq<u8>, d: Seq<u8>) -> bool {
    matches_entry(l, d) || matches_entry(l, www_bytes(d))
}

/// What remains of the contents after dropping every line owned by an
/// unblock of `d`: all other lines stay byte for byte, in order, with
/// their terminators.
pub open spec fn keep_lines(c: Seq<u8>, d: Seq<u8>) -> Seq<u8>
    decreases c.len(),
    via keep_lines_dec
{
    if c.len() == 0 {
        c
    } else {
        let rest = keep_lines(after_first_line(c), d);
        if combined_matches(first_line(c), d) {
            rest
        } else {
            c.take(line_stop(c, 0)) + rest
        }
    }
}

#[via_fn]
proof fn keep_lines_dec(c: Seq<u8>, d: Seq<u8>) {
    lemma_line_decomp(c, 0);
}

/// How many lines an unblock of `d` drops.
pub open spec fn removed_count(c: Seq<u8>, d: Seq<u8>) -> nat
    decreases c.len(),
    via removed_count_dec
{
    if c.len() == 0 {
        0
    } else {
        let rest = removed_count(after_first_line(c), d);
        if combined_matches(first_line(c), d) {
            rest + 1
        } else {
            rest
        }
    }
}

#[via_fn]
proof fn removed_count_dec(c: Seq<u8>, d: Seq<u8>) {
    lemma_line_decomp(c, 0);
}

/// The contents do not end with a line terminator, so one must be written
/// before anything is appended.
pub open spec fn needs_nl(c: Seq<u8>) -> bool {
    c.len() > 0 && c[c.len() - 1] != 10
}

/// The bytes a block of `d` appends: nothing when both variants already
/// have an entry; otherwise a terminator for an unterminated last line,
/// then one full entry line per missing variant.
pub open spec fn block_append(c: Seq<u8>, d: Seq<u8>) -> Seq<u8> {
    if has_entry(c, d) && has_entry(c, www_bytes(d)) {
        Seq::<u8>::empty()
    } else {
        (if needs_nl(c) {
            seq![10u8]
        } else {
            Seq::<u8>::empty()
        }) + (if !has_entry(c, d) {
            entry_line(d) + seq![10u8]
        } else {
            Seq::<u8>::empty()
        }) + (if !has_entry(c, www_bytes(d)) {
            entry_line(www_bytes(d)) + seq![10u8]
        } else {
            Seq::<u8>::empty()
        })
    }
}

/// Character-by-character string equality.
fn str_eq(a: &str, b: &str) -> (r: bool)
    ensures
        r == (a@ == b@),
{
    let n = a.unicode_len();
    let m = b.unicode_len();
    if n != m {
        return false;
    }
    let mut i: usize = 0;
    while i < n
        invariant
            0 <= i <= n,
            n == a@.len(),
            n == b@.len(),
            forall|j: int| 0 <= j < i ==> a@[j] == b@[j],
        decreases n - i,
    {
        if a.get_char(i) != b.get_char(i) {
            return false;
        }
        i = i + 1;
    }
    proof {
        assert(a@ =~= b@);
    }
    true
}

/// The platform is the Windows family, whose hosts file lives under the
/// system drivers directory.
pub open spec fn is_windows(os: Seq<char>) -> bool {
    os == "windows"@
}

/// The platform is one of the Unix family members whose hosts file is
/// `/etc/hosts`.
pub open spec fn is_unix_family(os: Seq<char>) -> bool {
    ||| os == "macos"@
    ||| os == "linux"@
    ||| os == "freebsd"@
    ||| os == "dragonfly"@
    ||| os == "openbsd"@
    ||| os == "netbsd"@
}

/// Resolves the absolute path of the platform hosts file from the
/// platform identifier string. Unsupported platforms fail with an
/// `UnsupportedOS` error naming the platform; the result is a function of
/// the identifier alone, so repeated calls resolve identically.
pub fn get_hosts_path(os: &str) -> (r: Result<String, AppError>)
    ensures
        is_windows(os@) ==> (r matches Ok(p) && p@ == "C:\\Windows\\System32\\drivers\\etc\\hosts"@),
        is_unix_family(os@) ==> (r matches Ok(p) && p@ == "/etc/hosts"@),
        !(is_windows(os@) || is_unix_family(os@)) ==> (r matches Err(e) && e matches AppError::UnsupportedOS(s)
            && s@ == os@),
{
    proof {
        reveal_strlit("windows");
        reveal_strlit("macos");
        reveal_strlit("linux");
        reveal_strlit("freebsd");
        reveal_strlit("dragonfly");
        reveal_strlit("openbsd");
        reveal_strlit("netbsd");
        assert("windows"@.len() == 7);
        assert("macos"@.len() == 5);
        assert("linux"@.len() == 5);
        assert("freebsd"@.len() == 7);
        assert("dragonfly"@.len() == 9);
        assert("openbsd"@.len() == 7);
        assert("netbsd"@.len() == 6);
        assert("windows"@[0] == 'w' && "freebsd"@[0] == 'f' && "openbsd"@[0] == 'o');
    }
    if str_eq(os, "windows") {
        Ok(String::from_str("C:\\Windows\\System32\\drivers\\etc\\hosts"))
    } else if str_eq(os, "macos") || str_eq(os, "linux") || str_eq(os, "freebsd") || str_eq(
        os,
        "dragonfly",
    ) || str_eq(os, "openbsd") || str_eq(os, "netbsd") {
        Ok(String::from_str("/etc/hosts"))
    } else {
        Err(AppError::UnsupportedOS(os.to_owned()))
    }
}

/// Finds the first line terminator at or after `from`, or the end.
fn find_line_end(c: &[u8], from: usize) -> (r: usize)
    requires
        from <= c@.len(),
    ensures
        r == next_nl(c@, from as int),
        from <= r <= c@.len(),
{
    let mut i = from;
    while i < c.len() && c[i] != 10
        invariant
            from <= i <= c@.len(),
            next_nl(c@, from as int) == next_nl(c@, i as int),
        decreases c@.len() - i,
    {
        i = i + 1;
    }
    i
}

/// Scans every line of the contents for entries for `d` and `dw`.
fn scan_entries(c: &[u8], d: &[u8], dw: &[u8]) -> (r: (bool, bool))
    ensures
        r.0 == has_entry(c@, d@),
        r.1 == has_entry(c@, dw@),
{
    let mut pos: usize = 0;
    let mut f1 = false;
    let mut f2 = false;
    proof {
        assert(c@.skip(0) =~= c@);
    }
    while pos < c.len()
        invariant
            0 <= pos <= c@.len(),
            has_entry(c@, d@) == (f1 || has_entry(c@.skip(pos as int), d@)),
            has_entry(c@, dw@) == (f2 || has_entry(c@.skip(pos as int), dw@)),
        decreases c@.len() - pos,
    {
        let k = find_line_end(c, pos);
        let line = copy_range(c, pos, k);
        proof {
            lemma_line_decomp(c@, pos as int);
            assert(first_line(c@.skip(pos as int)) == line@);
        }
        if line_matches(line.as_slice(), d) {
            f1 = true;
        }
        if line_matches(line.as_slice(), dw) {
            f2 = true;
        }
        let newpos = if k < c.len() {
            k + 1
        } else {
            k
        };
        proof {
            assert(c@.skip(newpos as int) == after_first_line(c@.skip(pos as int)));
            assert(c@.skip(pos as int).len() > 0);
        }
        pos = newpos;
    }
    proof {
        assert(c@.skip(pos as int) =~= Seq::<u8>::empty());
    }
    (f1, f2)
}

/// Appends a copy of `s` to `out`.
fn push_all(out: &mut Vec<u8>, s: &[u8])
    ensures
        final(out)@ == old(out)@ + s@,
{
    let ghost out0 = old(out)@;
    let mut i: usize = 0;
    while i < s.len()
        invariant
            0 <= i <= s@.len(),
            out@ == out0 + s@.subrange(0, i as int),
        decreases s@.len() - i,
    {
        out.push(s[i]);
        proof {
            assert(out@ =~= out0 + s@.subrange(0, i + 1));
        }
        i = i + 1;
    }
    proof {
        assert(out@ =~= out0 + s@);
    }
}

/// Builds the `www.` variant of a domain.
fn www_variant(d: &[u8]) -> (v: Vec<u8>)
    ensures
        v@ == www_bytes(d@),
{
    let mut v: Vec<u8> = Vec::new();
    v.push(119);
    v.push(119);
    v.push(119);
    v.push(46);
    push_all(&mut v, d);
    proof {
        assert(v@ =~= www_bytes(d@));
    }
    v
}

/// Appends a full entry line for `d`, terminator included.
fn push_entry(out: &mut Vec<u8>, d: &[u8])
    ensures
        final(out)@ == old(out)@ + entry_line(d@) + seq![10u8],
{
    let ghost out0 = old(out)@;
    out.push(48);
    out.push(46);
    out.push(48);
    out.push(46);
    out.push(48);
    out.push(46);
    out.push(48);
    out.push(32);
    push_all(out, d);
    out.push(32);
    out.push(35);
    out.push(32);
    out.push(66);
    out.push(108);
    out.push(111);
    out.push(99);
    out.push(107);
    out.push(101);
    out.push(100);
    out.push(32);
    out.push(98);
    out.push(121);
    out.push(32);
    out.push(103);
    out.push(119);
    out.push(100);
    out.push(10);
    proof {
        assert(out@ =~= out0 + entry_line(d@) + seq![10u8]);
    }
}

/// What a block operation leaves behind, beyond the untouched contents.
#[derive(Debug)]
pub struct BlockOutcome {
    /// The bytes to append at the end of the hosts file: empty when both
    /// variants were already present.
    pub append: Vec<u8>,
    /// The bare domain had no entry yet, so one is being added.
    pub added_bare: bool,
    /// The `www.` variant had no entry yet, so one is being added.
    pub added_www: bool,
}

/// Computes the block operation for a domain against the current hosts
/// file contents. The file is never rewritten: the result is exactly the
/// bytes to append (one entry line per variant not already present,
/// preceded by a terminator when the file does not end in one), so every
/// existing line is preserved unmodified at its original position.
/// Blocking an already-blocked domain appends nothing. The only error is
/// an invalid (empty after normalization) domain.
pub fn block_website(domain: &str, contents: &[u8]) -> (r: Result<BlockOutcome, AppError>)
    ensures
        r is Err <==> crate::domain::stripped(domain@).len() == 0,
        (match r {
            Ok(o) => {
                &&& cleaned(domain@).len() > 0
                &&& o.added_bare == !has_entry(contents@, norm_bytes(domain@))
                &&& o.added_www == !has_entry(contents@, www_bytes(norm_bytes(domain@)))
                &&& o.append@ == block_append(contents@, norm_bytes(domain@))
            },
            Err(e) => {
                &&& cleaned(domain@).len() == 0
                &&& e matches AppError::InvalidDomain(s) && s@ == domain@
            },
        }),
{
    let nd = match format_domain_for_hosts(domain) {
        Ok(v) => v,
        Err(e) => {
            return Err(e);
        },
    };
    let db = nd.as_str().as_bytes_vec();
    proof {
        assert(db@ == norm_bytes(domain@));
    }
    let dw = www_variant(db.as_slice());
    let r = scan_entries(contents, db.as_slice(), dw.as_slice());
    let f1 = r.0;
    let f2 = r.1;
    let mut append: Vec<u8> = Vec::new();
    if !f1 || !f2 {
        if contents.len() > 0 && contents[contents.len() - 1] != 10 {
            append.push(10);
        }
        if !f1 {
            push_entry(&mut append, db.as_slice());
        }
        if !f2 {
            push_entry(&mut append, dw.as_slice());
        }
    }
    proof {
        assert(append@ =~= block_append(contents@, norm_bytes(domain@)));
    }
    Ok(BlockOutcome { append, added_bare: !f1, added_www: !f2 })
}

/// What an unblock operation computes.
#[derive(Debug)]
pub struct UnblockOutcome {
    /// The rewritten contents: every line not owned by this unblock,
    /// byte for byte, in order.
    pub contents: Vec<u8>,
    /// How many owned lines were dropped.
    pub removed: usize,
}

/// Computes the unblock operation for a domain against the current hosts
/// file contents: drops exactly the lines that are entries for the bare
/// domain or its `www.` variant, and keeps every other line byte for
/// byte, in order. When nothing matches, the result is the input
/// unchanged. The only error is an invalid (empty after normalization)
/// domain.
pub fn unblock_website(domain: &str, contents: &[u8]) -> (r: Result<UnblockOutcome, AppError>)
    ensures
        r is Err <==> crate::domain::stripped(domain@).len() == 0,
        (match r {
            Ok(o) => {
                &&& cleaned(domain@).len() > 0
                &&& o.contents@ == keep_lines(contents@, norm_bytes(domain@))
                &&& o.removed == removed_count(contents@, norm_bytes(domain@))
                &&& (o.removed == 0 ==> o.contents@ == contents@)
            },
            Err(e) => {
                &&& cleaned(domain@).len() == 0
                &&& e matches AppError::InvalidDomain(s) && s@ == domain@
            },
        }),
{
    let nd = match format_domain_for_hosts(domain) {
        Ok(v) => v,
        Err(e) => {
            return Err(e);
        },
    };
    let db = nd.as_str().as_bytes_vec();
    proof {
        assert(db@ == norm_bytes(domain@));
    }
    let dw = www_variant(db.as_slice());
    let mut out: Vec<u8> = Vec::new();
    let mut removed: usize = 0;
    let mut pos: usize = 0;
    proof {
        assert(contents@.skip(0) =~= contents@);
    }
    while pos < contents.len()
        invariant
            0 <= pos <= contents@.len(),
            removed <= pos,
            dw@ == www_bytes(db@),
            keep_lines(contents@, db@) == out@ + keep_lines(contents@.skip(pos as int), db@),
            removed_count(contents@, db@) == removed + removed_count(
                contents@.skip(pos as int),
                db@,
            ),
        decreases contents@.len() - pos,
    {
        let k = find_line_end(contents, pos);
        let line = copy_range(contents, pos, k);
        proof {
            lemma_line_decomp(contents@, pos as int);
            assert(first_line(contents@.skip(pos as int)) == line@);
            assert(contents@.skip(pos as int).len() > 0);
        }
        let newpos = if k < contents.len() {
            k + 1
        } else {
            k
        };
        proof {
            assert(contents@.skip(newpos as int) == after_first_line(contents@.skip(pos as int)));
        }
        let matched = line_matches(line.as_slice(), db.as_slice()) || line_matches(
            line.as_slice(),
            dw.as_slice(),
        );
        proof {
            assert(newpos as int == line_stop(contents@, pos as int));
        }
        if matched {
            removed = removed + 1;
        } else {
            let ghost out_before = out@;
            push_all(&mut out, copy_range(contents, pos, newpos).as_slice());
            proof {
                let s = contents@.skip(pos as int);
                assert(s.take(line_stop(s, 0)) =~= contents@.subrange(pos as int, newpos as int));
                assert(keep_lines(s, db@) == contents@.subrange(pos as int, newpos as int)
                    + keep_lines(contents@.skip(newpos as int), db@));
                assert(out_before + keep_lines(s, db@) =~= out@ + keep_lines(
                    contents@.skip(newpos as int),
                    db@,
                ));
            }
        }
        pos = newpos;
    }
    proof {
        assert(contents@.skip(pos as int) =~= Seq::<u8>::empty());
        assert(keep_lines(contents@, db@) == out@);
        if removed_count(contents@, db@) == 0 {
            lemma_keep_lines_noop(contents@, db@);
        }
    }
    Ok(UnblockOutcome { contents: out, removed })
}

/// The sequence contains no line terminator, so it stays on one line of
/// the file it is written into.
pub open spec fn no_terminator(s: Seq<u8>) -> bool {
    forall|j: int| 0 <= j < s.len() ==> s[j] != 10
}

/// The entry line written for a terminator-free domain is itself
/// terminator-free, and so is the `www.` variant of such a domain.
pub proof fn lemma_entry_line_no_terminator(d: Seq<u8>)
    requires
        no_terminator(d),
    ensures
        no_terminator(entry_line(d)),
        no_terminator(www_bytes(d)),
{
    let l = entry_line(d);
    assert forall|j: int| 0 <= j < l.len() implies l[j] != 10 by {
        if 8 <= j < 8 + d.len() {
            assert(l[j] == d[j - 8]);
        }
    }
    let w = www_bytes(d);
    assert forall|j: int| 0 <= j < w.len() implies w[j] != 10 by {
        if 4 <= j < 4 + d.len() {
            assert(w[j] == d[j - 4]);
        }
    }
}

/// The entry line written for a domain is recognized by the matcher for
/// that same domain.
pub proof fn lemma_entry_matches(d: Seq<u8>)
    ensures
        matches_entry(entry_line(d), d),
{
    let l = entry_line(d);
    assert(l[0] == 48 && !is_space(48u8));
    assert(ws_end(l, 0) == 0);
    assert(l.subrange(0, 7) =~= addr_seq());
    assert(l[7] == 32 && is_space(32u8));
    lemma_ws_end_at_least(l, 7, 8);
    assert(l.subrange(8, 8 + d.len() as int) =~= d);
    let k = 8 + d.len() as int;
    assert(l[k] == 32 && l[k + 1] == 35);
    assert(ws_end(l, k + 1) == k + 1) by {
        assert(!is_space(35u8));
    }
    assert(ws_end(l, k) == k + 1);
    assert(tail_ok(l, k));
    assert(domain_at(l, d, 8));
    assert(exists|b: int| 7 < b <= ws_end(l, 7int) && #[trigger] domain_at(l, d, b));
}

/// Whether some line of a longer file holds an entry splits over a
/// line-aligned cut: a prefix that is empty or ends on a terminator
/// contributes its own lines, the remainder the rest.
pub proof fn lemma_has_entry_concat(x: Seq<u8>, y: Seq<u8>, d: Seq<u8>)
    requires
        x.len() == 0 || x[x.len() - 1] == 10,
    ensures
        has_entry(x + y, d) == (has_entry(x, d) || has_entry(y, d)),
    decreases x.len(),
{
    if x.len() == 0 {
        assert(x + y =~= y);
    } else {
        let k = next_nl(x, 0);
        lemma_next_nl(x, 0);
        assert(k < x.len()) by {
            if k == x.len() {
                assert(x[x.len() - 1] != 10);
            }
        }
        assert(forall|j: int| 0 <= j < k ==> (x + y)[j] == #[trigger] x[j]);
        assert((x + y)[k] == x[k]);
        lemma_next_nl_is(x + y, 0, k);
        assert(first_line(x + y) =~= first_line(x));
        let xr = x.skip(k + 1);
        assert(after_first_line(x + y) =~= xr + y);
        assert(after_first_line(x) =~= xr);
        assert(xr.len() == 0 || xr[xr.len() - 1] == 10) by {
            if xr.len() > 0 {
                assert(xr[xr.len() - 1] == x[x.len() - 1]);
            }
        }
        lemma_has_entry_concat(xr, y, d);
    }
}

/// Terminating an unterminated last line does not change which entries
/// the file holds: the line keeps its content, and no line is added.
pub proof fn lemma_has_entry_terminated(c: Seq<u8>, d: Seq<u8>)
    requires
        needs_nl(c),
    ensures
        has_entry(c + seq![10u8], d) == has_entry(c, d),
    decreases c.len(),
{
    let t = c + seq![10u8];
    let k = next_nl(c, 0);
    lemma_next_nl(c, 0);
    assert(forall|j: int| 0 <= j < k ==> t[j] == #[trigger] c[j]);
    if k < c.len() {
        assert(t[k] == c[k]);
        lemma_next_nl_is(t, 0, k);
        assert(first_line(t) =~= first_line(c));
        let cr = c.skip(k + 1);
        assert(cr.len() > 0) by {
            if k + 1 == c.len() {
                assert(c[c.len() - 1] == 10);
            }
        }
        assert(cr[cr.len() - 1] == c[c.len() - 1]);
        assert(after_first_line(t) =~= cr + seq![10u8]);
        assert(after_first_line(c) =~= cr);
        lemma_has_entry_terminated(cr, d);
    } else {
        assert(t[c.len() as int] == 10);
        lemma_next_nl_is(t, 0, c.len() as int);
        assert(first_line(t) =~= c);
        assert(first_line(c) =~= c);
        assert(after_first_line(t) =~= Seq::<u8>::empty());
        assert(after_first_line(c) =~= Seq::<u8>::empty());
    }
}

/// After a block operation the file holds an entry for the domain and one
/// for its `www.` variant — whether each was already present or has just
/// been appended, and in particular also when the file did not end in a
/// line terminator, so the appended entries always stand on lines of
/// their own.
pub proof fn lemma_block_registers(c: Seq<u8>, d: Seq<u8>)
    requires
        no_terminator(d),
    ensures
        has_entry(c + block_append(c, d), d),
        has_entry(c + block_append(c, d), www_bytes(d)),
{
    let wd = www_bytes(d);
    lemma_entry_line_no_terminator(d);
    lemma_entry_line_no_terminator(wd);
    let app = block_append(c, d);
    if has_entry(c, d) && has_entry(c, wd) {
        assert(c + app =~= c);
    } else {
        let fix: Seq<u8> = if needs_nl(c) {
            seq![10u8]
        } else {
            Seq::<u8>::empty()
        };
        let e1: Seq<u8> = if !has_entry(c, d) {
            entry_line(d) + seq![10u8]
        } else {
            Seq::<u8>::empty()
        };
        let e2: Seq<u8> = if !has_entry(c, wd) {
            entry_line(wd) + seq![10u8]
        } else {
            Seq::<u8>::empty()
        };
        let x = c + fix;
        let y = e1 + e2;
        assert(c + app =~= x + y);
        if needs_nl(c) {
            lemma_has_entry_terminated(c, d);
            lemma_has_entry_terminated(c, wd);
            assert(has_entry(x, d) == has_entry(c, d));
            assert(has_entry(x, wd) == has_entry(c, wd));
        } else {
            assert(x =~= c);
        }
        assert(x.len() == 0 || x[x.len() - 1] == 10);
        lemma_has_entry_concat(x, y, d);
        lemma_has_entry_concat(x, y, wd);
        if !has_entry(c, d) {
            lemma_entry_matches(d);
            assert(forall|j: int|
                0 <= j < entry_line(d).len() ==> y[j] == #[trigger] entry_line(d)[j]);
            assert(y[entry_line(d).len() as int] == 10);
            lemma_next_nl_is(y, 0, entry_line(d).len() as int);
            assert(first_line(y) =~= entry_line(d));
            assert(has_entry(y, d));
        }
        if !has_entry(c, wd) {
            lemma_entry_matches(wd);
            let ew = entry_line(wd);
            if !has_entry(c, d) {
                assert(y[entry_line(d).len() as int] == 10);
                lemma_next_nl_is(y, 0, entry_line(d).len() as int);
                assert(after_first_line(y) =~= e2);
                assert(forall|j: int| 0 <= j < ew.len() ==> e2[j] == #[trigger] ew[j]);
                assert(e2[ew.len() as int] == 10);
                lemma_next_nl_is(e2, 0, ew.len() as int);
                assert(first_line(e2) =~= ew);
                assert(has_entry(e2, wd));
                assert(has_entry(y, wd));
            } else {
                assert(forall|j: int| 0 <= j < ew.len() ==> y[j] == #[trigger] ew[j]);
                assert(y[ew.len() as int] == 10);
                lemma_next_nl_is(y, 0, ew.len() as int);
                assert(first_line(y) =~= ew);
                assert(has_entry(y, wd));
            }
        }
    }
}

/// Block is idempotent: once a domain has been blocked, blocking it again
/// appends nothing — no duplicate entries and no other change. The domain
/// must not contain a line terminator; one would split the written entry
/// across two lines.
pub proof fn lemma_block_idempotent(c: Seq<u8>, d: Seq<u8>)
    requires
        no_terminator(d),
    ensures
        block_append(c + block_append(c, d), d) == Seq::<u8>::empty(),
        (c + block_append(c, d)) + block_append(c + block_append(c, d), d) == c + block_append(
            c,
            d,
        ),
{
    lemma_block_registers(c, d);
    let c1 = c + block_append(c, d);
    assert(c1 + block_append(c1, d) =~= c1);
}

/// An unblock that finds nothing to remove leaves the contents byte for
/// byte unchanged.
pub proof fn lemma_keep_lines_noop(c: Seq<u8>, d: Seq<u8>)
    requires
        removed_count(c, d) == 0,
    ensures
        keep_lines(c, d) == c,
    decreases c.len(),
{
    if c.len() > 0 {
        lemma_line_decomp(c, 0);
        lemma_keep_lines_noop(after_first_line(c), d);
        assert(c.take(line_stop(c, 0)) + c.skip(line_stop(c, 0)) =~= c);
    }
}

} // verus!
