//! Domain normalization: canonicalizes a user-supplied domain string by
//! stripping an optional leading `http://` or `https://` (case-insensitive),
//! stripping at most one trailing `/`, and lowercasing the remainder. The
//! result must be non-empty, otherwise the domain is invalid. A `www.`
//! prefix is preserved as literal content.

use crate::error::AppError;
use vstd::prelude::*;
use vstd::string::{StrSliceExecFns, StringExecFns};

verus! {

/// `c` is `lo` or its upper-case ASCII counterpart `up`.
pub open spec fn eq_ci(c: char, lo: char, up: char) -> bool {
    c == lo || c == up
}

/// The string starts with `http://`, ignoring ASCII case of the letters.
pub open spec fn has_http_prefix(s: Seq<char>) -> bool {
    &&& s.len() >= 7
    &&& eq_ci(s[0], 'h', 'H')
    &&& eq_ci(s[1], 't', 'T')
    &&& eq_ci(s[2], 't', 'T')
    &&& eq_ci(s[3], 'p', 'P')
    &&& s[4] == ':'
    &&& s[5] == '/'
    &&& s[6] == '/'
}

/// The string starts with `https://`, ignoring ASCII case of the letters.
pub open spec fn has_https_prefix(s: Seq<char>) -> bool {
    &&& s.len() >= 8
    &&& eq_ci(s[0], 'h', 'H')
    &&& eq_ci(s[1], 't', 'T')
    &&& eq_ci(s[2], 't', 'T')
    &&& eq_ci(s[3], 'p', 'P')
    &&& eq_ci(s[4], 's', 'S')
    &&& s[5] == ':'
    &&& s[6] == '/'
    &&& s[7] == '/'
}

/// How many leading characters the scheme prefix occupies, if any.
pub open spec fn scheme_len(s: Seq<char>) -> int {
    if has_https_prefix(s) {
        8
    } else if has_http_prefix(s) {
        7
    } else {
        0
    }
}

/// The string with its scheme prefix removed.
pub open spec fn strip_scheme(s: Seq<char>) -> Seq<char> {
    s.subrange(scheme_len(s), s.len() as int)
}

/// The string with at most one trailing `/` removed.
pub open spec fn strip_slash(s: Seq<char>) -> Seq<char> {
    if s.len() > 0 && s[s.len() - 1] == '/' {
        s.subrange(0, s.len() - 1)
    } else {
        s
    }
}

/// The scheme-free, slash-free remainder of a domain argument.
pub open spec fn stripped(s: Seq<char>) -> Seq<char> {
    strip_slash(strip_scheme(s))
}

/// What `str::to_lowercase` returns for a given character sequence. The
/// Unicode lowercase mapping is too large to restate here; contracts treat
/// it as a named function of the input characters alone.
pub uninterp spec fn lower_of(s: Seq<char>) -> Seq<char>;

/// The normalized form of a domain argument: the stripped remainder,
/// lowercased.
pub open spec fn cleaned(s: Seq<char>) -> Seq<char> {
    lower_of(stripped(s))
}

/// Relies on `str::to_lowercase`: the result is the Unicode lowercase
/// equivalent of the input, a function of the characters alone, and is
/// empty exactly when the input is empty.
#[verifier::external_body]
fn to_lowercase(s: &str) -> (r: String)
    ensures
        r@ == lower_of(s@),
        s@.len() == 0 <==> r@.len() == 0,
{
    s.to_lowercase()
}

/// `c` equals `lo` or `up`, executably.
fn char_eq_ci(c: char, lo: char, up: char) -> (r: bool)
    ensures
        r == eq_ci(c, lo, up),
{
    c == lo || c == up
}

/// The length of the scheme prefix of `domain`, executably.
fn scheme_prefix_len(domain: &str, n: usize) -> (p: usize)
    requires
        n == domain@.len(),
    ensures
        p == scheme_len(domain@),
        p <= n,
{
    if n >= 7 && char_eq_ci(domain.get_char(0), 'h', 'H') && char_eq_ci(
        domain.get_char(1),
        't',
        'T',
    ) && char_eq_ci(domain.get_char(2), 't', 'T') && char_eq_ci(domain.get_char(3), 'p', 'P') {
        if n >= 8 && char_eq_ci(domain.get_char(4), 's', 'S') && domain.get_char(5) == ':'
            && domain.get_char(6) == '/' && domain.get_char(7) == '/' {
            8
        } else if domain.get_char(4) == ':' && domain.get_char(5) == '/' && domain.get_char(6)
            == '/' {
            7
        } else {
            0
        }
    } else {
        0
    }
}

/// Normalizes a domain argument for use in the hosts file: strips an
/// optional leading `http://` or `https://` (case-insensitive) and at most
/// one trailing `/`, lowercases the remainder, and rejects the argument as
/// invalid when nothing is left.
pub fn format_domain_for_hosts(domain: &str) -> (r: Result<String, AppError>)
    ensures
        r is Err <==> stripped(domain@).len() == 0,
        (match r {
            Ok(d) => d@ == cleaned(domain@) && d@.len() > 0,
            Err(e) => {
                &&& cleaned(domain@).len() == 0
                &&& e matches AppError::InvalidDomain(s) && s@ == domain@
            },
        }),
{
    let n = domain.unicode_len();
    let p = scheme_prefix_len(domain, n);
    let end: usize = if n > p && domain.get_char(n - 1) == '/' {
        n - 1
    } else {
        n
    };
    let core = domain.substring_char(p, end);
    proof {
        assert(core@ =~= stripped(domain@));
    }
    let low = to_lowercase(core);
    if low.as_str().is_empty() {
        Err(AppError::InvalidDomain(domain.to_owned()))
    } else {
        Ok(low)
    }
}

/// The normalizer ignores an added scheme prefix and an added single
/// trailing slash: for a non-empty domain that carries no scheme of its
/// own and does not end in a slash, prepending `http://` or `https://` (in
/// any letter case) and appending one `/` leaves the normalized result
/// unchanged.
pub proof fn lemma_normalize_strip_insensitive(s: Seq<char>, scheme: Seq<char>, slash: Seq<char>)
    requires
        s.len() > 0,
        scheme_len(s) == 0,
        s[s.len() - 1] != '/',
        scheme =~= Seq::<char>::empty() || (scheme.len() == 7 && has_http_prefix(scheme)) || (
        scheme.len() == 8 && has_https_prefix(scheme)),
        slash =~= Seq::<char>::empty() || slash =~= seq!['/'],
    ensures
        cleaned(scheme + s + slash) == cleaned(s),
{
    let t = scheme + s + slash;
    assert(stripped(s) =~= s);
    if scheme.len() == 0 {
        assert(scheme_len(t) == 0) by {
            if has_http_prefix(t) {
                if s.len() >= 7 {
                    assert(has_http_prefix(s));
                } else {
                    // the final character of t is the added slash, and it is
                    // also the last character demanded by the prefix, so the
                    // prefix would have to end inside s
                    assert(t.len() <= s.len() + 1);
                    assert(s[s.len() - 1] == '/');
                }
            }
            if has_https_prefix(t) {
                if s.len() >= 8 {
                    assert(has_https_prefix(s));
                } else {
                    assert(t.len() <= s.len() + 1);
                    assert(s[s.len() - 1] == '/');
                }
            }
        }
    } else if scheme.len() == 7 {
        assert(!has_https_prefix(t));
        assert(has_http_prefix(t));
    } else {
        assert(has_https_prefix(t));
    }
    assert(strip_scheme(t) =~= s + slash);
    if slash.len() == 0 {
        assert(stripped(t) =~= s);
    } else {
        assert((s + slash)[(s + slash).len() - 1] == '/');
        assert(stripped(t) =~= s);
    }
}

} // verus!
