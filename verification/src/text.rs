//! Verified text utilities: equality, suffix and substring tests, and the
//! final path component of a dependency string.

use vstd::prelude::*;
use vstd::string::StrSliceExecFns;

verus! {

/// Character-for-character string equality.
pub fn str_eq(a: &str, b: &str) -> (r: bool)
    ensures
        r == (a@ == b@),
{
    let alen = a.unicode_len();
    let blen = b.unicode_len();
    if alen != blen {
        return false;
    }
    let mut i: usize = 0;
    while i < alen
        invariant
            alen == a@.len(),
            blen == b@.len(),
            alen == blen,
            i <= alen,
            forall|j: int| 0 <= j < i ==> a@[j] == b@[j],
        decreases alen - i,
    {
        if a.get_char(i) != b.get_char(i) {
            return false;
        }
        i += 1;
    }
    proof {
        assert(a@ =~= b@);
    }
    true
}

/// `s` ends with `suffix`.
pub open spec fn ends_with(s: Seq<char>, suffix: Seq<char>) -> bool {
    suffix.len() <= s.len() && s.subrange(s.len() - suffix.len(), s.len() as int) == suffix
}

pub fn str_ends_with(s: &str, suffix: &str) -> (r: bool)
    ensures
        r == ends_with(s@, suffix@),
{
    let slen = s.unicode_len();
    let plen = suffix.unicode_len();
    if plen > slen {
        return false;
    }
    let tail = s.substring_char(slen - plen, slen);
    str_eq(tail, suffix)
}

/// `pat` occurs at offset `k` of `s`.
pub open spec fn match_at(s: Seq<char>, pat: Seq<char>, k: int) -> bool {
    0 <= k && k + pat.len() <= s.len() && s.subrange(k, k + pat.len()) == pat
}

/// `pat` occurs somewhere in `s`.
pub open spec fn contains_seq(s: Seq<char>, pat: Seq<char>) -> bool {
    exists|k: int| match_at(s, pat, k)
}

pub fn str_contains(s: &str, pat: &str) -> (r: bool)
    ensures
        r == contains_seq(s@, pat@),
{
    let slen = s.unicode_len();
    let plen = pat.unicode_len();
    if plen > slen {
        return false;
    }
    if plen == 0 {
        proof {
            assert(s@.subrange(0, 0) =~= pat@);
            assert(match_at(s@, pat@, 0));
        }
        return true;
    }
    let mut k: usize = 0;
    while k <= slen - plen
        invariant
            slen == s@.len(),
            plen == pat@.len(),
            0 < plen <= slen,
            k <= slen - plen + 1,
            forall|k2: int| 0 <= k2 < k ==> !match_at(s@, pat@, k2),
        decreases slen - plen + 1 - k,
    {
        let sub = s.substring_char(k, k + plen);
        if str_eq(sub, pat) {
            proof {
                assert(match_at(s@, pat@, k as int));
            }
            return true;
        }
        k += 1;
    }
    false
}

/// The final path component: everything after the last `/`; the whole string
/// when it holds no `/`; empty when it ends in `/`.
pub open spec fn basename_of(s: Seq<char>) -> Seq<char>
    decreases s.len(),
{
    if s.len() == 0 {
        s
    } else if s[s.len() - 1] == '/' {
        Seq::empty()
    } else {
        basename_of(s.subrange(0, s.len() - 1)).push(s[s.len() - 1])
    }
}

/// When no `/` occurs at or after position `p`, and `p` is the start of the
/// string or sits right after a `/`, the basename is the suffix from `p`.
proof fn lemma_basename_suffix(s: Seq<char>, p: int)
    requires
        0 <= p <= s.len(),
        forall|j: int| p <= j < s.len() ==> s[j] != '/',
        p == 0 || s[p - 1] == '/',
    ensures
        basename_of(s) == s.subrange(p, s.len() as int),
    decreases s.len(),
{
    if p == s.len() {
        if p == 0 {
            assert(basename_of(s) =~= s.subrange(p, s.len() as int));
        } else {
            assert(s[s.len() - 1] == '/');
            assert(basename_of(s) =~= s.subrange(p, s.len() as int));
        }
    } else {
        let s2 = s.subrange(0, s.len() - 1);
        assert(s[s.len() - 1] != '/');
        lemma_basename_suffix(s2, p);
        assert(basename_of(s) =~= s.subrange(p, s.len() as int));
    }
}

pub fn basename(s: &str) -> (r: &str)
    ensures
        r@ == basename_of(s@),
{
    let len = s.unicode_len();
    let mut i: usize = len;
    while i > 0
        invariant
            i <= len,
            len == s@.len(),
            forall|j: int| i <= j < len ==> s@[j] != '/',
        decreases i,
    {
        if s.get_char(i - 1) == '/' {
            let r = s.substring_char(i, len);
            proof {
                lemma_basename_suffix(s@, i as int);
            }
            return r;
        }
        i -= 1;
    }
    proof {
        lemma_basename_suffix(s@, 0);
        assert(s@.subrange(0, s@.len() as int) =~= s@);
    }
    s
}

} // verus!
