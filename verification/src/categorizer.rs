//! Text classification: an ordered, first-match-wins cascade over the
//! trimmed input.
//!
//! Credential-shaped text is recognised first (`Secure`), then URLs, then
//! numeric-shaped text; everything else is plain `Text`. The patterns are
//! ASCII and matched over UTF-8 bytes; rule order is part of the contract,
//! so a secret that also looks like a number or URL still classifies as
//! `Secure`.

use vstd::prelude::*;
use vstd::string::StringSliceAdditionalSpecFns;

use crate::bytescan::{
    contains_lit, contains_lit_exec, exact_lit_at, is_alnum, is_alpha, is_digit, is_word_byte,
    is_ws, is_ws_byte, lit_at, lit_at_exec, lower, lower_byte, trim, trim_exec,
};
use crate::types::{Category, ClipboardData, DataView};

verus! {

// ---------------------------------------------------------------------------
// Key/value detectors: a keyword, optional whitespace, then ':' or '='.
// ---------------------------------------------------------------------------

/// From position `j` on: zero or more whitespace bytes, then ':' or '='.
pub open spec fn kv_sep_at(s: Seq<u8>, j: int) -> bool {
    exists|k: int|
        j <= k < s.len() && (s[k] == 0x3a || s[k] == 0x3d) && (forall|m: int|
            j <= m < k ==> is_ws(s[m]))
}

/// `kw` occurs somewhere in `s`, followed by optional whitespace and a
/// ':' or '=' separator.
pub open spec fn kv_match(s: Seq<u8>, kw: Seq<u8>) -> bool {
    exists|i: int| #[trigger] lit_at(s, i, kw) && kv_sep_at(s, i + kw.len())
}

fn kv_sep_exec(s: &Vec<u8>, j: usize) -> (r: bool)
    requires
        j <= s@.len(),
    ensures
        r == kv_sep_at(s@, j as int),
{
    let mut k: usize = j;
    while k < s.len() && is_ws_byte(s[k])
        invariant
            j <= k <= s.len(),
            forall|m: int| j <= m < k ==> is_ws(s@[m]),
        decreases s.len() - k,
    {
        k += 1;
    }
    if k < s.len() && (s[k] == 0x3a || s[k] == 0x3d) {
        assert(kv_sep_at(s@, j as int));
        true
    } else {
        assert forall|kk: int| !(j <= kk < s@.len() && (s@[kk] == 0x3a || s@[kk] == 0x3d)
            && (forall|m: int| j <= m < kk ==> is_ws(s@[m]))) by {
            if j <= kk < s@.len() && (s@[kk] == 0x3a || s@[kk] == 0x3d) && (forall|m: int|
                j <= m < kk ==> is_ws(s@[m])) {
                if kk < k {
                    assert(is_ws(s@[kk]));
                } else {
                    if k < s@.len() {
                        assert(is_ws(s@[k as int]));
                    }
                }
            }
        }
        false
    }
}

fn kv_match_exec(s: &Vec<u8>, kw: &str) -> (r: bool)
    ensures
        r == kv_match(s@, kw.spec_bytes()),
{
    let n = kw.as_bytes().len();
    if n > s.len() {
        assert forall|i: int| !(#[trigger] lit_at(s@, i, kw.spec_bytes()) && kv_sep_at(
            s@,
            i + kw.spec_bytes().len(),
        )) by {}
        return false;
    }
    let slen: usize = s.len();
    let limit = slen - n;
    let mut i: usize = 0;
    loop
        invariant
            n == kw.spec_bytes().len(),
            n <= slen,
            slen == s@.len(),
            limit == slen - n,
            i <= limit,
            forall|j: int|
                0 <= j < i ==> !(#[trigger] lit_at(s@, j, kw.spec_bytes()) && kv_sep_at(
                    s@,
                    j + kw.spec_bytes().len(),
                )),
        decreases limit - i,
    {
        assert(i + n <= s@.len());
        if lit_at_exec(s, i, kw) && kv_sep_exec(s, i + n) {
            assert(kv_match(s@, kw.spec_bytes()));
            return true;
        }
        if i == limit {
            assert forall|j: int| !(#[trigger] lit_at(s@, j, kw.spec_bytes()) && kv_sep_at(
                s@,
                j + kw.spec_bytes().len(),
            )) by {
                if lit_at(s@, j, kw.spec_bytes()) {
                    assert(0 <= j && j + n <= s@.len());
                }
            }
            return false;
        }
        i += 1;
    }
}

// ---------------------------------------------------------------------------
// Bare keyword detectors: the keyword as a whole word (word boundaries on
// both sides; a word byte is a letter, digit or underscore).
// ---------------------------------------------------------------------------

/// `kw` occurs at `i` with a word boundary on each side.
pub open spec fn word_at(s: Seq<u8>, i: int, kw: Seq<u8>) -> bool {
    lit_at(s, i, kw) && (i == 0 || !is_word_byte(s[i - 1])) && (i + kw.len() == s.len()
        || !is_word_byte(s[i + kw.len()]))
}

/// `kw` occurs somewhere in `s` as a whole word.
pub open spec fn word_match(s: Seq<u8>, kw: Seq<u8>) -> bool {
    exists|i: int| word_at(s, i, kw)
}

fn word_match_exec(s: &Vec<u8>, kw: &str) -> (r: bool)
    ensures
        r == word_match(s@, kw.spec_bytes()),
{
    let n = kw.as_bytes().len();
    let slen: usize = s.len();
    if n > slen {
        assert forall|i: int| !word_at(s@, i, kw.spec_bytes()) by {}
        return false;
    }
    let limit = slen - n;
    let mut i: usize = 0;
    loop
        invariant
            n == kw.spec_bytes().len(),
            n <= slen,
            slen == s@.len(),
            limit == slen - n,
            i <= limit,
            forall|j: int| 0 <= j < i ==> !word_at(s@, j, kw.spec_bytes()),
        decreases limit - i,
    {
        if lit_at_exec(s, i, kw) && (i == 0 || !is_word_byte_exec(s[i - 1])) && (i + n == slen
            || !is_word_byte_exec(s[i + n])) {
            assert(word_at(s@, i as int, kw.spec_bytes()));
            return true;
        }
        if i == limit {
            assert forall|j: int| !word_at(s@, j, kw.spec_bytes()) by {
                if word_at(s@, j, kw.spec_bytes()) {
                    assert(lit_at(s@, j, kw.spec_bytes()));
                    assert(0 <= j && j + n <= s@.len());
                }
            }
            return false;
        }
        i += 1;
    }
}

fn is_word_byte_exec(b: u8) -> (r: bool)
    ensures
        r == is_word_byte(b),
{
    (0x30 <= b && b <= 0x39) || (0x41 <= b && b <= 0x5a) || (0x61 <= b && b <= 0x7a) || b == 0x5f
}

fn is_alnum_exec(b: u8) -> (r: bool)
    ensures
        r == is_alnum(b),
{
    (0x30 <= b && b <= 0x39) || (0x41 <= b && b <= 0x5a) || (0x61 <= b && b <= 0x7a)
}

// ---------------------------------------------------------------------------
// Key-shaped whole strings: a short known prefix, '_' or '-', then at least
// sixteen letters or digits running to the end.
// ---------------------------------------------------------------------------

/// The whole of `s` is `p`, a '_' or '-', then 16 or more alphanumerics.
pub open spec fn keyprefix_match(s: Seq<u8>, p: Seq<u8>) -> bool {
    lit_at(s, 0, p) && p.len() + 17 <= s.len() && (s[p.len() as int] == 0x5f || s[p.len() as int]
        == 0x2d) && (forall|k: int| p.len() + 1 <= k < s.len() ==> is_alnum(s[k]))
}

fn keyprefix_match_exec(s: &Vec<u8>, p: &str) -> (r: bool)
    ensures
        r == keyprefix_match(s@, p.spec_bytes()),
{
    let n = p.as_bytes().len();
    let slen: usize = s.len();
    if slen < 17 || n > slen - 17 {
        return false;
    }
    if !lit_at_exec(s, 0, p) {
        return false;
    }
    if !(s[n] == 0x5f || s[n] == 0x2d) {
        return false;
    }
    let mut k: usize = n + 1;
    while k < slen
        invariant
            n + 1 <= k <= slen,
            n == p.spec_bytes().len(),
            slen == s@.len(),
            forall|m: int| n + 1 <= m < k ==> is_alnum(s@[m]),
        decreases slen - k,
    {
        if !is_alnum_exec(s[k]) {
            return false;
        }
        k += 1;
    }
    true
}

// ---------------------------------------------------------------------------
// Opaque blobs: long base64-shaped or long lower-case-hex-shaped strings.
// ---------------------------------------------------------------------------

/// A standard base64 alphabet byte (excluding padding).
pub open spec fn is_b64_byte(b: u8) -> bool {
    is_alnum(b) || b == 0x2b || b == 0x2f
}

/// `s` splits at `s.len() - e` into 40 or more base64 bytes and an
/// all-'=' tail of length `e`, at most two.
pub open spec fn b64_split_at(s: Seq<u8>, e: int) -> bool {
    0 <= e <= 2 && e <= s.len() && s.len() - e >= 40 && (forall|k: int|
        0 <= k < s.len() - e ==> is_b64_byte(s[k])) && (forall|k: int|
        s.len() - e <= k < s.len() ==> s[k] == 0x3d)
}

/// The whole of `s` is 40 or more base64 bytes followed by up to two '='.
pub open spec fn b64_blob(s: Seq<u8>) -> bool {
    exists|e: int| b64_split_at(s, e)
}

fn is_b64_byte_exec(b: u8) -> (r: bool)
    ensures
        r == is_b64_byte(b),
{
    (0x30 <= b && b <= 0x39) || (0x41 <= b && b <= 0x5a) || (0x61 <= b && b <= 0x7a) || b == 0x2b
        || b == 0x2f
}

/// In any admissible split of `s` into a base64 body and an '=' tail, the
/// tail must start exactly at the first non-base64 byte.
proof fn lemma_b64_split_unique(s: Seq<u8>, f: int, e2: int)
    requires
        0 <= f <= s.len(),
        forall|m: int| 0 <= m < f ==> is_b64_byte(s[m]),
        f < s.len() ==> !is_b64_byte(s[f]),
        0 <= e2 <= s.len(),
        forall|k: int| 0 <= k < s.len() - e2 ==> is_b64_byte(s[k]),
        forall|k: int| s.len() - e2 <= k < s.len() ==> s[k] == 0x3d,
    ensures
        e2 == s.len() - f,
{
    if s.len() - e2 > f {
        assert(is_b64_byte(s[f]));
    }
    if s.len() - e2 < f {
        assert(s[s.len() - e2] == 0x3d);
        assert(is_b64_byte(s[s.len() - e2]));
    }
}

fn b64_blob_exec(s: &Vec<u8>) -> (r: bool)
    ensures
        r == b64_blob(s@),
{
    let slen: usize = s.len();
    // first index holding a byte outside the base64 alphabet
    let mut f: usize = 0;
    while f < slen && is_b64_byte_exec(s[f])
        invariant
            f <= slen,
            slen == s@.len(),
            forall|m: int| 0 <= m < f ==> is_b64_byte(s@[m]),
        decreases slen - f,
    {
        f += 1;
    }
    if f < 40 || slen - f > 2 {
        assert forall|e2: int| !b64_split_at(s@, e2) by {
            if b64_split_at(s@, e2) {
                lemma_b64_split_unique(s@, f as int, e2);
            }
        }
        return false;
    }
    // the only admissible tail starts at f; check it is all '='
    let mut k: usize = f;
    while k < slen
        invariant
            f <= k <= slen,
            slen == s@.len(),
            40 <= f,
            slen - f <= 2,
            forall|m: int| 0 <= m < f ==> is_b64_byte(s@[m]),
            f < slen ==> !is_b64_byte(s@[f as int]),
            forall|m: int| f <= m < k ==> s@[m] == 0x3d,
        decreases slen - k,
    {
        if s[k] != 0x3d {
            assert forall|e2: int| !b64_split_at(s@, e2) by {
                if b64_split_at(s@, e2) {
                    lemma_b64_split_unique(s@, f as int, e2);
                    assert(s@[k as int] == 0x3d);
                }
            }
            return false;
        }
        k += 1;
    }
    assert(b64_split_at(s@, s@.len() - f));
    true
}

/// A lower-case hex byte.
pub open spec fn is_lhex_byte(b: u8) -> bool {
    is_digit(b) || (0x61 <= b <= 0x66)
}

/// The whole of `s` is 32 or more lower-case hex bytes.
pub open spec fn lhex_blob(s: Seq<u8>) -> bool {
    s.len() >= 32 && (forall|k: int| 0 <= k < s.len() ==> is_lhex_byte(s[k]))
}

fn lhex_blob_exec(s: &Vec<u8>) -> (r: bool)
    ensures
        r == lhex_blob(s@),
{
    let slen: usize = s.len();
    if slen < 32 {
        return false;
    }
    let mut k: usize = 0;
    while k < slen
        invariant
            k <= slen,
            slen == s@.len(),
            forall|m: int| 0 <= m < k ==> is_lhex_byte(s@[m]),
        decreases slen - k,
    {
        let b = s[k];
        if !((0x30 <= b && b <= 0x39) || (0x61 <= b && b <= 0x66)) {
            return false;
        }
        k += 1;
    }
    true
}

// ---------------------------------------------------------------------------
// Provider-branded credentials: a cloud provider's name, an optional '_' or
// '-', then "secret", "key", "token" or "api".
// ---------------------------------------------------------------------------

/// One of the four credential suffixes starts at `j`.
pub open spec fn cred_suffix_at(s: Seq<u8>, j: int) -> bool {
    lit_at(s, j, "secret".spec_bytes()) || lit_at(s, j, "key".spec_bytes()) || lit_at(
        s,
        j,
        "token".spec_bytes(),
    ) || lit_at(s, j, "api".spec_bytes())
}

/// Provider name `p` at `i`, then an optional single '_' or '-', then a
/// credential suffix.
pub open spec fn provider_at(s: Seq<u8>, i: int, p: Seq<u8>) -> bool {
    lit_at(s, i, p) && (cred_suffix_at(s, i + p.len()) || (i + p.len() < s.len() && (s[i + p.len()]
        == 0x5f || s[i + p.len()] == 0x2d) && cred_suffix_at(s, i + p.len() + 1)))
}

/// `p` occurs somewhere in `s` followed by an optional separator and a
/// credential suffix.
pub open spec fn provider_match(s: Seq<u8>, p: Seq<u8>) -> bool {
    exists|i: int| provider_at(s, i, p)
}

fn cred_suffix_exec(s: &Vec<u8>, j: usize) -> (r: bool)
    ensures
        r == cred_suffix_at(s@, j as int),
{
    lit_at_exec(s, j, "secret") || lit_at_exec(s, j, "key") || lit_at_exec(s, j, "token")
        || lit_at_exec(s, j, "api")
}

fn provider_match_exec(s: &Vec<u8>, p: &str) -> (r: bool)
    ensures
        r == provider_match(s@, p.spec_bytes()),
{
    let n = p.as_bytes().len();
    let slen: usize = s.len();
    if n > slen {
        assert forall|i: int| !provider_at(s@, i, p.spec_bytes()) by {}
        return false;
    }
    let limit = slen - n;
    let mut i: usize = 0;
    loop
        invariant
            n == p.spec_bytes().len(),
            n <= slen,
            slen == s@.len(),
            limit == slen - n,
            i <= limit,
            forall|j: int| 0 <= j < i ==> !provider_at(s@, j, p.spec_bytes()),
        decreases limit - i,
    {
        if lit_at_exec(s, i, p) {
            let j = i + n;
            if cred_suffix_exec(s, j) {
                assert(provider_at(s@, i as int, p.spec_bytes()));
                return true;
            }
            if j < slen && (s[j] == 0x5f || s[j] == 0x2d) && cred_suffix_exec(s, j + 1) {
                assert(provider_at(s@, i as int, p.spec_bytes()));
                return true;
            }
            assert(!provider_at(s@, i as int, p.spec_bytes()));
        }
        if i == limit {
            assert forall|j: int| !provider_at(s@, j, p.spec_bytes()) by {
                if provider_at(s@, j, p.spec_bytes()) {
                    assert(lit_at(s@, j, p.spec_bytes()));
                    assert(0 <= j && j + n <= s@.len());
                }
            }
            return false;
        }
        i += 1;
    }
}

// ---------------------------------------------------------------------------
// Environment declarations: an optional "export" and whitespace, then a
// sensitive variable-name prefix, more name bytes, then '='.
// ---------------------------------------------------------------------------

/// A byte that may appear in an environment variable name here: a letter
/// or underscore.
pub open spec fn is_env_byte(b: u8) -> bool {
    is_alpha(b) || b == 0x5f
}

/// From `m` on: one or more name bytes, then '='.
pub open spec fn env_tail(s: Seq<u8>, m: int) -> bool {
    exists|k: int|
        m < k < s.len() && s[k] == 0x3d && (forall|q: int| m <= q < k ==> is_env_byte(s[q]))
}

/// Sensitive prefix `p` at `j`, then name bytes and '='.
pub open spec fn env_from(s: Seq<u8>, j: int, p: Seq<u8>) -> bool {
    lit_at(s, j, p) && env_tail(s, j + p.len())
}

fn env_tail_exec(s: &Vec<u8>, m: usize) -> (r: bool)
    requires
        m <= s@.len(),
    ensures
        r == env_tail(s@, m as int),
{
    let slen: usize = s.len();
    let mut k: usize = m;
    while k < slen && (is_alpha_exec(s[k]) || s[k] == 0x5f)
        invariant
            m <= k <= slen,
            slen == s@.len(),
            forall|q: int| m <= q < k ==> is_env_byte(s@[q]),
        decreases slen - k,
    {
        k += 1;
    }
    if k > m && k < slen && s[k] == 0x3d {
        assert(env_tail(s@, m as int));
        true
    } else {
        assert forall|kk: int|
            !(m < kk < s@.len() && s@[kk] == 0x3d && (forall|q: int|
                m <= q < kk ==> is_env_byte(s@[q]))) by {
            if m < kk < s@.len() && s@[kk] == 0x3d && (forall|q: int|
                m <= q < kk ==> is_env_byte(s@[q])) {
                if kk < k {
                    assert(is_env_byte(s@[kk]));
                } else {
                    if k < s@.len() && kk > k {
                        assert(is_env_byte(s@[k as int]));
                    }
                }
            }
        }
        false
    }
}

fn is_alpha_exec(b: u8) -> (r: bool)
    ensures
        r == is_alpha(b),
{
    (0x41 <= b && b <= 0x5a) || (0x61 <= b && b <= 0x7a)
}

fn env_from_exec(s: &Vec<u8>, j: usize, p: &str) -> (r: bool)
    ensures
        r == env_from(s@, j as int, p.spec_bytes()),
{
    if !lit_at_exec(s, j, p) {
        return false;
    }
    let n = p.as_bytes().len();
    let slen: usize = s.len();
    assert(j + n <= slen);
    env_tail_exec(s, j + n)
}

// ---------------------------------------------------------------------------
// PEM key markers: "-----BEGIN", whitespace, an optional "RSA" and more
// whitespace, then "PRIVATE", "ENCRYPTED" or "OPENSSH".
// ---------------------------------------------------------------------------

/// One of the three PEM marker words starts at `k`.
pub open spec fn pem_word_at(s: Seq<u8>, k: int) -> bool {
    lit_at(s, k, "private".spec_bytes()) || lit_at(s, k, "encrypted".spec_bytes()) || lit_at(
        s,
        k,
        "openssh".spec_bytes(),
    )
}

/// The run `[j, k)` is non-empty and all whitespace.
pub open spec fn ws_run(s: Seq<u8>, j: int, k: int) -> bool {
    j < k && (forall|m: int| j <= m < k ==> is_ws(s[m]))
}

/// The literal bytes of "rsa".
pub open spec fn rsa_bytes() -> Seq<u8> {
    seq![0x72u8, 0x73u8, 0x61u8]
}

/// From `k` on: "rsa", whitespace, then a marker word.
pub open spec fn pem_rsa_at(s: Seq<u8>, k: int) -> bool {
    lit_at(s, k, rsa_bytes()) && (exists|k2: int| #[trigger] ws_run(s, k + 3, k2)
        && pem_word_at(s, k2))
}

/// From `j` on: whitespace, then the marker word, optionally preceded by
/// "rsa" and more whitespace.
pub open spec fn pem_tail(s: Seq<u8>, j: int) -> bool {
    exists|k: int| #[trigger] ws_run(s, j, k) && (pem_word_at(s, k) || pem_rsa_at(s, k))
}

/// A PEM key header occurs somewhere in `s`.
pub open spec fn pem_match(s: Seq<u8>) -> bool {
    exists|i: int| #[trigger] lit_at(s, i, "-----begin".spec_bytes()) && pem_tail(
        s,
        i + "-----begin".spec_bytes().len(),
    )
}

fn pem_word_exec(s: &Vec<u8>, k: usize) -> (r: bool)
    ensures
        r == pem_word_at(s@, k as int),
{
    lit_at_exec(s, k, "private") || lit_at_exec(s, k, "encrypted") || lit_at_exec(s, k, "openssh")
}

fn pem_rsa_words_exec(s: &Vec<u8>, k: usize) -> (r: bool)
    requires
        k <= s@.len(),
    ensures
        r == pem_rsa_at(s@, k as int),
{
    let slen: usize = s.len();
    if !(k <= slen && slen - k >= 3 && lower_byte(s[k]) == 0x72 && lower_byte(s[k + 1]) == 0x73
        && lower_byte(s[k + 2]) == 0x61) {
        assert(!lit_at(s@, k as int, rsa_bytes()));
        return false;
    }
    assert(lit_at(s@, k as int, rsa_bytes())) by {
        assert(forall|kk: int|
            0 <= kk < 3 ==> lower(s@[k + kk]) == rsa_bytes()[kk]);
    }
    if k + 3 == slen {
        assert forall|c: int| !(#[trigger] ws_run(s@, k + 3, c) && pem_word_at(s@, c)) by {
            if ws_run(s@, k + 3, c) && pem_word_at(s@, c) {
                assert(c + 7 <= s@.len());
            }
        }
        return false;
    }
    let mut k2: usize = k + 4;
    loop
        invariant
            k + 4 <= k2 <= slen,
            slen == s@.len(),
            lit_at(s@, k as int, rsa_bytes()),
            forall|m: int| k + 3 <= m < k2 - 1 ==> is_ws(s@[m]),
            forall|c: int| c < k2 ==> !(#[trigger] ws_run(s@, k + 3, c) && pem_word_at(s@, c)),
        decreases slen - k2,
    {
        if !is_ws_byte(s[k2 - 1]) {
            assert forall|c: int| !(#[trigger] ws_run(s@, k + 3, c) && pem_word_at(s@, c)) by {
                if ws_run(s@, k + 3, c) && pem_word_at(s@, c) {
                    if c >= k2 {
                        assert(is_ws(s@[k2 - 1]));
                    }
                }
            }
            return false;
        }
        if pem_word_exec(s, k2) {
            assert(ws_run(s@, k + 3, k2 as int));
            return true;
        }
        if k2 == slen {
            assert forall|c: int| !(#[trigger] ws_run(s@, k + 3, c) && pem_word_at(s@, c)) by {
                if ws_run(s@, k + 3, c) && pem_word_at(s@, c) {
                    assert(c + 7 <= s@.len());
                }
            }
            return false;
        }
        k2 += 1;
    }
}

fn pem_tail_exec(s: &Vec<u8>, j: usize) -> (r: bool)
    requires
        j <= s@.len(),
    ensures
        r == pem_tail(s@, j as int),
{
    let slen: usize = s.len();
    if j == slen {
        assert forall|c: int|
            !(#[trigger] ws_run(s@, j as int, c) && (pem_word_at(s@, c) || pem_rsa_at(s@, c))) by {
            if ws_run(s@, j as int, c) && (pem_word_at(s@, c) || pem_rsa_at(s@, c)) {
                assert(c + 3 <= s@.len());
            }
        }
        return false;
    }
    let mut k: usize = j + 1;
    loop
        invariant
            j + 1 <= k <= slen,
            j < slen,
            slen == s@.len(),
            forall|m: int| j <= m < k - 1 ==> is_ws(s@[m]),
            forall|c: int|
                c < k ==> !(#[trigger] ws_run(s@, j as int, c) && (pem_word_at(s@, c)
                    || pem_rsa_at(s@, c))),
        decreases slen - k,
    {
        if !is_ws_byte(s[k - 1]) {
            assert forall|c: int|
                !(#[trigger] ws_run(s@, j as int, c) && (pem_word_at(s@, c) || pem_rsa_at(
                    s@,
                    c,
                ))) by {
                if ws_run(s@, j as int, c) && (pem_word_at(s@, c) || pem_rsa_at(s@, c)) {
                    if c >= k {
                        assert(is_ws(s@[k - 1]));
                    }
                }
            }
            return false;
        }
        if pem_word_exec(s, k) || pem_rsa_words_exec(s, k) {
            assert(ws_run(s@, j as int, k as int));
            return true;
        }
        if k == slen {
            assert forall|c: int|
                !(#[trigger] ws_run(s@, j as int, c) && (pem_word_at(s@, c) || pem_rsa_at(
                    s@,
                    c,
                ))) by {
                if ws_run(s@, j as int, c) && (pem_word_at(s@, c) || pem_rsa_at(s@, c)) {
                    assert(c + 3 <= s@.len());
                }
            }
            return false;
        }
        k += 1;
    }
}

fn pem_match_exec(s: &Vec<u8>) -> (r: bool)
    ensures
        r == pem_match(s@),
{
    let head = "-----begin";
    let n = head.as_bytes().len();
    let slen: usize = s.len();
    if n > slen {
        assert forall|i: int| !(#[trigger] lit_at(s@, i, "-----begin".spec_bytes()) && pem_tail(
            s@,
            i + "-----begin".spec_bytes().len(),
        )) by {}
        return false;
    }
    let limit = slen - n;
    let mut i: usize = 0;
    loop
        invariant
            n == "-----begin".spec_bytes().len(),
            n <= slen,
            slen == s@.len(),
            limit == slen - n,
            i <= limit,
            forall|j: int|
                0 <= j < i ==> !(#[trigger] lit_at(s@, j, "-----begin".spec_bytes()) && pem_tail(
                    s@,
                    j + "-----begin".spec_bytes().len(),
                )),
        decreases limit - i,
    {
        assert(i + n <= slen);
        if lit_at_exec(s, i, "-----begin") && pem_tail_exec(s, i + n) {
            assert(pem_match(s@));
            return true;
        }
        if i == limit {
            assert forall|j: int|
                !(#[trigger] lit_at(s@, j, "-----begin".spec_bytes()) && pem_tail(
                    s@,
                    j + "-----begin".spec_bytes().len(),
                )) by {
                if lit_at(s@, j, "-----begin".spec_bytes()) {
                    assert(0 <= j && j + n <= s@.len());
                }
            }
            return false;
        }
        i += 1;
    }
}

// ---------------------------------------------------------------------------
// JWT-shaped strings: three dot-separated URL-safe base64 segments, the
// first two opening with the literal bytes "eyJ".
// ---------------------------------------------------------------------------

/// A URL-safe base64 byte.
pub open spec fn is_urlsafe(b: u8) -> bool {
    is_alnum(b) || b == 0x5f || b == 0x2d
}

/// The literal bytes of "eyJ".
pub open spec fn eyj_bytes() -> Seq<u8> {
    seq![0x65u8, 0x79u8, 0x4au8]
}

/// `s` is a JWT shape with its two dots at `d1` and `d2`.
pub open spec fn jwt_parts(s: Seq<u8>, d1: int, d2: int) -> bool {
    4 <= d1 && d1 + 5 <= d2 && d2 + 2 <= s.len() && s[d1] == 0x2e && s[d2] == 0x2e
        && exact_lit_at(s, 0, eyj_bytes()) && (forall|k: int| 3 <= k < d1 ==> is_urlsafe(s[k]))
        && exact_lit_at(s, d1 + 1, eyj_bytes()) && (forall|k: int|
        d1 + 4 <= k < d2 ==> is_urlsafe(s[k])) && (forall|k: int|
        d2 + 1 <= k < s.len() ==> is_urlsafe(s[k]))
}

/// The whole of `s` has the shape of a JSON Web Token.
pub open spec fn jwt_match(s: Seq<u8>) -> bool {
    exists|d1: int, d2: int| jwt_parts(s, d1, d2)
}

/// In a JWT shape, the only dots are the two separators.
proof fn lemma_jwt_dots(s: Seq<u8>, d1: int, d2: int, p: int)
    requires
        jwt_parts(s, d1, d2),
        0 <= p < s.len(),
        s[p] == 0x2e,
    ensures
        p == d1 || p == d2,
{
    if p == d1 || p == d2 {
    } else if p < 3 {
        assert(s[p] == eyj_bytes()[p]);
    } else if p < d1 {
        assert(is_urlsafe(s[p]));
    } else if p < d1 + 4 {
        assert(s[p] == eyj_bytes()[p - d1 - 1]);
    } else if p < d2 {
        assert(is_urlsafe(s[p]));
    } else {
        assert(is_urlsafe(s[p]));
    }
}

fn find_byte(s: &Vec<u8>, from: usize, b: u8) -> (r: Option<usize>)
    requires
        from <= s@.len(),
    ensures
        match r {
            Some(k) => from <= k < s@.len() && s@[k as int] == b && (forall|m: int|
                from <= m < k ==> s@[m] != b),
            None => forall|m: int| from <= m < s@.len() ==> s@[m] != b,
        },
{
    let slen: usize = s.len();
    let mut k: usize = from;
    while k < slen
        invariant
            from <= k <= slen,
            slen == s@.len(),
            forall|m: int| from <= m < k ==> s@[m] != b,
        decreases slen - k,
    {
        if s[k] == b {
            return Some(k);
        }
        k += 1;
    }
    None
}

fn jwt_match_exec(s: &Vec<u8>) -> (r: bool)
    ensures
        r == jwt_match(s@),
{
    let slen: usize = s.len();
    let d1 = match find_byte(s, 0, 0x2e) {
        Some(d) => d,
        None => {
            assert forall|d1: int, d2: int| !jwt_parts(s@, d1, d2) by {
                if jwt_parts(s@, d1, d2) {
                    assert(s@[d1] == 0x2e);
                }
            }
            return false;
        },
    };
    let d2 = match find_byte(s, d1 + 1, 0x2e) {
        Some(d) => d,
        None => {
            assert forall|e1: int, e2: int| !jwt_parts(s@, e1, e2) by {
                if jwt_parts(s@, e1, e2) {
                    lemma_jwt_dots(s@, e1, e2, d1 as int);
                    assert(s@[e2] == 0x2e);
                }
            }
            return false;
        },
    };
    match find_byte(s, d2 + 1, 0x2e) {
        Some(d3) => {
            assert forall|e1: int, e2: int| !jwt_parts(s@, e1, e2) by {
                if jwt_parts(s@, e1, e2) {
                    lemma_jwt_dots(s@, e1, e2, d1 as int);
                    lemma_jwt_dots(s@, e1, e2, d2 as int);
                    lemma_jwt_dots(s@, e1, e2, d3 as int);
                }
            }
            return false;
        },
        None => {},
    }
    // the dots of `s` are exactly {d1, d2}; check the three segments
    let ok = d1 >= 4 && d2 - d1 >= 5 && slen - d2 >= 2 && s[0] == 0x65 && s[1] == 0x79 && s[2]
        == 0x4a && s[d1 + 1] == 0x65 && s[d1 + 2] == 0x79 && s[d1 + 3] == 0x4a && range_urlsafe(
        s,
        3,
        d1,
    ) && range_urlsafe(s, d1 + 4, d2) && range_urlsafe(s, d2 + 1, slen);
    if ok {
        assert(exact_lit_at(s@, 0, eyj_bytes())) by {
            assert(s@[0] == eyj_bytes()[0] && s@[1] == eyj_bytes()[1] && s@[2] == eyj_bytes()[2]);
        }
        assert(exact_lit_at(s@, d1 + 1, eyj_bytes())) by {
            assert(s@[d1 + 1] == eyj_bytes()[0] && s@[d1 + 2] == eyj_bytes()[1] && s@[d1 + 3]
                == eyj_bytes()[2]);
        }
        assert(jwt_parts(s@, d1 as int, d2 as int));
        true
    } else {
        assert forall|e1: int, e2: int| !jwt_parts(s@, e1, e2) by {
            if jwt_parts(s@, e1, e2) {
                lemma_jwt_dots(s@, e1, e2, d1 as int);
                lemma_jwt_dots(s@, e1, e2, d2 as int);
                assert(e1 == d1 && e2 == d2);
                assert(s@[0] == eyj_bytes()[0] && s@[1] == eyj_bytes()[1] && s@[2]
                    == eyj_bytes()[2]);
                assert(s@[e1 + 1] == eyj_bytes()[0] && s@[e1 + 2] == eyj_bytes()[1] && s@[e1 + 3]
                    == eyj_bytes()[2]);
            }
        }
        false
    }
}

/// All bytes in `[from, to)` are URL-safe.
fn range_urlsafe(s: &Vec<u8>, from: usize, to: usize) -> (r: bool)
    requires
        from <= s@.len(),
        to <= s@.len(),
    ensures
        r == (forall|k: int| from <= k < to ==> is_urlsafe(s@[k])),
{
    let mut k: usize = from;
    while k < to
        invariant
            from <= k,
            to <= s@.len(),
            k <= to || k == from,
            forall|m: int| from <= m < k ==> is_urlsafe(s@[m]),
        decreases to - k,
    {
        let b = s[k];
        if !((0x30 <= b && b <= 0x39) || (0x41 <= b && b <= 0x5a) || (0x61 <= b && b <= 0x7a) || b
            == 0x5f || b == 0x2d) {
            return false;
        }
        k += 1;
    }
    true
}

// ---------------------------------------------------------------------------
// Putting the secure detectors together.
// ---------------------------------------------------------------------------

/// Any of the sensitive-prefix declarations starts at `j`.
pub open spec fn env_any_from(s: Seq<u8>, j: int) -> bool {
    env_from(s, j, "db_".spec_bytes()) || env_from(s, j, "database_".spec_bytes()) || env_from(
        s,
        j,
        "mongo_".spec_bytes(),
    ) || env_from(s, j, "redis_".spec_bytes()) || env_from(s, j, "aws_".spec_bytes()) || env_from(
        s,
        j,
        "azure_".spec_bytes(),
    ) || env_from(s, j, "gcp_".spec_bytes()) || env_from(s, j, "api_".spec_bytes()) || env_from(
        s,
        j,
        "secret_".spec_bytes(),
    ) || env_from(s, j, "token_".spec_bytes()) || env_from(s, j, "auth_".spec_bytes())
        || env_from(s, j, "private_".spec_bytes())
}

/// The whole of `s` is a sensitive environment declaration, optionally
/// opened by "export" and whitespace.
pub open spec fn env_match(s: Seq<u8>) -> bool {
    env_any_from(s, 0) || (lit_at(s, 0, "export".spec_bytes()) && (exists|j: int|
        #[trigger] ws_run(s, "export".spec_bytes().len() as int, j) && env_any_from(s, j)))
}

fn env_any_from_exec(s: &Vec<u8>, j: usize) -> (r: bool)
    ensures
        r == env_any_from(s@, j as int),
{
    env_from_exec(s, j, "db_") || env_from_exec(s, j, "database_") || env_from_exec(s, j, "mongo_")
        || env_from_exec(s, j, "redis_") || env_from_exec(s, j, "aws_") || env_from_exec(
        s,
        j,
        "azure_",
    ) || env_from_exec(s, j, "gcp_") || env_from_exec(s, j, "api_") || env_from_exec(
        s,
        j,
        "secret_",
    ) || env_from_exec(s, j, "token_") || env_from_exec(s, j, "auth_") || env_from_exec(
        s,
        j,
        "private_",
    )
}

fn env_match_exec(s: &Vec<u8>) -> (r: bool)
    ensures
        r == env_match(s@),
{
    if env_any_from_exec(s, 0) {
        return true;
    }
    if !lit_at_exec(s, 0, "export") {
        return false;
    }
    let n = "export".as_bytes().len();
    let slen: usize = s.len();
    assert(n <= slen);
    if n == slen {
        assert forall|c: int|
            !(#[trigger] ws_run(s@, "export".spec_bytes().len() as int, c) && env_any_from(
                s@,
                c,
            )) by {}
        return false;
    }
    let mut j: usize = n + 1;
    loop
        invariant
            n + 1 <= j <= slen,
            n < slen,
            n == "export".spec_bytes().len(),
            lit_at(s@, 0, "export".spec_bytes()),
            !env_any_from(s@, 0),
            slen == s@.len(),
            forall|m: int| n <= m < j - 1 ==> is_ws(s@[m]),
            forall|c: int|
                c < j ==> !(#[trigger] ws_run(s@, n as int, c) && env_any_from(s@, c)),
        decreases slen - j,
    {
        if !is_ws_byte(s[j - 1]) {
            assert forall|c: int| !(#[trigger] ws_run(s@, n as int, c) && env_any_from(s@, c)) by {
                if ws_run(s@, n as int, c) && env_any_from(s@, c) {
                    if c >= j {
                        assert(is_ws(s@[j - 1]));
                    }
                }
            }
            return false;
        }
        if env_any_from_exec(s, j) {
            assert(ws_run(s@, n as int, j as int));
            return true;
        }
        if j == slen {
            assert forall|c: int| !(#[trigger] ws_run(s@, n as int, c) && env_any_from(s@, c)) by {
                if ws_run(s@, n as int, c) && env_any_from(s@, c) {
                    assert(c <= s@.len());
                }
            }
            return false;
        }
        j += 1;
    }
}

/// The trimmed text matches one of the secure detectors: credential
/// key/value pairs, bare sensitive keywords, key-shaped or opaque blobs,
/// provider-branded credentials, database connection schemes, JWT shapes,
/// PEM key headers, or sensitive environment declarations.
pub open spec fn is_secure(t: Seq<u8>) -> bool {
    ||| kv_match(t, "api_key".spec_bytes())
    ||| kv_match(t, "api-key".spec_bytes())
    ||| kv_match(t, "apikey".spec_bytes())
    ||| kv_match(t, "password".spec_bytes())
    ||| kv_match(t, "passwd".spec_bytes())
    ||| kv_match(t, "pwd".spec_bytes())
    ||| kv_match(t, "secret".spec_bytes())
    ||| kv_match(t, "token".spec_bytes())
    ||| kv_match(t, "bearer".spec_bytes())
    ||| contains_lit(t, "private_key".spec_bytes())
    ||| contains_lit(t, "private-key".spec_bytes())
    ||| contains_lit(t, "privatekey".spec_bytes())
    ||| kv_match(t, "access_token".spec_bytes())
    ||| kv_match(t, "access-token".spec_bytes())
    ||| kv_match(t, "accesstoken".spec_bytes())
    ||| kv_match(t, "auth_token".spec_bytes())
    ||| kv_match(t, "auth-token".spec_bytes())
    ||| kv_match(t, "authtoken".spec_bytes())
    ||| kv_match(t, "client_secret".spec_bytes())
    ||| kv_match(t, "client-secret".spec_bytes())
    ||| kv_match(t, "clientsecret".spec_bytes())
    ||| kv_match(t, "client_id".spec_bytes())
    ||| kv_match(t, "client-id".spec_bytes())
    ||| kv_match(t, "clientid".spec_bytes())
    ||| kv_match(t, "credentials".spec_bytes())
    ||| kv_match(t, "credential".spec_bytes())
    ||| kv_match(t, "auth".spec_bytes())
    ||| word_match(t, "secret".spec_bytes())
    ||| word_match(t, "secrets".spec_bytes())
    ||| word_match(t, "confidential".spec_bytes())
    ||| word_match(t, "sensitive".spec_bytes())
    ||| keyprefix_match(t, "sk".spec_bytes())
    ||| keyprefix_match(t, "pk".spec_bytes())
    ||| keyprefix_match(t, "api".spec_bytes())
    ||| keyprefix_match(t, "key".spec_bytes())
    ||| keyprefix_match(t, "secret".spec_bytes())
    ||| keyprefix_match(t, "token".spec_bytes())
    ||| b64_blob(t)
    ||| lhex_blob(t)
    ||| provider_match(t, "aws".spec_bytes())
    ||| provider_match(t, "azure".spec_bytes())
    ||| provider_match(t, "gcp".spec_bytes())
    ||| provider_match(t, "github".spec_bytes())
    ||| provider_match(t, "gitlab".spec_bytes())
    ||| provider_match(t, "slack".spec_bytes())
    ||| provider_match(t, "stripe".spec_bytes())
    ||| provider_match(t, "twilio".spec_bytes())
    ||| provider_match(t, "sendgrid".spec_bytes())
    ||| contains_lit(t, "mongodb://".spec_bytes())
    ||| contains_lit(t, "postgres://".spec_bytes())
    ||| contains_lit(t, "mysql://".spec_bytes())
    ||| contains_lit(t, "redis://".spec_bytes())
    ||| contains_lit(t, "mssql://".spec_bytes())
    ||| jwt_match(t)
    ||| pem_match(t)
    ||| env_match(t)
}

fn is_secure_exec(t: &Vec<u8>) -> (r: bool)
    ensures
        r == is_secure(t@),
{
    kv_match_exec(t, "api_key") || kv_match_exec(t, "api-key") || kv_match_exec(t, "apikey")
        || kv_match_exec(t, "password") || kv_match_exec(t, "passwd") || kv_match_exec(t, "pwd")
        || kv_match_exec(t, "secret") || kv_match_exec(t, "token") || kv_match_exec(t, "bearer")
        || contains_lit_exec(t, "private_key") || contains_lit_exec(t, "private-key")
        || contains_lit_exec(t, "privatekey") || kv_match_exec(t, "access_token")
        || kv_match_exec(t, "access-token") || kv_match_exec(t, "accesstoken") || kv_match_exec(
        t,
        "auth_token",
    ) || kv_match_exec(t, "auth-token") || kv_match_exec(t, "authtoken") || kv_match_exec(
        t,
        "client_secret",
    ) || kv_match_exec(t, "client-secret") || kv_match_exec(t, "clientsecret") || kv_match_exec(
        t,
        "client_id",
    ) || kv_match_exec(t, "client-id") || kv_match_exec(t, "clientid") || kv_match_exec(
        t,
        "credentials",
    ) || kv_match_exec(t, "credential") || kv_match_exec(t, "auth") || word_match_exec(t, "secret")
        || word_match_exec(t, "secrets") || word_match_exec(t, "confidential") || word_match_exec(
        t,
        "sensitive",
    ) || keyprefix_match_exec(t, "sk") || keyprefix_match_exec(t, "pk") || keyprefix_match_exec(
        t,
        "api",
    ) || keyprefix_match_exec(t, "key") || keyprefix_match_exec(t, "secret")
        || keyprefix_match_exec(t, "token") || b64_blob_exec(t) || lhex_blob_exec(t)
        || provider_match_exec(t, "aws") || provider_match_exec(t, "azure") || provider_match_exec(
        t,
        "gcp",
    ) || provider_match_exec(t, "github") || provider_match_exec(t, "gitlab")
        || provider_match_exec(t, "slack") || provider_match_exec(t, "stripe")
        || provider_match_exec(t, "twilio") || provider_match_exec(t, "sendgrid")
        || contains_lit_exec(t, "mongodb://") || contains_lit_exec(t, "postgres://")
        || contains_lit_exec(t, "mysql://") || contains_lit_exec(t, "redis://")
        || contains_lit_exec(t, "mssql://") || jwt_match_exec(t) || pem_match_exec(t)
        || env_match_exec(t)
}

// ---------------------------------------------------------------------------
// URL and numeric shapes, and the classification cascade.
// ---------------------------------------------------------------------------

/// The whole of `s` is the scheme prefix `p` followed by at least one byte,
/// with no whitespace after the start.
pub open spec fn url_with(s: Seq<u8>, p: Seq<u8>) -> bool {
    lit_at(s, 0, p) && s.len() > p.len() && (forall|k: int|
        p.len() <= k < s.len() ==> !is_ws(s[k]))
}

/// The whole of `s` is an http or https URL shape.
pub open spec fn is_url_text(s: Seq<u8>) -> bool {
    url_with(s, "http://".spec_bytes()) || url_with(s, "https://".spec_bytes())
}

fn url_with_exec(s: &Vec<u8>, p: &str) -> (r: bool)
    ensures
        r == url_with(s@, p.spec_bytes()),
{
    if !lit_at_exec(s, 0, p) {
        return false;
    }
    let n = p.as_bytes().len();
    let slen: usize = s.len();
    if slen <= n {
        return false;
    }
    let mut k: usize = n;
    while k < slen
        invariant
            n <= k <= slen,
            n == p.spec_bytes().len(),
            slen == s@.len(),
            forall|m: int| n <= m < k ==> !is_ws(s@[m]),
        decreases slen - k,
    {
        if is_ws_byte(s[k]) {
            return false;
        }
        k += 1;
    }
    true
}

/// A byte allowed in numeric-shaped text: a digit, ',', '.', '-', '/' or
/// whitespace.
pub open spec fn is_num_byte(b: u8) -> bool {
    is_digit(b) || b == 0x2c || b == 0x2e || b == 0x2d || b == 0x2f || is_ws(b)
}

/// `s` is non-empty and made only of numeric-shaped bytes.
pub open spec fn is_numeric_text(s: Seq<u8>) -> bool {
    s.len() > 0 && (forall|k: int| 0 <= k < s.len() ==> is_num_byte(s[k]))
}

fn is_numeric_exec(s: &Vec<u8>) -> (r: bool)
    ensures
        r == is_numeric_text(s@),
{
    let slen: usize = s.len();
    if slen == 0 {
        return false;
    }
    let mut k: usize = 0;
    while k < slen
        invariant
            k <= slen,
            slen == s@.len(),
            forall|m: int| 0 <= m < k ==> is_num_byte(s@[m]),
        decreases slen - k,
    {
        let b = s[k];
        if !((0x30 <= b && b <= 0x39) || b == 0x2c || b == 0x2e || b == 0x2d || b == 0x2f
            || is_ws_byte(b)) {
            return false;
        }
        k += 1;
    }
    true
}

/// Category of trimmed-then-classified text: the secure detectors win,
/// then the URL shape, then the numeric shape, else plain text.
pub open spec fn categorize_text_spec(s: Seq<u8>) -> Category {
    let t = trim(s);
    if is_secure(t) {
        Category::Secure
    } else if is_url_text(t) {
        Category::Url
    } else if t.len() > 0 && is_numeric_text(t) {
        Category::Numeric
    } else {
        Category::Text
    }
}

/// Category of a payload: images are always `Image`; text goes through the
/// classification cascade.
pub open spec fn categorize_spec(d: DataView) -> Category {
    match d {
        DataView::Image { .. } => Category::Image,
        DataView::Text { text, .. } => categorize_text_spec(text),
    }
}

/// The pattern-matching classification engine.
pub struct Categorizer;

impl Categorizer {
    /// Classify a payload: images are `Image`, text runs through the
    /// ordered detector cascade on its trimmed bytes.
    pub fn categorize(data: &ClipboardData) -> (r: Category)
        ensures
            r == categorize_spec(data@),
    {
        match data {
            ClipboardData::Image { .. } => Category::Image,
            ClipboardData::Text { text, .. } => Self::categorize_text(text),
        }
    }

    /// Classify text bytes through the ordered cascade.
    pub fn categorize_text(text: &Vec<u8>) -> (r: Category)
        ensures
            r == categorize_text_spec(text@),
    {
        let t = trim_exec(text);
        if is_secure_exec(&t) {
            Category::Secure
        } else if url_with_exec(&t, "http://") || url_with_exec(&t, "https://") {
            Category::Url
        } else if t.len() > 0 && is_numeric_exec(&t) {
            Category::Numeric
        } else {
            Category::Text
        }
    }
}

/// Ordering invariant of the cascade: text whose trimmed bytes match any
/// secure detector classifies as `Secure`, even if it also has the URL or
/// numeric shape.
pub proof fn lemma_secure_wins(s: Seq<u8>)
    requires
        is_secure(trim(s)),
    ensures
        categorize_text_spec(s) == Category::Secure,
{
}

/// Image payloads always classify as `Image`, whatever their pixel data.
pub proof fn lemma_image_always_image(d: DataView)
    requires
        d is Image,
    ensures
        categorize_spec(d) == Category::Image,
{
}

} // verus!
