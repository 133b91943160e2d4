//! Byte-level text scanning primitives.
//!
//! All text in this crate is carried as UTF-8 bytes. The classifier's
//! patterns are ASCII, so matching, case folding and whitespace handling are
//! defined over bytes; non-ASCII bytes never compare equal to ASCII pattern
//! bytes and are never treated as whitespace.

use vstd::prelude::*;
use vstd::string::StringSliceAdditionalSpecFns;

verus! {

/// ASCII whitespace: space, tab, line feed, vertical tab, form feed,
/// carriage return.
pub open spec fn is_ws(b: u8) -> bool {
    b == 0x20 || b == 0x09 || b == 0x0a || b == 0x0b || b == 0x0c || b == 0x0d
}

/// ASCII lower-casing of a single byte; bytes outside 'A'..='Z' are kept.
pub open spec fn lower(b: u8) -> u8 {
    if 0x41 <= b <= 0x5a {
        (b + 0x20) as u8
    } else {
        b
    }
}

pub open spec fn is_digit(b: u8) -> bool {
    0x30 <= b <= 0x39
}

pub open spec fn is_alpha(b: u8) -> bool {
    (0x41 <= b <= 0x5a) || (0x61 <= b <= 0x7a)
}

pub open spec fn is_alnum(b: u8) -> bool {
    is_digit(b) || is_alpha(b)
}

/// A word character in the sense of the classifier's word-boundary rules.
pub open spec fn is_word_byte(b: u8) -> bool {
    is_alnum(b) || b == 0x5f
}

/// The case-folded bytes of `s` at position `i` spell out `lit`
/// (`lit` is given already lower-cased).
pub open spec fn lit_at(s: Seq<u8>, i: int, lit: Seq<u8>) -> bool {
    0 <= i && i + lit.len() <= s.len() && (forall|k: int|
        0 <= k < lit.len() ==> lower(s[i + k]) == lit[k])
}

/// The bytes of `s` at position `i` spell out `lit` exactly (case-sensitive).
pub open spec fn exact_lit_at(s: Seq<u8>, i: int, lit: Seq<u8>) -> bool {
    0 <= i && i + lit.len() <= s.len() && (forall|k: int| 0 <= k < lit.len() ==> s[i + k] == lit[k])
}

/// `lit` occurs somewhere in `s`, case-insensitively.
pub open spec fn contains_lit(s: Seq<u8>, lit: Seq<u8>) -> bool {
    exists|i: int| lit_at(s, i, lit)
}

/// `s` with leading ASCII whitespace removed.
pub open spec fn trim_front(s: Seq<u8>) -> Seq<u8>
    decreases s.len(),
{
    if s.len() > 0 && is_ws(s[0]) {
        trim_front(s.drop_first())
    } else {
        s
    }
}

/// `s` with trailing ASCII whitespace removed.
pub open spec fn trim_back(s: Seq<u8>) -> Seq<u8>
    decreases s.len(),
{
    if s.len() > 0 && is_ws(s.last()) {
        trim_back(s.drop_last())
    } else {
        s
    }
}

/// `s` with leading and trailing ASCII whitespace removed.
pub open spec fn trim(s: Seq<u8>) -> Seq<u8> {
    trim_back(trim_front(s))
}

pub fn lower_byte(b: u8) -> (r: u8)
    ensures
        r == lower(b),
{
    if 0x41 <= b && b <= 0x5a {
        b + 0x20
    } else {
        b
    }
}

pub fn is_ws_byte(b: u8) -> (r: bool)
    ensures
        r == is_ws(b),
{
    b == 0x20 || b == 0x09 || b == 0x0a || b == 0x0b || b == 0x0c || b == 0x0d
}

/// Case-insensitive match of `lit` against `s` starting at `i`.
pub fn lit_at_exec(s: &Vec<u8>, i: usize, lit: &str) -> (r: bool)
    ensures
        r == lit_at(s@, i as int, lit.spec_bytes()),
{
    let lb: &[u8] = lit.as_bytes();
    if i > s.len() || s.len() - i < lb.len() {
        return false;
    }
    let mut k: usize = 0;
    while k < lb.len()
        invariant
            i + lb.len() <= s.len(),
            k <= lb.len(),
            lb@ == lit.spec_bytes(),
            forall|m: int| 0 <= m < k ==> lower(s@[i + m]) == lb@[m],
        decreases lb.len() - k,
    {
        if lower_byte(s[i + k]) != lb[k] {
            assert(!lit_at(s@, i as int, lit.spec_bytes()));
            return false;
        }
        k += 1;
    }
    true
}

/// Case-insensitive substring search.
pub fn contains_lit_exec(s: &Vec<u8>, lit: &str) -> (r: bool)
    ensures
        r == contains_lit(s@, lit.spec_bytes()),
{
    let n = lit.as_bytes().len();
    if n > s.len() {
        assert(forall|i: int| !lit_at(s@, i, lit.spec_bytes()));
        return false;
    }
    let mut i: usize = 0;
    while i <= s.len() - n
        invariant
            n == lit.spec_bytes().len(),
            n <= s.len(),
            forall|j: int| 0 <= j < i ==> !lit_at(s@, j, lit.spec_bytes()),
        decreases s.len() + 1 - n - i,
    {
        if lit_at_exec(s, i, lit) {
            return true;
        }
        i += 1;
    }
    assert forall|j: int| !lit_at(s@, j, lit.spec_bytes()) by {
        if lit_at(s@, j, lit.spec_bytes()) {
            assert(0 <= j < i);
        }
    }
    false
}

/// The whole of `s` spells out `lit`, case-insensitively.
pub open spec fn eq_ci(s: Seq<u8>, lit: Seq<u8>) -> bool {
    s.len() == lit.len() && lit_at(s, 0, lit)
}

pub fn eq_ci_exec(s: &Vec<u8>, lit: &str) -> (r: bool)
    ensures
        r == eq_ci(s@, lit.spec_bytes()),
{
    s.len() == lit.as_bytes().len() && lit_at_exec(s, 0, lit)
}

/// Byte-for-byte copy of `v`.
pub fn copy_bytes(v: &Vec<u8>) -> (r: Vec<u8>)
    ensures
        r@ == v@,
{
    let mut r: Vec<u8> = Vec::new();
    let mut i: usize = 0;
    while i < v.len()
        invariant
            i <= v.len(),
            r@ == v@.subrange(0, i as int),
        decreases v.len() - i,
    {
        r.push(v[i]);
        assert(r@ =~= v@.subrange(0, i + 1));
        i += 1;
    }
    assert(v@.subrange(0, v.len() as int) =~= v@);
    r
}

/// Copy of `v` for an optional byte string.
pub fn copy_opt_bytes(v: &Option<Vec<u8>>) -> (r: Option<Vec<u8>>)
    ensures
        r is Some <==> *v is Some,
        r matches Some(rv) ==> (*v matches Some(vv) && rv@ == vv@),
{
    match v {
        Some(vv) => Some(copy_bytes(vv)),
        None => None,
    }
}

/// Copy of `s` with leading and trailing ASCII whitespace removed.
pub fn trim_exec(s: &Vec<u8>) -> (r: Vec<u8>)
    ensures
        r@ == trim(s@),
{
    let mut a: usize = 0;
    while a < s.len() && is_ws_byte(s[a])
        invariant
            a <= s.len(),
            forall|k: int| 0 <= k < a ==> is_ws(s@[k]),
        decreases s.len() - a,
    {
        a += 1;
    }
    let mut b: usize = s.len();
    while b > a && is_ws_byte(s[b - 1])
        invariant
            a <= b <= s.len(),
            forall|k: int| 0 <= k < a ==> is_ws(s@[k]),
            forall|k: int| b <= k < s.len() ==> is_ws(s@[k]),
        decreases b,
    {
        b -= 1;
    }
    let mut r: Vec<u8> = Vec::new();
    let mut i: usize = a;
    while i < b
        invariant
            a <= i <= b <= s.len(),
            r@ == s@.subrange(a as int, i as int),
        decreases b - i,
    {
        r.push(s[i]);
        assert(r@ =~= s@.subrange(a as int, i + 1));
        i += 1;
    }
    proof {
        lemma_trim_indices(s@, a as int, b as int);
    }
    r
}

/// If everything before `a` and everything from `b` on is whitespace, and
/// the boundary bytes are not, then `trim` is exactly the middle part.
proof fn lemma_trim_front_skip(s: Seq<u8>, a: int)
    requires
        0 <= a <= s.len(),
        forall|k: int| 0 <= k < a ==> is_ws(s[k]),
        a < s.len() ==> !is_ws(s[a]),
    ensures
        trim_front(s) =~= s.subrange(a, s.len() as int),
    decreases a,
{
    if a == 0 {
        if s.len() > 0 && is_ws(s[0]) {
            assert(false);
        }
        assert(s.subrange(0, s.len() as int) =~= s);
    } else {
        assert(is_ws(s[0]));
        lemma_trim_front_skip(s.drop_first(), a - 1);
        assert(s.drop_first().subrange(a - 1, s.drop_first().len() as int) =~= s.subrange(
            a,
            s.len() as int,
        ));
    }
}

proof fn lemma_trim_back_take(s: Seq<u8>, b: int)
    requires
        0 <= b <= s.len(),
        forall|k: int| b <= k < s.len() ==> is_ws(s[k]),
        b > 0 ==> !is_ws(s[b - 1]),
    ensures
        trim_back(s) =~= s.subrange(0, b),
    decreases s.len() - b,
{
    if b == s.len() {
        if s.len() > 0 && is_ws(s.last()) {
            assert(false);
        }
        assert(s.subrange(0, s.len() as int) =~= s);
    } else {
        assert(is_ws(s.last()));
        lemma_trim_back_take(s.drop_last(), b);
        assert(s.drop_last().subrange(0, b) =~= s.subrange(0, b));
    }
}

proof fn lemma_trim_indices(s: Seq<u8>, a: int, b: int)
    requires
        0 <= a <= b <= s.len(),
        forall|k: int| 0 <= k < a ==> is_ws(s[k]),
        forall|k: int| b <= k < s.len() ==> is_ws(s[k]),
        a < s.len() ==> !is_ws(s[a]),
        b > a ==> !is_ws(s[b - 1]),
    ensures
        trim(s) =~= s.subrange(a, b),
{
    if a == b {
        // everything is whitespace (or the string is empty after a)
        lemma_trim_front_skip(s, a);
        let f = s.subrange(a, s.len() as int);
        assert(forall|k: int| 0 <= k < f.len() ==> is_ws(f[k]));
        lemma_trim_back_take(f, 0);
        assert(f.subrange(0, 0) =~= s.subrange(a, b));
    } else {
        lemma_trim_front_skip(s, a);
        let f = s.subrange(a, s.len() as int);
        lemma_trim_back_take(f, b - a);
        assert(f.subrange(0, b - a) =~= s.subrange(a, b));
    }
}

} // verus!
