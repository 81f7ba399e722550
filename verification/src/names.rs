use vstd::prelude::*;
use crate::errors::Error;

verus! {

/// One pattern occurs somewhere inside `s` as a contiguous run of bytes.
pub open spec fn is_substring_of(needle: Seq<u8>, s: Seq<u8>) -> bool {
    exists|i: int|
        0 <= i && i + needle.len() <= s.len() && #[trigger] s.subrange(i, i + needle.len())
            == needle
}

/// Some pattern of the list occurs inside `s`.
pub open spec fn any_substring_of(needles: Seq<Seq<u8>>, s: Seq<u8>) -> bool {
    exists|k: int| 0 <= k < needles.len() && is_substring_of(needles[k], s)
}

/// Some pattern of the list is a suffix of `s`.
pub open spec fn any_suffix_of(needles: Seq<Seq<u8>>, s: Seq<u8>) -> bool {
    exists|k: int| 0 <= k < needles.len() && needles[k].is_suffix_of(s)
}

/// Byte-for-byte equality of two slices.
pub fn bytes_eq(a: &[u8], b: &[u8]) -> (r: bool)
    ensures
        r == (a@ == b@),
{
    if a.len() != b.len() {
        assert(a@ != b@) by {
            assert(a@.len() != b@.len());
        }
        return false;
    }
    let n: usize = a.len();
    let mut i: usize = 0;
    while i < n
        invariant
            n == a@.len() == b@.len(),
            0 <= i <= n,
            forall|j: int| 0 <= j < i ==> a@[j] == b@[j],
        decreases n - i,
    {
        if a[i] != b[i] {
            return false;
        }
        i += 1;
    }
    assert(a@ =~= b@);
    true
}

/// Does `s` start with `prefix`?
pub fn starts_with(s: &[u8], prefix: &[u8]) -> (r: bool)
    ensures
        r == prefix@.is_prefix_of(s@),
{
    if prefix.len() > s.len() {
        return false;
    }
    let n: usize = prefix.len();
    let mut i: usize = 0;
    while i < n
        invariant
            n == prefix@.len() <= s@.len(),
            0 <= i <= n,
            forall|j: int| 0 <= j < i ==> s@[j] == prefix@[j],
        decreases n - i,
    {
        if s[i] != prefix[i] {
            assert(s@.subrange(0, n as int)[i as int] != prefix@[i as int]);
            return false;
        }
        i += 1;
    }
    assert(s@.subrange(0, n as int) =~= prefix@);
    true
}

/// Does `s` end with `suffix`?
pub fn ends_with(s: &[u8], suffix: &[u8]) -> (r: bool)
    ensures
        r == suffix@.is_suffix_of(s@),
{
    if suffix.len() > s.len() {
        return false;
    }
    let n: usize = suffix.len();
    let len: usize = s.len();
    let base: usize = len - n;
    let mut i: usize = 0;
    while i < n
        invariant
            n == suffix@.len() <= s@.len(),
            len == s@.len(),
            base + n == len,
            0 <= i <= n,
            forall|j: int| 0 <= j < i ==> s@[base + j] == suffix@[j],
        decreases n - i,
    {
        if s[base + i] != suffix[i] {
            assert(s@.subrange(base as int, s@.len() as int)[i as int] != suffix@[i as int]);
            return false;
        }
        i += 1;
    }
    assert(s@.subrange(base as int, s@.len() as int) =~= suffix@);
    true
}

/// An owned copy of a byte slice.
pub fn copy_bytes(b: &[u8]) -> (r: Vec<u8>)
    ensures
        r@ == b@,
{
    vstd::slice::slice_to_vec(b)
}

/// The canonical display form of a mangled symbol name; a function of the
/// bytes and the flag alone. With `with_suffix` the compiler's disambiguating
/// hash suffix is kept, without it the hash is dropped.
pub uninterp spec fn demangled_of(name: Seq<u8>, with_suffix: bool) -> Seq<u8>;

/// Relies on rustc_demangle::demangle: the display form depends only on the
/// name's bytes; `{:#}` formatting drops the trailing hash, `{}` keeps it.
/// Bytes that are not UTF-8 are passed through unchanged, as the demangler
/// only accepts strings.
#[verifier::external_body]
pub fn demangle_name(name: &[u8], with_suffix: bool) -> (r: Vec<u8>)
    ensures
        r@ == demangled_of(name@, with_suffix),
{
    match core::str::from_utf8(name) {
        Ok(s) => {
            let d = rustc_demangle::demangle(s);
            if with_suffix {
                format!("{}", d).into_bytes()
            } else {
                format!("{:#}", d).into_bytes()
            }
        },
        Err(_) => name.to_vec(),
    }
}

/// Whether the multi-pattern matcher can be built over these patterns. The
/// builder fails only at its own automaton size limits, deterministically in
/// the patterns alone.
pub uninterp spec fn patterns_buildable(patterns: Seq<Seq<u8>>) -> bool;

/// Relies on aho_corasick::AhoCorasick::{new, is_match}: with the default
/// match semantics, `is_match` reports whether any pattern occurs in the
/// haystack as a contiguous byte substring. `new` fails exactly when the
/// automaton's builder rejects the patterns, a function of the patterns
/// alone.
#[verifier::external_body]
pub fn multi_substring_match(patterns: &Vec<Vec<u8>>, haystack: &[u8]) -> (r: Result<
    bool,
    Error,
>)
    ensures
        r matches Ok(b) ==> b == any_substring_of(patterns@.map_values(|p: Vec<u8>| p@), haystack@),
        r matches Err(e) ==> e matches Error::PatternBuildFailed(_),
        r is Ok <==> patterns_buildable(patterns@.map_values(|p: Vec<u8>| p@)),
{
    match aho_corasick::AhoCorasick::new(patterns) {
        Ok(ac) => Ok(ac.is_match(haystack)),
        Err(e) => Err(Error::PatternBuildFailed(format!("{}", e).into_bytes())),
    }
}

/// Does any keyword occur in the demangled form of `mangled`, or end the
/// mangled form itself?
///
/// This is the match rule of the search commands: substring match against the
/// demangled display form (hash suffix kept), or suffix match against the
/// stored name.
pub fn keyword_match(mangled: &[u8], keywords: &Vec<Vec<u8>>) -> (r: Result<bool, Error>)
    ensures
        r matches Ok(b) ==> b == (any_substring_of(
            keywords@.map_values(|p: Vec<u8>| p@),
            demangled_of(mangled@, true),
        ) || any_suffix_of(keywords@.map_values(|p: Vec<u8>| p@), mangled@)),
        r matches Err(e) ==> e matches Error::PatternBuildFailed(_),
        r is Ok <==> patterns_buildable(keywords@.map_values(|p: Vec<u8>| p@)),
{
    let demangled = demangle_name(mangled, true);
    let by_substring = match multi_substring_match(keywords, demangled.as_slice()) {
        Ok(b) => b,
        Err(e) => {
            return Err(e);
        },
    };
    if by_substring {
        return Ok(true);
    }
    let n: usize = keywords.len();
    let mut k: usize = 0;
    while k < n
        invariant
            n == keywords@.len(),
            0 <= k <= n,
            forall|j: int| 0 <= j < k ==> !(#[trigger] keywords@[j])@.is_suffix_of(mangled@),
            !any_substring_of(keywords@.map_values(|p: Vec<u8>| p@), demangled_of(mangled@, true)),
            patterns_buildable(keywords@.map_values(|p: Vec<u8>| p@)),
        decreases n - k,
    {
        if ends_with(mangled, keywords[k].as_slice()) {
            assert(keywords@.map_values(|p: Vec<u8>| p@)[k as int].is_suffix_of(mangled@));
            return Ok(true);
        }
        k += 1;
    }
    assert(forall|j: int|
        0 <= j < keywords@.len() ==> keywords@.map_values(|p: Vec<u8>| p@)[j] == (
        #[trigger] keywords@[j])@);
    Ok(false)
}

/// Is every byte an ASCII decimal digit?
pub open spec fn all_digits(s: Seq<u8>) -> bool {
    forall|i: int| 0 <= i < s.len() ==> 48 <= #[trigger] s[i] <= 57
}

/// The number the digits denote, most significant first.
pub open spec fn dec_value(s: Seq<u8>) -> int
    decreases s.len(),
{
    if s.len() == 0 {
        0
    } else {
        dec_value(s.drop_last()) * 10 + (s.last() - 48)
    }
}

/// A longer digit string never denotes a smaller number.
proof fn lemma_dec_value_monotone(s: Seq<u8>, i: int)
    requires
        0 <= i <= s.len(),
        all_digits(s),
    ensures
        dec_value(s.take(i)) <= dec_value(s),
        dec_value(s) >= 0,
    decreases s.len() - i,
{
    if i == s.len() {
        assert(s.take(i) =~= s);
        lemma_dec_value_nonneg(s);
    } else {
        lemma_dec_value_monotone(s, i + 1);
        assert(s.take(i + 1).drop_last() =~= s.take(i));
        lemma_dec_value_nonneg(s.take(i));
    }
}

/// A digit string denotes nothing negative.
pub proof fn lemma_dec_value_nonneg(s: Seq<u8>)
    requires
        all_digits(s),
    ensures
        dec_value(s) >= 0,
    decreases s.len(),
{
    if s.len() > 0 {
        assert(all_digits(s.drop_last())) by {
            assert(forall|i: int| 0 <= i < s.len() - 1 ==> s.drop_last()[i] == #[trigger] s[i]);
        }
        lemma_dec_value_nonneg(s.drop_last());
    }
}

/// Parse an ASCII decimal number: the denoted value when every byte is a
/// digit, there is at least one, and the value fits the machine's word;
/// the index-number error otherwise.
pub fn parse_usize(s: &[u8]) -> (r: Result<usize, Error>)
    ensures
        match r {
            Ok(v) => all_digits(s@) && s@.len() > 0 && v == dec_value(s@),
            Err(e) => e == Error::NeedIndexNumber && (!all_digits(s@) || s@.len() == 0
                || dec_value(s@) > usize::MAX),
        },
{
    let n: usize = s.len();
    if n == 0 {
        return Err(Error::NeedIndexNumber);
    }
    let mut v: usize = 0;
    let mut i: usize = 0;
    while i < n
        invariant
            n == s@.len(),
            0 <= i <= n,
            all_digits(s@.take(i as int)),
            v == dec_value(s@.take(i as int)),
        decreases n - i,
    {
        let b = s[i];
        if b < 48 || b > 57 {
            assert(!all_digits(s@)) by {
                assert(s@[i as int] == b);
            }
            return Err(Error::NeedIndexNumber);
        }
        proof {
            assert(s@.take(i as int + 1).drop_last() =~= s@.take(i as int));
            assert(forall|j: int|
                0 <= j < i as int + 1 ==> 48 <= #[trigger] s@.take(i as int + 1)[j] <= 57);
        }
        let scaled = match v.checked_mul(10) {
            Some(x) => x,
            None => {
                proof {
                    if all_digits(s@) {
                        lemma_dec_value_monotone(s@, i as int + 1);
                    }
                }
                return Err(Error::NeedIndexNumber);
            },
        };
        let next = match scaled.checked_add((b - 48) as usize) {
            Some(x) => x,
            None => {
                proof {
                    if all_digits(s@) {
                        lemma_dec_value_monotone(s@, i as int + 1);
                    }
                }
                return Err(Error::NeedIndexNumber);
            },
        };
        v = next;
        i += 1;
    }
    proof {
        assert(s@.take(n as int) =~= s@);
    }
    Ok(v)
}

} // verus!
