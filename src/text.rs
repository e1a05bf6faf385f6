//! Byte-sequence helpers: searching for delimiters and decoding text.
use vstd::prelude::*;
use vstd::utf8::{decode_utf8, valid_utf8};

verus! {

/// Index of the first occurrence of `c` in `s`, if any.
pub open spec fn index_of(s: Seq<u8>, c: u8) -> Option<nat>
    decreases s.len(),
{
    if s.len() == 0 {
        None
    } else if s[0] == c {
        Some(0)
    } else {
        match index_of(s.drop_first(), c) {
            Some(i) => Some(i + 1),
            None => None,
        }
    }
}

/// Index of the first byte of `s` that is `c1` or `c2`, if any.
pub open spec fn index_of2(s: Seq<u8>, c1: u8, c2: u8) -> Option<nat>
    decreases s.len(),
{
    if s.len() == 0 {
        None
    } else if s[0] == c1 || s[0] == c2 {
        Some(0)
    } else {
        match index_of2(s.drop_first(), c1, c2) {
            Some(i) => Some(i + 1),
            None => None,
        }
    }
}

/// The first-occurrence facts that a search reports pin down `index_of`.
pub(crate) proof fn lemma_index_of(s: Seq<u8>, c: u8, r: Option<nat>)
    requires
        match r {
            Some(i) => i < s.len() && s[i as int] == c && forall|j: int| 0 <= j < i ==> s[j] != c,
            None => forall|j: int| 0 <= j < s.len() ==> s[j] != c,
        },
    ensures
        index_of(s, c) == r,
    decreases s.len(),
{
    if s.len() > 0 && s[0] != c {
        let r1 = match r {
            Some(i) => Some((i - 1) as nat),
            None => None,
        };
        assert(match r1 {
            Some(i) => i < s.drop_first().len() && s.drop_first()[i as int] == c
                && forall|j: int| 0 <= j < i ==> s.drop_first()[j] != c,
            None => forall|j: int| 0 <= j < s.drop_first().len() ==> s.drop_first()[j] != c,
        }) by {
            match r {
                Some(i) => {
                    assert forall|j: int| 0 <= j < i - 1 implies s.drop_first()[j] != c by {
                        assert(s[j + 1] != c);
                    }
                },
                None => {
                    assert forall|j: int| 0 <= j < s.drop_first().len() implies s.drop_first()[j]
                        != c by {
                        assert(s[j + 1] != c);
                    }
                },
            }
        }
        lemma_index_of(s.drop_first(), c, r1);
    }
}

/// The first-occurrence facts that a search reports pin down `index_of2`.
pub(crate) proof fn lemma_index_of2(s: Seq<u8>, c1: u8, c2: u8, r: Option<nat>)
    requires
        match r {
            Some(i) => i < s.len() && (s[i as int] == c1 || s[i as int] == c2) && forall|j: int|
                0 <= j < i ==> s[j] != c1 && s[j] != c2,
            None => forall|j: int| 0 <= j < s.len() ==> s[j] != c1 && s[j] != c2,
        },
    ensures
        index_of2(s, c1, c2) == r,
    decreases s.len(),
{
    if s.len() > 0 && s[0] != c1 && s[0] != c2 {
        let r1 = match r {
            Some(i) => Some((i - 1) as nat),
            None => None,
        };
        let t = s.drop_first();
        assert(match r1 {
            Some(i) => i < t.len() && (t[i as int] == c1 || t[i as int] == c2) && forall|j: int|
                0 <= j < i ==> t[j] != c1 && t[j] != c2,
            None => forall|j: int| 0 <= j < t.len() ==> t[j] != c1 && t[j] != c2,
        }) by {
            match r {
                Some(i) => {
                    assert forall|j: int| 0 <= j < i - 1 implies t[j] != c1 && t[j] != c2 by {
                        assert(s[j + 1] != c1 && s[j + 1] != c2);
                    }
                },
                None => {
                    assert forall|j: int| 0 <= j < t.len() implies t[j] != c1 && t[j] != c2 by {
                        assert(s[j + 1] != c1 && s[j + 1] != c2);
                    }
                },
            }
        }
        lemma_index_of2(t, c1, c2, r1);
    }
}

/// Relies on memchr::memchr: the index of the first byte equal to `needle`.
#[verifier::external_body]
fn memchr_first(needle: u8, haystack: &[u8]) -> (r: Option<usize>)
    ensures
        match r {
            Some(i) => i < haystack@.len() && haystack@[i as int] == needle && forall|j: int|
                0 <= j < i ==> haystack@[j] != needle,
            None => forall|j: int| 0 <= j < haystack@.len() ==> haystack@[j] != needle,
        },
{
    memchr::memchr(needle, haystack)
}

/// Relies on memchr::memchr2: the index of the first byte equal to either needle.
#[verifier::external_body]
fn memchr2_first(needle1: u8, needle2: u8, haystack: &[u8]) -> (r: Option<usize>)
    ensures
        match r {
            Some(i) => i < haystack@.len() && (haystack@[i as int] == needle1 || haystack@[i as int]
                == needle2) && forall|j: int|
                0 <= j < i ==> haystack@[j] != needle1 && haystack@[j] != needle2,
            None => forall|j: int|
                0 <= j < haystack@.len() ==> haystack@[j] != needle1 && haystack@[j] != needle2,
        },
{
    memchr::memchr2(needle1, needle2, haystack)
}

/// The index of the first byte of `haystack` equal to `c`.
pub fn find_byte(c: u8, haystack: &[u8]) -> (r: Option<usize>)
    ensures
        match index_of(haystack@, c) {
            Some(k) => k < haystack@.len() && r == Some(k as usize),
            None => r.is_none(),
        },
        r matches Some(i) ==> i < haystack@.len(),
{
    let r = memchr_first(c, haystack);
    proof {
        let rn = match r {
            Some(i) => Some(i as nat),
            None => None,
        };
        lemma_index_of(haystack@, c, rn);
    }
    r
}

/// The index of the first byte of `haystack` equal to `c1` or `c2`.
pub fn find_byte2(c1: u8, c2: u8, haystack: &[u8]) -> (r: Option<usize>)
    ensures
        match index_of2(haystack@, c1, c2) {
            Some(k) => k < haystack@.len() && r == Some(k as usize),
            None => r.is_none(),
        },
        r matches Some(i) ==> i < haystack@.len(),
{
    let r = memchr2_first(c1, c2, haystack);
    proof {
        let rn = match r {
            Some(i) => Some(i as nat),
            None => None,
        };
        lemma_index_of2(haystack@, c1, c2, rn);
    }
    r
}

/// Relies on std::str::from_utf8: it succeeds exactly on well-formed UTF-8 and then
/// borrows the same bytes as text.
#[verifier::external_body]
pub(crate) fn utf8_str<'a>(bytes: &'a [u8]) -> (r: Option<&'a str>)
    ensures
        r.is_some() == valid_utf8(bytes@),
        r matches Some(s) ==> s@ == decode_utf8(bytes@),
{
    std::str::from_utf8(bytes).ok()
}

/// What `String::from_utf8_lossy` makes of a byte sequence.
pub uninterp spec fn lossy_of(b: Seq<u8>) -> Seq<char>;

/// Relies on String::from_utf8_lossy: the text depends on the bytes alone, and
/// well-formed UTF-8 is decoded unchanged.
#[verifier::external_body]
pub(crate) fn utf8_lossy(bytes: &[u8]) -> (r: String)
    ensures
        r@ == lossy_of(bytes@),
        valid_utf8(bytes@) ==> r@ == decode_utf8(bytes@),
{
    String::from_utf8_lossy(bytes).into_owned()
}

} // verus!
