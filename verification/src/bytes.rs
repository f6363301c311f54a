// SPDX-License-Identifier: LGPL-3.0

//! Byte strings: searching for a byte, testing for a prefix, comparing.

use vstd::prelude::*;

verus! {

/// `memchr::memchr` returns the index of the first occurrence of `needle` in
/// `haystack`, or `None` when the byte does not occur.
pub assume_specification[ memchr::memchr ](needle: u8, haystack: &[u8]) -> (res: Option<usize>)
    ensures
        match res {
            Some(i) => haystack@.index_of_first(needle) == Some(i as int),
            None => haystack@.index_of_first(needle) is None,
        },
;

/// `memchr::memrchr` returns the index of the last occurrence of `needle` in
/// `haystack`, or `None` when the byte does not occur.
pub assume_specification[ memchr::memrchr ](needle: u8, haystack: &[u8]) -> (res: Option<usize>)
    ensures
        match res {
            Some(i) => haystack@.index_of_last(needle) == Some(i as int),
            None => haystack@.index_of_last(needle) is None,
        },
;

/// Whether `s` begins with `prefix`.
pub open spec fn has_prefix(s: Seq<u8>, prefix: Seq<u8>) -> bool {
    prefix.len() <= s.len() && s.subrange(0, prefix.len() as int) == prefix
}

/// Tests whether `s` begins with `prefix`.
pub fn starts_with(s: &[u8], prefix: &[u8]) -> (res: bool)
    ensures
        res == has_prefix(s@, prefix@),
{
    if prefix.len() > s.len() {
        return false;
    }
    let mut i: usize = 0;
    while i < prefix.len()
        invariant
            i <= prefix.len() <= s.len(),
            forall|j: int| 0 <= j < i ==> s@[j] == prefix@[j],
        decreases prefix.len() - i,
    {
        if s[i] != prefix[i] {
            assert(s@.subrange(0, prefix.len() as int)[i as int] != prefix@[i as int]);
            return false;
        }
        i += 1;
    }
    assert(s@.subrange(0, prefix.len() as int) =~= prefix@);
    true
}

/// Tests whether two byte strings are equal.
pub fn same_bytes(a: &[u8], b: &[u8]) -> (res: bool)
    ensures
        res == (a@ == b@),
{
    if a.len() != b.len() {
        return false;
    }
    let res = starts_with(a, b);
    assert(a@.subrange(0, a@.len() as int) =~= a@);
    res
}

} // verus!
