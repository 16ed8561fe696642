//! Substring matching on the UTF-8 bytes of keys.
use vstd::prelude::*;

verus! {

/// `needle` occurs in `hay` starting at byte `start`.
pub open spec fn occurs_at(hay: Seq<u8>, needle: Seq<u8>, start: int) -> bool {
    &&& 0 <= start
    &&& start + needle.len() <= hay.len()
    &&& hay.subrange(start, start + needle.len()) == needle
}

/// `needle` is a contiguous part of `hay`.
pub open spec fn contains_seq(hay: Seq<u8>, needle: Seq<u8>) -> bool {
    exists|start: int| occurs_at(hay, needle, start)
}

/// The UTF-8 encoding of a string.
pub open spec fn utf8(s: Seq<char>) -> Seq<u8> {
    vstd::utf8::encode_utf8(s)
}

/// `key` contains `query` as a substring.
pub open spec fn key_matches(key: Seq<char>, query: Seq<char>) -> bool {
    contains_seq(utf8(key), utf8(query))
}

fn bytes_at(hay: &[u8], needle: &[u8], start: usize) -> (r: bool)
    requires
        start + needle@.len() <= hay@.len(),
    ensures
        r == occurs_at(hay@, needle@, start as int),
{
    let hay_len: usize = hay.len();
    let mut j: usize = 0;
    while j < needle.len()
        invariant
            hay_len == hay@.len(),
            start + needle@.len() <= hay@.len(),
            j <= needle@.len(),
            forall|m: int| 0 <= m < j ==> hay@[start + m] == needle@[m],
        decreases needle@.len() - j,
    {
        if hay[start + j] != needle[j] {
            proof {
                let sub = hay@.subrange(start as int, start + needle@.len());
                assert(sub[j as int] != needle@[j as int]);
            }
            return false;
        }
        j = j + 1;
    }
    assert(hay@.subrange(start as int, start + needle@.len()) =~= needle@);
    true
}

/// Whether the bytes `needle` occur contiguously within the bytes `hay`.
pub fn contains_bytes(hay: &[u8], needle: &[u8]) -> (r: bool)
    ensures
        r == contains_seq(hay@, needle@),
{
    if needle.len() == 0 {
        assert(hay@.subrange(0, 0) =~= needle@);
        assert(occurs_at(hay@, needle@, 0));
        return true;
    }
    if needle.len() > hay.len() {
        return false;
    }
    let hay_len: usize = hay.len();
    let last: usize = hay_len - needle.len();
    let mut start: usize = 0;
    while start <= last
        invariant
            last + needle@.len() == hay@.len(),
            hay_len == hay@.len(),
            needle@.len() >= 1,
            forall|s: int| 0 <= s < start ==> !occurs_at(hay@, needle@, s),
        decreases last + 1 - start,
    {
        if bytes_at(hay, needle, start) {
            return true;
        }
        start = start + 1;
    }
    false
}

/// Whether `key` contains `query` as a substring.
pub fn key_contains(key: &str, query: &str) -> (r: bool)
    ensures
        r == key_matches(key@, query@),
{
    contains_bytes(key.as_bytes(), query.as_bytes())
}

} // verus!
