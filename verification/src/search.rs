//! Finding a byte sequence inside a byte sequence.

use vstd::prelude::*;
use vstd::utf8::encode_scalar;

verus! {

/// `needle` occurs in `hay` starting at index `i`.
pub open spec fn matches_at(hay: Seq<u8>, needle: Seq<u8>, i: int) -> bool {
    &&& 0 <= i
    &&& i + needle.len() <= hay.len()
    &&& hay.subrange(i, i + needle.len()) == needle
}

/// `needle` occurs somewhere in `hay`.
pub open spec fn occurs(hay: Seq<u8>, needle: Seq<u8>) -> bool {
    exists|i: int| matches_at(hay, needle, i)
}

/// A one-byte needle occurs exactly where the byte does.
pub proof fn lemma_occurs_single(hay: Seq<u8>, b: u8)
    ensures
        occurs(hay, seq![b]) <==> hay.contains(b),
{
    if hay.contains(b) {
        let i = choose|i: int| 0 <= i < hay.len() && hay[i] == b;
        assert(hay.subrange(i, i + 1) =~= seq![b]);
        assert(matches_at(hay, seq![b], i));
    }
    if occurs(hay, seq![b]) {
        let i = choose|i: int| matches_at(hay, seq![b], i);
        assert(hay.subrange(i, i + 1)[0] == b);
        assert(hay[i] == b);
    }
}

/// A match that lies within a prefix is unaffected by what follows the prefix.
pub proof fn lemma_matches_in_prefix(hay: Seq<u8>, longer: Seq<u8>, needle: Seq<u8>, i: int)
    requires
        hay.len() <= longer.len(),
        longer.subrange(0, hay.len() as int) == hay,
        0 <= i,
        i + needle.len() <= hay.len(),
    ensures
        matches_at(longer, needle, i) == matches_at(hay, needle, i),
{
    assert(longer.subrange(i, i + needle.len()) =~= hay.subrange(i, i + needle.len()));
}

/// Whether `needle` occurs in `hay` at index `i`.
pub fn match_at(hay: &[u8], needle: &[u8], i: usize) -> (r: bool)
    ensures
        r == matches_at(hay@, needle@, i as int),
{
    if i > hay.len() || needle.len() > hay.len() - i {
        return false;
    }
    let mut k: usize = 0;
    while k < needle.len()
        invariant
            i + needle@.len() <= hay@.len(),
            hay@.len() == hay.len(),
            k <= needle@.len(),
            forall|j: int| 0 <= j < k ==> hay@[i + j] == needle@[j],
        decreases needle.len() - k,
    {
        if hay[i + k] != needle[k] {
            assert(hay@.subrange(i as int, i + needle@.len())[k as int] != needle@[k as int]);
            return false;
        }
        k = k + 1;
    }
    assert(hay@.subrange(i as int, i + needle@.len()) =~= needle@);
    true
}

/// The first index at or after `from` where `needle` occurs in `hay`, if any.
pub fn find_from(hay: &[u8], needle: &[u8], from: usize) -> (r: Option<usize>)
    ensures
        match r {
            Some(i) => {
                &&& from <= i
                &&& matches_at(hay@, needle@, i as int)
                &&& forall|j: int| from <= j < i ==> !matches_at(hay@, needle@, j)
            },
            None => forall|j: int| from <= j ==> !matches_at(hay@, needle@, j),
        },
{
    if needle.len() > hay.len() || from > hay.len() - needle.len() {
        return None;
    }
    let last = hay.len() - needle.len();
    let mut i = from;
    while i <= last
        invariant
            from <= i,
            last == hay@.len() - needle@.len(),
            forall|j: int| from <= j < i ==> !matches_at(hay@, needle@, j),
        decreases last + 1 - i,
    {
        if match_at(hay, needle, i) {
            return Some(i);
        }
        if i == last {
            return None;
        }
        i = i + 1;
    }
    None
}

/// The UTF-8 encoding of `ch`.
pub fn encode_char(ch: char) -> (bytes: Vec<u8>)
    ensures
        bytes@ == encode_scalar(ch as u32),
{
    let v = ch as u32;
    let mut bytes: Vec<u8> = Vec::new();
    if v <= 0x7F {
        bytes.push((v & 0x7F) as u8);
    } else if v <= 0x7FF {
        bytes.push(0xC0 | ((v >> 6) & 0x1F) as u8);
        bytes.push(0x80 | (v & 0x3F) as u8);
    } else if v <= 0xFFFF {
        bytes.push(0xE0 | ((v >> 12) & 0x0F) as u8);
        bytes.push(0x80 | ((v >> 6) & 0x3F) as u8);
        bytes.push(0x80 | (v & 0x3F) as u8);
    } else {
        bytes.push(0xF0 | ((v >> 18) & 0x7) as u8);
        bytes.push(0x80 | ((v >> 12) & 0x3F) as u8);
        bytes.push(0x80 | ((v >> 6) & 0x3F) as u8);
        bytes.push(0x80 | (v & 0x3F) as u8);
    }
    assert(bytes@ =~= encode_scalar(v));
    bytes
}

} // verus!
