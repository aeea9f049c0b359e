//! Scanning of byte strings: the first occurrence of a byte, equality, and
//! splitting a text at a byte.

use vstd::prelude::*;
use vstd::string::*;
use vstd::utf8::*;

verus! {

/// The index of the first occurrence of `byte` in `s`, or `s.len()` if there is
/// none.
pub open spec fn index_of(s: Seq<u8>, byte: u8) -> int
    decreases s.len(),
{
    if s.len() == 0 {
        0
    } else if s[0] == byte {
        0
    } else {
        1 + index_of(s.drop_first(), byte)
    }
}

/// `index_of` is the least index that holds the byte.
pub proof fn lemma_index_of(s: Seq<u8>, byte: u8)
    ensures
        0 <= index_of(s, byte) <= s.len(),
        index_of(s, byte) < s.len() ==> s[index_of(s, byte)] == byte,
        forall|j: int| 0 <= j < index_of(s, byte) ==> s[j] != byte,
    decreases s.len(),
{
    if s.len() != 0 && s[0] != byte {
        let rest = s.drop_first();
        lemma_index_of(rest, byte);
        assert forall|j: int| 0 <= j < index_of(s, byte) implies s[j] != byte by {
            if j > 0 {
                assert(s[j] == rest[j - 1]);
            }
        }
    }
}

/// An index that holds the byte and has none before it is `index_of`; so is
/// the length, where the byte does not occur.
pub proof fn lemma_index_of_unique(s: Seq<u8>, byte: u8, at: int)
    requires
        0 <= at <= s.len(),
        at < s.len() ==> s[at] == byte,
        forall|j: int| 0 <= j < at ==> s[j] != byte,
    ensures
        index_of(s, byte) == at,
{
    lemma_index_of(s, byte);
    let found = index_of(s, byte);
    if found < at {
        assert(s[found] == byte);
    }
}

/// Finds the first occurrence of a byte.
pub fn find_byte(s: &[u8], byte: u8) -> (at: usize)
    ensures
        at == index_of(s@, byte),
        at <= s@.len(),
{
    let mut at: usize = 0;
    while at < s.len() && s[at] != byte
        invariant
            at <= s@.len(),
            forall|j: int| 0 <= j < at ==> s@[j] != byte,
        decreases s@.len() - at,
    {
        at = at + 1;
    }
    proof {
        lemma_index_of_unique(s@, byte, at as int);
    }
    at
}

/// Whether two byte strings are equal.
pub fn bytes_equal(a: &[u8], b: &[u8]) -> (same: bool)
    ensures
        same == (a@ == b@),
{
    if a.len() != b.len() {
        return false;
    }
    let mut i: usize = 0;
    while i < a.len()
        invariant
            i <= a@.len(),
            a@.len() == b@.len(),
            forall|j: int| 0 <= j < i ==> a@[j] == b@[j],
        decreases a@.len() - i,
    {
        if a[i] != b[i] {
            return false;
        }
        i = i + 1;
    }
    assert(a@ =~= b@);
    true
}

/// In valid UTF-8 a character starts after a leading ASCII byte.
proof fn lemma_boundary_after_ascii(bytes: Seq<u8>)
    requires
        valid_utf8(bytes),
        bytes.len() > 0,
        bytes[0] <= 0x7f,
    ensures
        is_char_boundary(bytes, 1),
{
    reveal_with_fuel(is_char_boundary, 2);
    reveal_with_fuel(valid_utf8, 2);
}

/// Splits a text at the first occurrence of an ASCII byte: what stands before
/// it, and what follows it (nothing, where the byte does not occur).
pub fn split_once(text: &str, byte: u8) -> (parts: (&str, &str))
    requires
        byte <= 0x7f,
    ensures
        ({
            let s = text.spec_bytes();
            let at = index_of(s, byte);
            &&& parts.0.spec_bytes() == s.subrange(0, at)
            &&& parts.1.spec_bytes() == if at < s.len() {
                s.subrange(at + 1, s.len() as int)
            } else {
                Seq::empty()
            }
        }),
{
    let bytes = text.as_bytes();
    let at: usize = find_byte(bytes, byte);
    proof {
        lemma_index_of(bytes@, byte);
        encode_utf8_valid_utf8(text@);
        if at < bytes@.len() {
            is_char_boundary_iff_not_is_continuation_byte(bytes@, at as int);
        } else {
            is_char_boundary_start_end_of_seq(bytes@);
        }
    }
    let (head, tail) = text.split_at(at);
    if at < bytes.len() {
        proof {
            encode_utf8_valid_utf8(tail@);
            lemma_boundary_after_ascii(tail.spec_bytes());
        }
        let (_, rest) = tail.split_at(1);
        assert(rest.spec_bytes() =~= bytes@.subrange(at + 1, bytes@.len() as int));
        (head, rest)
    } else {
        assert(tail.spec_bytes() =~= Seq::<u8>::empty());
        (head, tail)
    }
}

} // verus!
