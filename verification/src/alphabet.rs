//! The alphabet: lowercase ASCII letters, their offsets and presence bitmasks.

use vstd::prelude::*;

verus! {

/// Number of letters in the alphabet.
pub const ALPHABET_SIZE: u32 = 26;

/// Code point of the first letter, `'a'`.
pub const FIRST_LETTER: u32 = 97;

/// Why no index could be had.
#[derive(Debug, Clone, Copy, PartialEq, Eq)]
pub enum IndexError {
    /// A word holds a character outside `'a'..='z'`, or a mode is not known.
    InvalidInput,
    /// There is no persisted index to open.
    NotFound,
}

/// The key under which the indexes file a character: its code point.
pub open spec fn letter_key(c: char) -> u32 {
    c as u32
}

/// Two characters with the same key are the same character.
pub proof fn lemma_key_names_letter(a: char, b: char)
    ensures
        letter_key(a) == letter_key(b) <==> a == b,
{
    assert((a as u32) as char == a);
    assert((b as u32) as char == b);
}

/// `c` is one of the 26 lowercase letters.
pub open spec fn is_lowercase(c: char) -> bool {
    FIRST_LETTER <= letter_key(c) < FIRST_LETTER + ALPHABET_SIZE
}

/// Offset of a lowercase letter in the alphabet: 0 for `'a'`, 25 for `'z'`.
pub open spec fn letter_offset(c: char) -> int {
    letter_key(c) - FIRST_LETTER
}

/// Every character of `word` is a lowercase letter.
pub open spec fn all_lowercase(word: Seq<char>) -> bool {
    forall|i: int| 0 <= i < word.len() ==> is_lowercase(#[trigger] word[i])
}

/// Bit `k` of `mask` is set.
pub open spec fn bit_is_set(mask: u32, k: u32) -> bool {
    (mask >> k) & 1 == 1
}

/// Some character of `word` has alphabet offset `k`.
pub open spec fn has_offset(word: Seq<char>, k: int) -> bool {
    exists|i: int| 0 <= i < word.len() && letter_offset(#[trigger] word[i]) == k
}

/// `mask` is the presence bitmask of `word`: bit `k` is set exactly when the
/// letter at offset `k` occurs in the word, however often and wherever.
pub open spec fn is_bitmask_of(mask: u32, word: Seq<char>) -> bool {
    forall|k: u32| k < 32 ==> (#[trigger] bit_is_set(mask, k) <==> has_offset(word, k as int))
}

/// Setting bit `off` changes that bit and no other.
pub proof fn lemma_set_bit(mask: u32, off: u32)
    requires
        off < 32,
    ensures
        forall|k: u32|
            k < 32 ==> (#[trigger] bit_is_set(mask | (1u32 << off), k) <==> (bit_is_set(mask, k)
                || k == off)),
        forall|k: u32| k < 32 ==> !(#[trigger] bit_is_set(0u32, k)),
{
    assert forall|k: u32| k < 32 implies (#[trigger] bit_is_set(mask | (1u32 << off), k) <==> (
    bit_is_set(mask, k) || k == off)) by {
        assert(off < 32 && k < 32 ==> ((((mask | (1u32 << off)) >> k) & 1 == 1) <==> (((mask >> k)
            & 1 == 1) || k == off))) by (bit_vector);
    }
    assert forall|k: u32| k < 32 implies !(#[trigger] bit_is_set(0u32, k)) by {
        assert(k < 32 ==> (0u32 >> k) & 1 == 0) by (bit_vector);
    }
}

/// Two bitmasks of the same word are the same number.
pub proof fn lemma_bitmask_unique(m1: u32, m2: u32, word: Seq<char>)
    requires
        is_bitmask_of(m1, word),
        is_bitmask_of(m2, word),
    ensures
        m1 == m2,
{
    assert(bit_is_set(m1, 0) <==> bit_is_set(m2, 0));
    assert(bit_is_set(m1, 1) <==> bit_is_set(m2, 1));
    assert(bit_is_set(m1, 2) <==> bit_is_set(m2, 2));
    assert(bit_is_set(m1, 3) <==> bit_is_set(m2, 3));
    assert(bit_is_set(m1, 4) <==> bit_is_set(m2, 4));
    assert(bit_is_set(m1, 5) <==> bit_is_set(m2, 5));
    assert(bit_is_set(m1, 6) <==> bit_is_set(m2, 6));
    assert(bit_is_set(m1, 7) <==> bit_is_set(m2, 7));
    assert(bit_is_set(m1, 8) <==> bit_is_set(m2, 8));
    assert(bit_is_set(m1, 9) <==> bit_is_set(m2, 9));
    assert(bit_is_set(m1, 10) <==> bit_is_set(m2, 10));
    assert(bit_is_set(m1, 11) <==> bit_is_set(m2, 11));
    assert(bit_is_set(m1, 12) <==> bit_is_set(m2, 12));
    assert(bit_is_set(m1, 13) <==> bit_is_set(m2, 13));
    assert(bit_is_set(m1, 14) <==> bit_is_set(m2, 14));
    assert(bit_is_set(m1, 15) <==> bit_is_set(m2, 15));
    assert(bit_is_set(m1, 16) <==> bit_is_set(m2, 16));
    assert(bit_is_set(m1, 17) <==> bit_is_set(m2, 17));
    assert(bit_is_set(m1, 18) <==> bit_is_set(m2, 18));
    assert(bit_is_set(m1, 19) <==> bit_is_set(m2, 19));
    assert(bit_is_set(m1, 20) <==> bit_is_set(m2, 20));
    assert(bit_is_set(m1, 21) <==> bit_is_set(m2, 21));
    assert(bit_is_set(m1, 22) <==> bit_is_set(m2, 22));
    assert(bit_is_set(m1, 23) <==> bit_is_set(m2, 23));
    assert(bit_is_set(m1, 24) <==> bit_is_set(m2, 24));
    assert(bit_is_set(m1, 25) <==> bit_is_set(m2, 25));
    assert(bit_is_set(m1, 26) <==> bit_is_set(m2, 26));
    assert(bit_is_set(m1, 27) <==> bit_is_set(m2, 27));
    assert(bit_is_set(m1, 28) <==> bit_is_set(m2, 28));
    assert(bit_is_set(m1, 29) <==> bit_is_set(m2, 29));
    assert(bit_is_set(m1, 30) <==> bit_is_set(m2, 30));
    assert(bit_is_set(m1, 31) <==> bit_is_set(m2, 31));
    assert((((m1 >> 0u32) & 1 == 1) == ((m2 >> 0u32) & 1 == 1)
        && ((m1 >> 1u32) & 1 == 1) == ((m2 >> 1u32) & 1 == 1)
        && ((m1 >> 2u32) & 1 == 1) == ((m2 >> 2u32) & 1 == 1)
        && ((m1 >> 3u32) & 1 == 1) == ((m2 >> 3u32) & 1 == 1)
        && ((m1 >> 4u32) & 1 == 1) == ((m2 >> 4u32) & 1 == 1)
        && ((m1 >> 5u32) & 1 == 1) == ((m2 >> 5u32) & 1 == 1)
        && ((m1 >> 6u32) & 1 == 1) == ((m2 >> 6u32) & 1 == 1)
        && ((m1 >> 7u32) & 1 == 1) == ((m2 >> 7u32) & 1 == 1)
        && ((m1 >> 8u32) & 1 == 1) == ((m2 >> 8u32) & 1 == 1)
        && ((m1 >> 9u32) & 1 == 1) == ((m2 >> 9u32) & 1 == 1)
        && ((m1 >> 10u32) & 1 == 1) == ((m2 >> 10u32) & 1 == 1)
        && ((m1 >> 11u32) & 1 == 1) == ((m2 >> 11u32) & 1 == 1)
        && ((m1 >> 12u32) & 1 == 1) == ((m2 >> 12u32) & 1 == 1)
        && ((m1 >> 13u32) & 1 == 1) == ((m2 >> 13u32) & 1 == 1)
        && ((m1 >> 14u32) & 1 == 1) == ((m2 >> 14u32) & 1 == 1)
        && ((m1 >> 15u32) & 1 == 1) == ((m2 >> 15u32) & 1 == 1)
        && ((m1 >> 16u32) & 1 == 1) == ((m2 >> 16u32) & 1 == 1)
        && ((m1 >> 17u32) & 1 == 1) == ((m2 >> 17u32) & 1 == 1)
        && ((m1 >> 18u32) & 1 == 1) == ((m2 >> 18u32) & 1 == 1)
        && ((m1 >> 19u32) & 1 == 1) == ((m2 >> 19u32) & 1 == 1)
        && ((m1 >> 20u32) & 1 == 1) == ((m2 >> 20u32) & 1 == 1)
        && ((m1 >> 21u32) & 1 == 1) == ((m2 >> 21u32) & 1 == 1)
        && ((m1 >> 22u32) & 1 == 1) == ((m2 >> 22u32) & 1 == 1)
        && ((m1 >> 23u32) & 1 == 1) == ((m2 >> 23u32) & 1 == 1)
        && ((m1 >> 24u32) & 1 == 1) == ((m2 >> 24u32) & 1 == 1)
        && ((m1 >> 25u32) & 1 == 1) == ((m2 >> 25u32) & 1 == 1)
        && ((m1 >> 26u32) & 1 == 1) == ((m2 >> 26u32) & 1 == 1)
        && ((m1 >> 27u32) & 1 == 1) == ((m2 >> 27u32) & 1 == 1)
        && ((m1 >> 28u32) & 1 == 1) == ((m2 >> 28u32) & 1 == 1)
        && ((m1 >> 29u32) & 1 == 1) == ((m2 >> 29u32) & 1 == 1)
        && ((m1 >> 30u32) & 1 == 1) == ((m2 >> 30u32) & 1 == 1)
        && ((m1 >> 31u32) & 1 == 1) == ((m2 >> 31u32) & 1 == 1)) ==> m1 == m2) by (bit_vector);
}

/// The key of a character, as a number.
pub fn key_of(c: char) -> (key: u32)
    ensures
        key == letter_key(c),
{
    c as u32
}

} // verus!
