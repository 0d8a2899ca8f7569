//! The value types a grid can hold, and how a 32-bit word is cut down, or a
//! value widened, to pass between a cell and a word.

use vstd::prelude::*;

verus! {

/// The word whose little-endian bytes are `b0` to `b3`.
pub open spec fn le_word(b0: u8, b1: u8, b2: u8, b3: u8) -> int {
    b0 as int + 256 * (b1 as int) + 65536 * (b2 as int) + 16777216 * (b3 as int)
}

/// Byte `k` of the little-endian form of `word`.
pub open spec fn le_byte(word: u32, k: nat) -> u8 {
    if k == 0 {
        (word % 256) as u8
    } else if k == 1 {
        ((word / 256) % 256) as u8
    } else if k == 2 {
        ((word / 65536) % 256) as u8
    } else {
        ((word / 16777216) % 256) as u8
    }
}

/// The four little-endian bytes of `word`.
pub fn le_bytes_of(word: u32) -> (r: [u8; 4])
    ensures
        r[0] == le_byte(word, 0),
        r[1] == le_byte(word, 1),
        r[2] == le_byte(word, 2),
        r[3] == le_byte(word, 3),
        le_word(r[0], r[1], r[2], r[3]) == word,
{
    [
        (word % 256) as u8,
        ((word / 256) % 256) as u8,
        ((word / 65536) % 256) as u8,
        ((word / 16777216) % 256) as u8,
    ]
}

/// A value type that is made from the first bytes of a four-byte
/// little-endian word, as many as the type is wide.
pub trait From4LeBytes: Sized {
    spec fn spec_from_4_le_bytes(b0: u8, b1: u8, b2: u8, b3: u8) -> Self;

    fn from_4_le_bytes(array: [u8; 4]) -> (r: Self)
        ensures
            r == Self::spec_from_4_le_bytes(array[0], array[1], array[2], array[3]),
    ;
}

impl From4LeBytes for u8 {
    open spec fn spec_from_4_le_bytes(b0: u8, b1: u8, b2: u8, b3: u8) -> u8 {
        b0
    }

    fn from_4_le_bytes(array: [u8; 4]) -> (r: u8) {
        array[0]
    }
}

impl From4LeBytes for u16 {
    open spec fn spec_from_4_le_bytes(b0: u8, b1: u8, b2: u8, b3: u8) -> u16 {
        (b0 as int + 256 * (b1 as int)) as u16
    }

    fn from_4_le_bytes(array: [u8; 4]) -> (r: u16) {
        array[0] as u16 + 256 * (array[1] as u16)
    }
}

impl From4LeBytes for u32 {
    open spec fn spec_from_4_le_bytes(b0: u8, b1: u8, b2: u8, b3: u8) -> u32 {
        le_word(b0, b1, b2, b3) as u32
    }

    fn from_4_le_bytes(array: [u8; 4]) -> (r: u32) {
        array[0] as u32 + 256 * (array[1] as u32) + 65536 * (array[2] as u32) + 16777216 * (
        array[3] as u32)
    }
}

/// The value made from the word `word`: what a cell holds where the tree
/// stores an index or a tile in place of a value.
pub open spec fn value_of_word<V: From4LeBytes>(word: u32) -> V {
    V::spec_from_4_le_bytes(le_byte(word, 0), le_byte(word, 1), le_byte(word, 2), le_byte(word, 3))
}

/// The value made from the word `word`.
pub fn word_to_value<V: From4LeBytes>(word: u32) -> (r: V)
    ensures
        r == value_of_word::<V>(word),
{
    V::from_4_le_bytes(le_bytes_of(word))
}

/// A value type whose bytes fit a 32-bit word, the value's low byte first
/// and the rest of the word zero.
pub trait CopyBytesToU32 {
    spec fn spec_copy_bytes_to_u32(&self) -> u32;

    fn copy_bytes_to_u32(&self) -> (r: u32)
        ensures
            r == self.spec_copy_bytes_to_u32(),
    ;
}

impl CopyBytesToU32 for u8 {
    open spec fn spec_copy_bytes_to_u32(&self) -> u32 {
        *self as u32
    }

    fn copy_bytes_to_u32(&self) -> (r: u32) {
        *self as u32
    }
}

impl CopyBytesToU32 for u16 {
    open spec fn spec_copy_bytes_to_u32(&self) -> u32 {
        *self as u32
    }

    fn copy_bytes_to_u32(&self) -> (r: u32) {
        *self as u32
    }
}

impl CopyBytesToU32 for u32 {
    open spec fn spec_copy_bytes_to_u32(&self) -> u32 {
        *self
    }

    fn copy_bytes_to_u32(&self) -> (r: u32) {
        *self
    }
}

/// A word that is cut down to a value and widened again keeps the bytes
/// that the value is wide.
pub proof fn law_word_round_trip(word: u32)
    ensures
        value_of_word::<u32>(word).spec_copy_bytes_to_u32() == word,
        value_of_word::<u16>(word).spec_copy_bytes_to_u32() == word % 65536,
        value_of_word::<u8>(word).spec_copy_bytes_to_u32() == word % 256,
{
}

} // verus!
