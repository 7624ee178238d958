//! The checksum that guards the state record, and the bytes it runs over.

use vstd::endian::{endianness, Endian};
use vstd::prelude::*;

verus! {

/// The CRC-32/MPEG-2 checksum of a byte string: polynomial 0x04C11DB7, initial
/// value 0xFFFFFFFF, no reflection, no final XOR.
pub uninterp spec fn crc32_mpeg2(bytes: Seq<u8>) -> u32;

/// The four bytes of a word as they lie in the memory of the machine that
/// runs the code: least significant byte first on a little-endian machine,
/// most significant byte first on a big-endian one.
pub open spec fn word_bytes(word: u32) -> Seq<u8> {
    match endianness() {
        Endian::Little => seq![
            (word & 0xff) as u8,
            ((word >> 8) & 0xff) as u8,
            ((word >> 16) & 0xff) as u8,
            ((word >> 24) & 0xff) as u8,
        ],
        Endian::Big => seq![
            ((word >> 24) & 0xff) as u8,
            ((word >> 16) & 0xff) as u8,
            ((word >> 8) & 0xff) as u8,
            (word & 0xff) as u8,
        ],
    }
}

/// The bytes of a sequence of words, word after word.
pub open spec fn words_bytes(words: Seq<u32>) -> Seq<u8> {
    Seq::new(4 * words.len(), |i: int| word_bytes(words[i / 4])[i % 4])
}

/// Calls `crc::Crc::<u32>::checksum` of the crc crate with the algorithm
/// `crc::CRC_32_MPEG_2`. Trusted: the result is the CRC-32/MPEG-2 checksum of
/// `bytes`, a function of the bytes alone.
#[verifier::external_body]
pub(crate) fn crc32_mpeg2_checksum(bytes: &[u8]) -> (crc: u32)
    ensures
        crc == crc32_mpeg2(bytes@),
{
    crc::Crc::<u32>::new(&crc::CRC_32_MPEG_2).checksum(bytes)
}

/// Calls `u32::to_ne_bytes`. Trusted: the result holds the bytes of `word` in
/// the byte order of the machine.
#[verifier::external_body]
pub(crate) fn native_bytes(word: u32) -> (bytes: [u8; 4])
    ensures
        bytes@ == word_bytes(word),
{
    word.to_ne_bytes()
}

} // verus!
