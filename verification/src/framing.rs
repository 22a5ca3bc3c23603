//! Frame headers of the encrypted payload: a big-endian 32-bit word whose top
//! bit marks the terminal frame and whose low 31 bits give the ciphertext length.

use vstd::prelude::*;

verus! {

/// Largest ciphertext length a frame header can carry.
pub const MAX_FRAME_LEN: usize = 0x7FFF_FFFF;

/// The 32-bit word a header carries: the length, plus the top bit for the last frame.
pub open spec fn header_word(is_last: bool, len: nat) -> nat {
    if is_last {
        len + 0x8000_0000
    } else {
        len
    }
}

/// The four bytes of `word`, most significant first.
pub open spec fn be32(word: nat) -> Seq<u8> {
    seq![
        ((word / 0x100_0000) % 0x100) as u8,
        ((word / 0x1_0000) % 0x100) as u8,
        ((word / 0x100) % 0x100) as u8,
        (word % 0x100) as u8,
    ]
}

/// The number that four bytes spell, most significant first.
pub open spec fn be32_value(b: Seq<u8>) -> nat {
    (b[0] as nat) * 0x100_0000 + (b[1] as nat) * 0x1_0000 + (b[2] as nat) * 0x100 + (b[3] as nat)
}

/// Whether a header word marks the terminal frame.
pub open spec fn word_is_last(word: nat) -> bool {
    word >= 0x8000_0000
}

/// The ciphertext length a header word announces.
pub open spec fn word_len(word: nat) -> nat {
    if word >= 0x8000_0000 {
        (word - 0x8000_0000) as nat
    } else {
        word
    }
}

/// Encodes a frame header.
pub fn pack_chunk_header(is_last: bool, len: usize) -> (r: [u8; 4])
    requires
        len <= MAX_FRAME_LEN,
    ensures
        r@ == be32(header_word(is_last, len as nat)),
{
    let low: u32 = len as u32;
    let v: u32 = if is_last { low + 0x8000_0000u32 } else { low };
    let r: [u8; 4] = [
        ((v / 0x100_0000) % 0x100) as u8,
        ((v / 0x1_0000) % 0x100) as u8,
        ((v / 0x100) % 0x100) as u8,
        (v % 0x100) as u8,
    ];
    assert(r@ =~= be32(header_word(is_last, len as nat)));
    r
}

/// What a header says: the terminal flag and the announced length. A
/// header that announces no bytes says nothing: no frame is empty.
pub open spec fn decoded_header(b: Seq<u8>) -> Option<(bool, nat)> {
    let word = be32_value(b);
    if word_len(word) == 0 {
        None
    } else {
        Some((word_is_last(word), word_len(word)))
    }
}

/// Decodes a frame header into the terminal flag and the announced length.
/// A header whose low 31 bits are zero is refused.
pub fn unpack_chunk_header(b: [u8; 4]) -> (r: Option<(bool, usize)>)
    ensures
        match r {
            Some((last, len)) => decoded_header(b@) == Some((last, len as nat)) && 1 <= len
                <= MAX_FRAME_LEN,
            None => decoded_header(b@) is None,
        },
{
    let v: u32 = (b[0] as u32) * 0x100_0000 + (b[1] as u32) * 0x1_0000 + (b[2] as u32) * 0x100 + (
    b[3] as u32);
    if v == 0 || v == 0x8000_0000 {
        None
    } else if v >= 0x8000_0000 {
        Some((true, (v - 0x8000_0000) as usize))
    } else {
        Some((false, v as usize))
    }
}

/// Decoding an encoded header gives back the flag and the length, for every
/// length from one up to the largest that fits in 31 bits.
pub proof fn lemma_header_round_trip(is_last: bool, len: nat)
    requires
        1 <= len <= MAX_FRAME_LEN,
    ensures
        be32(header_word(is_last, len)).len() == 4,
        decoded_header(be32(header_word(is_last, len))) == Some((is_last, len)),
{
    let w = header_word(is_last, len);
    lemma_be32_reads_back(w);
}

/// The four bytes of a word below 2^32 spell that word.
pub proof fn lemma_be32_reads_back(word: nat)
    requires
        word < 0x1_0000_0000,
    ensures
        be32(word).len() == 4,
        be32_value(be32(word)) == word,
{
    let a = word / 0x100_0000;
    let b = (word / 0x1_0000) % 0x100;
    let c = (word / 0x100) % 0x100;
    let d = word % 0x100;
    assert(a < 0x100 && word == a * 0x100_0000 + b * 0x1_0000 + c * 0x100 + d) by (nonlinear_arith)
        requires
            word < 0x1_0000_0000,
            a == word / 0x100_0000,
            b == (word / 0x1_0000) % 0x100,
            c == (word / 0x100) % 0x100,
            d == word % 0x100,
    ;
    assert(a % 0x100 == a);
}

} // verus!
