//! The mathematical model of SHA-0: message schedule, rounds, compression,
//! Merkle–Damgård chaining, padding and hexadecimal rendering.
use vstd::prelude::*;

verus! {

/// The chaining value a fresh hasher starts from.
pub open spec fn initial_state() -> Seq<u32> {
    seq![0x67452301u32, 0xefcdab89u32, 0x98badcfeu32, 0x10325476u32, 0xc3d2e1f0u32]
}

/// Addition modulo 2^32.
pub open spec fn add32(x: u32, y: u32) -> u32 {
    vstd::wrapping::u32_specs::wrapping_add(x, y)
}

/// Left rotation of a 32-bit word by `n` places, `0 < n < 32`.
pub open spec fn rotl(x: u32, n: u32) -> u32 {
    (x << n) | (x >> ((32 - n) as u32))
}

/// The `i`-th big-endian 32-bit word of `block`.
pub open spec fn be_word(block: Seq<u8>, i: int) -> u32 {
    ((block[4 * i] as u32) << 24u32) | ((block[4 * i + 1] as u32) << 16u32) | ((block[4
        * i + 2] as u32) << 8u32) | (block[4 * i + 3] as u32)
}

/// Word `t` of the message schedule of `block`. Beyond the sixteen words of
/// the block each word is the XOR of four earlier ones, without rotation.
pub open spec fn schedule(block: Seq<u8>, t: int) -> u32
    decreases t,
{
    if t < 16 {
        be_word(block, t)
    } else {
        schedule(block, t - 3) ^ schedule(block, t - 8) ^ schedule(block, t - 14) ^ schedule(
            block,
            t - 16,
        )
    }
}

/// The boolean function of round `t`.
pub open spec fn round_f(t: int, b: u32, c: u32, d: u32) -> u32 {
    if t < 20 {
        (b & c) | (!b & d)
    } else if t < 40 {
        b ^ c ^ d
    } else if t < 60 {
        (b & c) | (b & d) | (c & d)
    } else {
        b ^ c ^ d
    }
}

/// The additive constant of round `t`.
pub open spec fn round_k(t: int) -> u32 {
    if t < 20 {
        0x5a827999u32
    } else if t < 40 {
        0x6ed9eba1u32
    } else if t < 60 {
        0x8f1bbcdcu32
    } else {
        0xca62c1d6u32
    }
}

/// The working variables `(a, b, c, d, e)`.
pub type Regs = (u32, u32, u32, u32, u32);

/// One round: `t` is the round index, `wt` the schedule word it consumes.
pub open spec fn round(v: Regs, t: int, wt: u32) -> Regs {
    let temp = add32(add32(add32(add32(rotl(v.0, 5), round_f(t, v.1, v.2, v.3)), v.4), round_k(t)), wt);
    (temp, v.0, rotl(v.1, 30), v.2, v.3)
}

/// The working variables after the first `t` rounds over `block`, starting
/// from the chaining value `h`.
pub open spec fn rounds(h: Seq<u32>, block: Seq<u8>, t: nat) -> Regs
    decreases t,
{
    if t == 0 {
        (h[0], h[1], h[2], h[3], h[4])
    } else {
        round(rounds(h, block, (t - 1) as nat), t - 1, schedule(block, t - 1))
    }
}

/// The compression function: eighty rounds, then the feed-forward of `h`.
pub open spec fn compress(h: Seq<u32>, block: Seq<u8>) -> Seq<u32> {
    let v = rounds(h, block, 80);
    seq![add32(h[0], v.0), add32(h[1], v.1), add32(h[2], v.2), add32(h[3], v.3), add32(h[4], v.4)]
}

/// The chaining value after compressing every whole 64-byte block of `m`,
/// in order, starting from `h`. A trailing partial block is not read.
pub open spec fn absorb(h: Seq<u32>, m: Seq<u8>) -> Seq<u32>
    decreases m.len(),
{
    if m.len() < 64 {
        h
    } else {
        absorb(compress(h, m.take(64)), m.skip(64))
    }
}

/// A 64-bit value as eight bytes, most significant first.
pub open spec fn be_bytes64(x: u64) -> Seq<u8> {
    seq![
        (x >> 56u64) as u8,
        (x >> 48u64) as u8,
        (x >> 40u64) as u8,
        (x >> 32u64) as u8,
        (x >> 24u64) as u8,
        (x >> 16u64) as u8,
        (x >> 8u64) as u8,
        x as u8,
    ]
}

/// The bit length of a message of `len` bytes, as the 64-bit counter holds
/// it: modulo 2^64.
pub open spec fn bit_count(len: nat) -> u64 {
    ((8 * len) % 0x1_0000_0000_0000_0000) as u64
}

/// The number of zero bytes that padding puts after the `0x80` marker, so
/// that marker, zeros and length end on a 64-byte boundary.
pub open spec fn zero_count(len: nat) -> nat {
    ((55 - len) % 64) as nat
}

/// What padding appends to a message of `len` bytes: the byte `0x80`, zero
/// bytes up to 56 modulo 64, then the bit count, big-endian.
pub open spec fn pad_suffix(len: nat) -> Seq<u8> {
    seq![0x80u8] + Seq::new(zero_count(len), |i: int| 0u8) + be_bytes64(bit_count(len))
}

/// The padded message.
pub open spec fn padded(m: Seq<u8>) -> Seq<u8> {
    m + pad_suffix(m.len())
}

/// The ASCII code of the lowercase hexadecimal digit for `n < 16`.
pub open spec fn hex_digit(n: u32) -> u8 {
    if n < 10 {
        (n + 48) as u8
    } else {
        (n + 87) as u8
    }
}

/// A word as eight hexadecimal digits, most significant first.
pub open spec fn word_hex(w: u32) -> Seq<u8> {
    Seq::new(8, |i: int| hex_digit((w >> ((28 - 4 * i) as u32)) & 0xfu32))
}

/// Words rendered one after the other as hexadecimal text.
pub open spec fn words_hex(h: Seq<u32>) -> Seq<u8>
    decreases h.len(),
{
    if h.len() == 0 {
        Seq::empty()
    } else {
        words_hex(h.drop_last()) + word_hex(h.last())
    }
}

/// The SHA-0 digest of `m`, as ASCII codes of lowercase hexadecimal text.
pub open spec fn digest_ascii(m: Seq<u8>) -> Seq<u8> {
    words_hex(absorb(initial_state(), padded(m)))
}

/// The SHA-0 digest of `m` as text.
pub open spec fn digest_text(m: Seq<u8>) -> Seq<char> {
    digest_ascii(m).map_values(|b: u8| b as char)
}

/// Is `c` a lowercase hexadecimal digit?
pub open spec fn is_lower_hex(c: char) -> bool {
    ('0' <= c && c <= '9') || ('a' <= c && c <= 'f')
}

/// Is `b` the ASCII code of a lowercase hexadecimal digit?
pub open spec fn is_hex_ascii(b: u8) -> bool {
    (48 <= b && b <= 57) || (97 <= b && b <= 102)
}

/// Absorbing a whole number of blocks and then more equals absorbing the
/// concatenation: the chaining value depends on the message alone, not on
/// how it was cut into chunks.
pub proof fn lemma_absorb_concat(h: Seq<u32>, a: Seq<u8>, b: Seq<u8>)
    requires
        a.len() % 64 == 0,
    ensures
        absorb(h, a + b) == absorb(absorb(h, a), b),
    decreases a.len(),
{
    if a.len() == 0 {
        assert(a + b =~= b);
    } else {
        assert((a + b).take(64) =~= a.take(64));
        assert((a + b).skip(64) =~= a.skip(64) + b);
        lemma_absorb_concat(compress(h, a.take(64)), a.skip(64), b);
    }
}

/// Absorbing exactly one block is one compression.
pub proof fn lemma_absorb_block(h: Seq<u32>, block: Seq<u8>)
    requires
        block.len() == 64,
    ensures
        absorb(h, block) == compress(h, block),
{
    assert(block.take(64) =~= block);
    assert(block.skip(64).len() == 0);
    assert(absorb(compress(h, block), block.skip(64)) == compress(h, block));
}

/// Absorbing keeps a chaining value of five words.
pub proof fn lemma_absorb_len(h: Seq<u32>, m: Seq<u8>)
    requires
        h.len() == 5,
    ensures
        absorb(h, m).len() == 5,
    decreases m.len(),
{
    if m.len() >= 64 {
        lemma_absorb_len(compress(h, m.take(64)), m.skip(64));
    }
}

proof fn lemma_nibble(x: u32)
    by (bit_vector)
    ensures
        x & 0xfu32 < 16,
{
}

/// Hexadecimal text has eight digits per word, each a lowercase digit.
pub proof fn lemma_words_hex_shape(h: Seq<u32>)
    ensures
        words_hex(h).len() == 8 * h.len(),
        forall|i: int| 0 <= i < words_hex(h).len() ==> is_hex_ascii(#[trigger] words_hex(h)[i]),
    decreases h.len(),
{
    if h.len() > 0 {
        lemma_words_hex_shape(h.drop_last());
        let w = h.last();
        assert forall|i: int| 0 <= i < 8 implies is_hex_ascii(#[trigger] word_hex(w)[i]) by {
            lemma_nibble(w >> ((28 - 4 * i) as u32));
        }
        let prev = words_hex(h.drop_last());
        assert forall|i: int| 0 <= i < words_hex(h).len() implies is_hex_ascii(
            #[trigger] words_hex(h)[i],
        ) by {
            if i >= prev.len() {
                assert(words_hex(h)[i] == word_hex(w)[i - prev.len()]);
            }
        }
    }
}

/// Every digest is exactly forty lowercase hexadecimal characters, whatever
/// the message, the empty one included.
pub proof fn lemma_digest_shape(m: Seq<u8>)
    ensures
        digest_text(m).len() == 40,
        forall|i: int| 0 <= i < 40 ==> is_lower_hex(#[trigger] digest_text(m)[i]),
{
    let h = absorb(initial_state(), padded(m));
    lemma_absorb_len(initial_state(), padded(m));
    lemma_words_hex_shape(h);
    assert forall|i: int| 0 <= i < 40 implies is_lower_hex(#[trigger] digest_text(m)[i]) by {
        let b = words_hex(h)[i];
        assert(is_hex_ascii(b));
        assert(digest_text(m)[i] == b as char);
    }
}

/// Padding ends on a block boundary: the padded message is the shortest
/// whole number of blocks that holds the message and at least nine more
/// bytes (the marker and the bit count). A message of 55 bytes fits in one
/// block; one of 56 spills into a second.
pub proof fn lemma_padded_length(m: Seq<u8>)
    ensures
        padded(m).len() % 64 == 0,
        m.len() + 9 <= padded(m).len() < m.len() + 73,
        padded(m).take(m.len() as int) == m,
{
    assert(padded(m).take(m.len() as int) =~= m);
}

} // verus!
