//! The incremental SHA-0 hasher and its block compressor.
use crate::model::{
    absorb, bit_count, compress, digest_text, hex_digit, initial_state, lemma_absorb_block,
    lemma_absorb_concat, lemma_words_hex_shape, pad_suffix, padded, rotl, rounds, schedule,
    word_hex, words_hex, zero_count,
};
use vstd::prelude::*;

verus! {

/// An incremental SHA-0 hasher: feed it bytes with `update`, in chunks of
/// any size, then consume it with `finalize` to get the digest.
///
/// The bit-length counter is 64 bits wide and wraps around: a message of
/// 2^61 bytes or more is outside the algorithm's domain, and its length is
/// taken modulo 2^64 bits, as the counter holds it.
pub struct Sha0 {
    /// The chaining value.
    h: [u32; 5],
    /// Bytes received that do not yet form a whole block.
    data: Vec<u8>,
    /// The number of bits received, modulo 2^64.
    length: u64,
    /// Every byte received so far.
    msg: Ghost<Seq<u8>>,
}

impl View for Sha0 {
    type V = Seq<u8>;

    /// The message received so far.
    closed spec fn view(&self) -> Seq<u8> {
        self.msg@
    }
}

impl Sha0 {
    /// The bytes received split into whole blocks, already compressed into
    /// the chaining value, and a pending tail of under one block.
    spec fn buffered(&self) -> bool {
        let m = self.msg@;
        let n = m.len() - self.data@.len();
        &&& self.data@.len() < 64
        &&& self.data@.len() <= m.len()
        &&& n % 64 == 0
        &&& self.data@ == m.subrange(n, m.len() as int)
        &&& self.h@ == absorb(initial_state(), m.take(n))
    }

    /// The hasher's invariant.
    pub closed spec fn wf(&self) -> bool {
        &&& self.buffered()
        &&& self.length == bit_count(self.msg@.len())
    }

    /// A hasher that has received nothing.
    pub fn new() -> (r: Self)
        ensures
            r.wf(),
            r@ == Seq::<u8>::empty(),
    {
        let r = Sha0 {
            h: [0x67452301, 0xefcdab89, 0x98badcfe, 0x10325476, 0xc3d2e1f0],
            data: Vec::new(),
            length: 0,
            msg: Ghost(Seq::empty()),
        };
        assert(r.h@ =~= initial_state());
        assert(r.msg@.take(0) =~= Seq::<u8>::empty());
        assert(r.data@ =~= r.msg@.subrange(0, 0));
        r
    }

    /// Feeds `input` to the hasher. Whole blocks are compressed as soon as
    /// they are complete; calling this on chunks is the same as calling it
    /// once on their concatenation.
    pub fn update(&mut self, input: &[u8])
        requires
            old(self).wf(),
        ensures
            final(self).wf(),
            final(self)@ == old(self)@ + input@,
    {
        let ghost m0 = self.msg@;
        let n = input.len();
        self.length = self.length.wrapping_add((n as u64).wrapping_mul(8));
        proof {
            lemma_bit_count_add(m0.len(), n as nat);
        }
        let mut i: usize = 0;
        while i < n
            invariant
                n == input@.len(),
                i <= n,
                self.buffered(),
                self.msg@ == m0 + input@.take(i as int),
                self.length == bit_count((m0.len() + n) as nat),
            decreases n - i,
        {
            let ghost m = self.msg@;
            let ghost p = m.len() - self.data@.len();
            self.data.push(input[i]);
            self.msg = Ghost(m.push(input@[i as int]));
            assert(input@.take(i + 1) =~= input@.take(i as int).push(input@[i as int]));
            assert(self.data@ =~= self.msg@.subrange(p, self.msg@.len() as int));
            assert(self.msg@.take(p) =~= m.take(p));
            if self.data.len() == 64 {
                proof {
                    let mm = self.msg@;
                    assert(mm.take(p) + self.data@ =~= mm.take(mm.len() as int));
                    lemma_absorb_concat(initial_state(), mm.take(p), self.data@);
                    lemma_absorb_block(absorb(initial_state(), mm.take(p)), self.data@);
                    assert(self.data@.subrange(0, 64) =~= self.data@);
                }
                self.h = process_block(self.h, self.data.as_slice(), 0);
                self.data.clear();
                assert(self.data@ =~= self.msg@.subrange(
                    self.msg@.len() as int,
                    self.msg@.len() as int,
                ));
            }
            i += 1;
        }
        assert(input@.take(n as int) =~= input@);
    }

    /// Consumes the hasher: pads the message, compresses the last block or
    /// two, and returns the digest as forty lowercase hexadecimal digits.
    pub fn finalize(self) -> (r: String)
        requires
            self.wf(),
        ensures
            r@ == digest_text(self@),
    {
        let mut s = self;
        let ghost m = s.msg@;
        let ghost p = m.len() - s.data@.len();
        s.pad();
        let ghost d = s.data@;
        proof {
            assert(m.take(p) + d =~= padded(m));
            lemma_absorb_concat(initial_state(), m.take(p), d);
            assert(d.skip(0) =~= d);
        }
        let total = s.data.len();
        let mut off: usize = 0;
        while off < total
            invariant
                total == d.len(),
                d == s.data@,
                total % 64 == 0,
                off % 64 == 0,
                off <= total,
                absorb(s.h@, d.skip(off as int)) == absorb(initial_state(), padded(m)),
            decreases total - off,
        {
            assert(d.skip(off as int).take(64) =~= d.subrange(off as int, off + 64));
            assert(d.skip(off as int).skip(64) =~= d.skip(off + 64));
            s.h = process_block(s.h, s.data.as_slice(), off);
            off += 64;
        }
        let mut out: Vec<u8> = Vec::new();
        let mut j: usize = 0;
        while j < 5
            invariant
                j <= 5,
                s.h@.len() == 5,
                out@ == words_hex(s.h@.take(j as int)),
            decreases 5 - j,
        {
            push_word_hex(&mut out, s.h[j]);
            assert(s.h@.take(j + 1).drop_last() =~= s.h@.take(j as int));
            j += 1;
        }
        proof {
            assert(s.h@.take(5) =~= s.h@);
            lemma_words_hex_shape(s.h@);
        }
        ascii_string(out)
    }

    /// Appends the padding: the byte `0x80`, zero bytes up to 56 modulo 64,
    /// and the bit count as eight big-endian bytes.
    fn pad(&mut self)
        requires
            old(self).wf(),
        ensures
            final(self).h == old(self).h,
            final(self).msg == old(self).msg,
            final(self).length == old(self).length,
            final(self).data@ == old(self).data@ + pad_suffix(old(self).msg@.len()),
            final(self).data@.len() % 64 == 0,
    {
        let ghost d0 = self.data@;
        let ghost len = self.msg@.len();
        let ghost target: int = if d0.len() + 1 <= 56 {
            56
        } else {
            120
        };
        self.data.push(0x80);
        assert(self.data@ =~= d0 + seq![0x80u8] + Seq::new(0, |i: int| 0u8));
        while self.data.len() % 64 != 56
            invariant
                d0.len() < 64,
                target == (if d0.len() + 1 <= 56 {
                    56int
                } else {
                    120int
                }),
                d0.len() + 1 <= self.data@.len() <= target,
                self.data@ == d0 + seq![0x80u8] + Seq::new(
                    (self.data@.len() - d0.len() - 1) as nat,
                    |i: int| 0u8,
                ),
                self.h == old(self).h,
                self.msg == old(self).msg,
                self.length == old(self).length,
            decreases target - self.data@.len(),
        {
            self.data.push(0);
            assert(self.data@ =~= d0 + seq![0x80u8] + Seq::new(
                (self.data@.len() - d0.len() - 1) as nat,
                |i: int| 0u8,
            ));
        }
        assert(self.data@.len() == target);
        assert(zero_count(len) == target - d0.len() - 1);
        let x = self.length;
        self.data.push((x >> 56u64) as u8);
        self.data.push((x >> 48u64) as u8);
        self.data.push((x >> 40u64) as u8);
        self.data.push((x >> 32u64) as u8);
        self.data.push((x >> 24u64) as u8);
        self.data.push((x >> 16u64) as u8);
        self.data.push((x >> 8u64) as u8);
        self.data.push(x as u8);
        assert(self.data@ =~= d0 + pad_suffix(len));
    }
}

/// The ASCII code of the lowercase hexadecimal digit for `n`.
fn hex_digit_byte(n: u32) -> (r: u8)
    requires
        n < 16,
    ensures
        r == hex_digit(n),
{
    if n < 10 {
        (n + 48) as u8
    } else {
        (n + 87) as u8
    }
}

/// Appends `w` to `out` as eight hexadecimal digits.
fn push_word_hex(out: &mut Vec<u8>, w: u32)
    ensures
        final(out)@ == old(out)@ + word_hex(w),
{
    let ghost o = out@;
    let mut i: u32 = 0;
    while i < 8
        invariant
            i <= 8,
            out@ == o + word_hex(w).take(i as int),
        decreases 8 - i,
    {
        let shift: u32 = 28 - 4 * i;
        let nibble = (w >> shift) & 0xf;
        assert(nibble < 16) by (bit_vector)
            requires
                nibble == (w >> shift) & 0xf,
        ;
        out.push(hex_digit_byte(nibble));
        assert(word_hex(w).take(i + 1) =~= word_hex(w).take(i as int).push(word_hex(w)[i as int]));
        i += 1;
    }
    assert(word_hex(w).take(8) =~= word_hex(w));
}

/// Relies on `String::from_utf8`: bytes below 128 are valid UTF-8, each one
/// `char` of the same value, so the conversion succeeds and keeps them.
#[verifier::external_body]
fn ascii_string(bytes: Vec<u8>) -> (r: String)
    requires
        forall|i: int| 0 <= i < bytes@.len() ==> bytes@[i] < 128,
    ensures
        r@ == bytes@.map_values(|b: u8| b as char),
{
    String::from_utf8(bytes).unwrap_or_default()
}

/// The counter's update matches counting the concatenation.
proof fn lemma_bit_count_add(len: nat, n: nat)
    requires
        n <= u64::MAX,
    ensures
        bit_count(len + n) == vstd::wrapping::u64_specs::wrapping_add(
            bit_count(len),
            vstd::wrapping::u64_specs::wrapping_mul(n as u64, 8),
        ),
{
    let m: int = 0x1_0000_0000_0000_0000;
    vstd::arithmetic::div_mod::lemma_add_mod_noop(8 * len as int, 8 * n as int, m);
    assert(8 * (len + n) == 8 * len + 8 * n);
}

/// Left rotation of a 32-bit word by `n` places.
fn rotate_left(x: u32, n: u32) -> (r: u32)
    requires
        0 < n < 32,
    ensures
        r == rotl(x, n),
{
    (x << n) | (x >> (32 - n))
}

/// Compresses the 64 bytes of `data` from `start` into the chaining value `h`.
fn process_block(h: [u32; 5], data: &[u8], start: usize) -> (r: [u32; 5])
    requires
        start + 64 <= data@.len(),
    ensures
        r@ == compress(h@, data@.subrange(start as int, start + 64)),
{
    let ghost block = data@.subrange(start as int, start + 64);
    let mut w: Vec<u32> = Vec::new();
    let len = data.len();
    let mut t: usize = 0;
    while t < 16
        invariant
            len == data@.len(),
            start + 64 <= data@.len(),
            block == data@.subrange(start as int, start + 64),
            t <= 16,
            w@.len() == t,
            forall|j: int| 0 <= j < t ==> w@[j] == schedule(block, j),
        decreases 16 - t,
    {
        assert(start + 4 * t + 3 < data@.len());
        let p = start + 4 * t;
        let word = ((data[p] as u32) << 24u32) | ((data[p + 1] as u32) << 16u32) | ((data[p
            + 2] as u32) << 8u32) | (data[p + 3] as u32);
        w.push(word);
        t += 1;
    }
    while t < 80
        invariant
            16 <= t <= 80,
            w@.len() == t,
            forall|j: int| 0 <= j < t ==> w@[j] == schedule(block, j),
        decreases 80 - t,
    {
        let x = w[t - 3] ^ w[t - 8] ^ w[t - 14] ^ w[t - 16];
        assert(w@[t - 3] == schedule(block, t - 3));
        assert(w@[t - 8] == schedule(block, t - 8));
        assert(w@[t - 14] == schedule(block, t - 14));
        assert(w@[t - 16] == schedule(block, t - 16));
        assert(x == schedule(block, t as int));
        w.push(x);
        t += 1;
    }
    let mut a = h[0];
    let mut b = h[1];
    let mut c = h[2];
    let mut d = h[3];
    let mut e = h[4];
    t = 0;
    while t < 80
        invariant
            t <= 80,
            w@.len() == 80,
            forall|j: int| 0 <= j < 80 ==> w@[j] == schedule(block, j),
            (a, b, c, d, e) == rounds(h@, block, t as nat),
        decreases 80 - t,
    {
        let f: u32;
        let k: u32;
        if t < 20 {
            f = (b & c) | (!b & d);
            k = 0x5a827999;
        } else if t < 40 {
            f = b ^ c ^ d;
            k = 0x6ed9eba1;
        } else if t < 60 {
            f = (b & c) | (b & d) | (c & d);
            k = 0x8f1bbcdc;
        } else {
            f = b ^ c ^ d;
            k = 0xca62c1d6;
        }
        let temp = rotate_left(a, 5).wrapping_add(f).wrapping_add(e).wrapping_add(k).wrapping_add(
            w[t],
        );
        e = d;
        d = c;
        c = rotate_left(b, 30);
        b = a;
        a = temp;
        t += 1;
    }
    let r = [
        h[0].wrapping_add(a),
        h[1].wrapping_add(b),
        h[2].wrapping_add(c),
        h[3].wrapping_add(d),
        h[4].wrapping_add(e),
    ];
    assert(r@ =~= compress(h@, block));
    r
}

} // verus!
