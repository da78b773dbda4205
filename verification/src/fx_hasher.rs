//! A fast, non-cryptographic hasher for internal hash tables whose iteration
//! order never reaches any output.

use crate::bytes::{read_word, spelled};
use std::hash::{BuildHasherDefault, Hasher};
use vstd::prelude::*;

verus! {

/// What every word is multiplied by.
pub const SEED: u64 = 0x51_7c_c1_b7_27_22_0a_95;

/// The state of a hash computation.
#[derive(Clone, Copy, Debug)]
pub struct FxHasher {
    hash: u64,
}

/// Builds hashers that start from zero.
pub type FxBuildHasher = BuildHasherDefault<FxHasher>;

/// `x` turned left by five places.
pub open spec fn turn(x: u64) -> u64 {
    (x << 5) | (x >> 59)
}

/// The hash after one more word.
pub open spec fn fx_word(hash: u64, word: u64) -> u64 {
    (((turn(hash) ^ word) as nat * SEED as nat) % 0x1_0000_0000_0000_0000) as u64
}

/// How many bytes the next word takes when `n` are left.
pub open spec fn word_size(n: int) -> int {
    if n >= 8 {
        8
    } else if n >= 4 {
        4
    } else if n >= 2 {
        2
    } else {
        1
    }
}

/// The hash after the bytes: words of eight as long as there are as many, then
/// at most one each of four, two and one.
pub open spec fn fx_bytes(hash: u64, bytes: Seq<u8>, little: bool) -> u64
    decreases bytes.len(),
{
    if bytes.len() == 0 {
        hash
    } else {
        let k = word_size(bytes.len() as int);
        fx_bytes(
            fx_word(hash, spelled(bytes.take(k), little) as u64),
            bytes.skip(k),
            little,
        )
    }
}

/// The hash after the first `n` words of eight bytes.
pub open spec fn fx_words(hash: u64, bytes: Seq<u8>, n: int, little: bool) -> u64
    decreases n,
{
    if n <= 0 {
        hash
    } else {
        fx_word(
            fx_words(hash, bytes, n - 1, little),
            spelled(bytes.subrange(8 * (n - 1), 8 * n), little) as u64,
        )
    }
}

/// The hash after the next `size` bytes, and what is left, if there are as many.
pub open spec fn fx_part(state: (u64, Seq<u8>), size: int, little: bool) -> (u64, Seq<u8>) {
    if state.1.len() >= size {
        (
            fx_word(state.0, spelled(state.1.take(size), little) as u64),
            state.1.skip(size),
        )
    } else {
        state
    }
}

/// Turning a word left by five places is multiplying it by thirty-two and putting what runs
/// over at the other end. Nothing is lost.
pub proof fn law_turn_rotates(x: u64, y: u64)
    ensures
        turn(x) == (x * 32) % 0x1_0000_0000_0000_0000 + x / 0x800_0000_0000_0000,
        turn(x) == turn(y) ==> x == y,
{
    assert(((x << 5) | (x >> 59)) == (x * 32) % 0x1_0000_0000_0000_0000 + x
        / 0x800_0000_0000_0000) by (bit_vector);
    assert(((x << 5) | (x >> 59)) == ((y << 5) | (y >> 59)) ==> x == y) by (bit_vector);
}

/// Multiplying by the seed can be undone, for it is odd.
proof fn lemma_seed_has_inverse(a: int)
    requires
        0 <= a < 0x1_0000_0000_0000_0000,
    ensures
        ((a * SEED) % 0x1_0000_0000_0000_0000 * 0x2040_003d_7809_70bd) % 0x1_0000_0000_0000_0000
            == a,
{
    let m = 0x1_0000_0000_0000_0000int;
    let inverse = 0x2040_003d_7809_70bdint;
    let seed = SEED as int;
    vstd::arithmetic::div_mod::lemma_mul_mod_noop_left(a * seed, inverse, m);
    assert(a * seed * inverse == a * (seed * inverse)) by (nonlinear_arith);
    vstd::arithmetic::div_mod::lemma_mul_mod_noop_right(a, seed * inverse, m);
    assert(seed * inverse == 0xa43_f77a_e39d_ae8dint * m + 1) by (nonlinear_arith)
        requires
            seed == 0x517c_c1b7_2722_0a95int,
            inverse == 0x2040_003d_7809_70bdint,
            m == 0x1_0000_0000_0000_0000int,
    ;
    vstd::arithmetic::div_mod::lemma_fundamental_div_mod_converse(
        seed * inverse,
        m,
        0xa43_f77a_e39d_ae8dint,
        1,
    );
    vstd::arithmetic::div_mod::lemma_small_mod(a as nat, m as nat);
}

/// No hash forgets anything at once: after the same hash, different words give different
/// hashes, and after the same word, different hashes stay different.
pub proof fn law_word_is_not_lost(hash: u64, other: u64, word: u64, another: u64)
    ensures
        fx_word(hash, word) == fx_word(hash, another) ==> word == another,
        fx_word(hash, word) == fx_word(other, word) ==> hash == other,
{
    lemma_seed_has_inverse((turn(hash) ^ word) as int);
    lemma_seed_has_inverse((turn(hash) ^ another) as int);
    lemma_seed_has_inverse((turn(other) ^ word) as int);
    let (h, o) = (turn(hash), turn(other));
    assert(h ^ word == h ^ another ==> word == another) by (bit_vector);
    assert(h ^ word == o ^ word ==> h == o) by (bit_vector);
    law_turn_rotates(hash, other);
}

/// Hashing no bytes changes nothing. Hashing bytes that end a word, and others after
/// them, is hashing the one and then the other, in either byte order.
pub proof fn law_hashing_goes_on(hash: u64, a: Seq<u8>, b: Seq<u8>, little: bool)
    requires
        a.len() % 8 == 0,
    ensures
        fx_bytes(hash, Seq::empty(), little) == hash,
        fx_bytes(hash, a + b, little) == fx_bytes(fx_bytes(hash, a, little), b, little),
    decreases a.len(),
{
    if a.len() == 0 {
        assert(a + b =~= b);
    } else {
        let word = spelled(a.take(8), little) as u64;
        assert((a + b).take(8) =~= a.take(8));
        assert((a + b).skip(8) =~= a.skip(8) + b);
        law_hashing_goes_on(fx_word(hash, word), a.skip(8), b, little);
    }
}

/// Bytes are hashed as words of eight bytes, in order, and what is left as at most one
/// word each of four, two and one, in either byte order.
pub proof fn law_bytes_are_hashed_as_words(hash: u64, bytes: Seq<u8>, little: bool)
    ensures
        ({
            let n = bytes.len() as int / 8;
            let words = (fx_words(hash, bytes, n, little), bytes.skip(8 * n));
            fx_bytes(hash, bytes, little) == fx_part(
                fx_part(fx_part(words, 4, little), 2, little),
                1,
                little,
            ).0
        }),
{
    let n = bytes.len() as int / 8;
    lemma_words_first(hash, bytes, n, little);
    reveal_with_fuel(fx_bytes, 4);
}

/// The words of eight bytes come first.
proof fn lemma_words_first(hash: u64, bytes: Seq<u8>, n: int, little: bool)
    requires
        0 <= 8 * n <= bytes.len(),
    ensures
        fx_bytes(hash, bytes, little) == fx_bytes(
            fx_words(hash, bytes, n, little),
            bytes.skip(8 * n),
            little,
        ),
    decreases n,
{
    if n == 0 {
        assert(bytes.skip(0) =~= bytes);
    } else {
        lemma_words_first(hash, bytes, n - 1, little);
        let rest = bytes.skip(8 * (n - 1));
        assert(rest.take(8) =~= bytes.subrange(8 * (n - 1), 8 * n));
        assert(rest.skip(8) =~= bytes.skip(8 * n));
    }
}

/// The result of `u16::from_ne_bytes`: the two bytes in the byte order of the
/// machine, which is one of two.
#[verifier::external_body]
fn native_u16(bytes: [u8; 2]) -> (r: u16)
    ensures
        r == bytes@[0] + 256 * bytes@[1] || r == 256 * bytes@[0] + bytes@[1],
{
    u16::from_ne_bytes(bytes)
}

impl Default for FxHasher {
    fn default() -> (r: Self)
        ensures
            r.state() == 0,
    {
        FxHasher { hash: 0 }
    }
}

impl FxHasher {
    /// The hash of what was written so far.
    pub closed spec fn state(&self) -> u64 {
        self.hash
    }

    fn add_to_hash(&mut self, i: u64)
        ensures
            final(self).state() == fx_word(old(self).state(), i),
    {
        self.hash = (((self.hash << 5) | (self.hash >> 59)) ^ i).wrapping_mul(SEED);
    }

    /// Adds the bytes, read in the given byte order.
    pub fn write_in_order(&mut self, bytes: &[u8], little: bool)
        ensures
            final(self).state() == fx_bytes(old(self).state(), bytes@, little),
    {
        let n: usize = bytes.len();
        let mut at: usize = 0;
        assert(bytes@.skip(0) =~= bytes@);
        while at < n
            invariant
                n == bytes@.len(),
                at <= n,
                fx_bytes(old(self).state(), bytes@, little) == fx_bytes(
                    self.state(),
                    bytes@.skip(at as int),
                    little,
                ),
            decreases n - at,
        {
            let left: usize = n - at;
            let k: usize = if left >= 8 {
                8
            } else if left >= 4 {
                4
            } else if left >= 2 {
                2
            } else {
                1
            };
            proof {
                let rest = bytes@.skip(at as int);
                assert(rest.take(k as int) =~= bytes@.subrange(at as int, at + k));
                assert(rest.skip(k as int) =~= bytes@.skip(at + k));
            }
            self.add_to_hash(read_word(bytes, at, k, little));
            at += k;
        }
    }
}

impl Hasher for FxHasher {
    /// Adds the bytes, read in the byte order of the machine.
    fn write(&mut self, bytes: &[u8])
        ensures
            exists|little: bool|
                final(self).state() == #[trigger] fx_bytes(old(self).state(), bytes@, little),
    {
        let little: bool = native_u16([1, 0]) == 1;
        self.write_in_order(bytes, little);
    }

    fn write_u8(&mut self, i: u8)
        ensures
            final(self).state() == fx_word(old(self).state(), i as u64),
    {
        self.add_to_hash(i as u64);
    }

    fn write_u16(&mut self, i: u16)
        ensures
            final(self).state() == fx_word(old(self).state(), i as u64),
    {
        self.add_to_hash(i as u64);
    }

    fn write_u32(&mut self, i: u32)
        ensures
            final(self).state() == fx_word(old(self).state(), i as u64),
    {
        self.add_to_hash(i as u64);
    }

    fn write_u64(&mut self, i: u64)
        ensures
            final(self).state() == fx_word(old(self).state(), i),
    {
        self.add_to_hash(i);
    }

    fn write_usize(&mut self, i: usize)
        ensures
            final(self).state() == fx_word(old(self).state(), i as u64),
    {
        self.add_to_hash(i as u64);
    }

    fn finish(&self) -> (r: u64)
        ensures
            r == self.state(),
    {
        self.hash
    }
}

} // verus!
