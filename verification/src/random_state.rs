//! Per-map hasher keys.

use vstd::prelude::*;
use crate::ahash::{AHasher, HasherState, update_spec, finish_spec};
use crate::key::MapKey;
use vstd::bytes::{spec_u64_from_le_bytes, u64_from_le_bytes};

verus! {

/// Calls `std::hash::RandomState::new`, which draws fresh random keys; nothing is
/// promised of the keys it holds.
#[verifier::external_body]
fn system_random_state() -> std::hash::RandomState {
    std::hash::RandomState::new()
}

/// Calls `std::hash::BuildHasher::hash_one` on a randomly keyed system hasher; the
/// result depends on those random keys, so nothing is promised of it.
#[verifier::external_body]
fn system_hash_one(rs: &std::hash::RandomState, x: u64) -> u64 {
    std::hash::BuildHasher::hash_one(rs, x)
}

/// The word made of the eight bytes of `b` from `off`, least significant
/// first.
pub open spec fn seed_word(b: Seq<u8>, off: int) -> u64 {
    spec_u64_from_le_bytes(b.subrange(off, off + 8))
}

/// Reads one seed word from `b` at `off`.
fn read_seed_word(b: &[u8; 64], off: usize) -> (r: u64)
    requires
        off + 8 <= 64,
    ensures
        r == seed_word(b@, off as int),
{
    u64_from_le_bytes(vstd::slice::slice_subrange(b.as_slice(), off, off + 8))
}

/// The two groups of four seed words that 64 random bytes make: word `j` of
/// group `g` is read, least significant byte first, from bytes
/// `32 * g + 8 * j` to `32 * g + 8 * j + 8`.
pub fn seeds_from_bytes(b: &[u8; 64]) -> (r: [[u64; 4]; 2])
    ensures
        forall|g: int, j: int|
            0 <= g < 2 && 0 <= j < 4 ==> #[trigger] r@[g]@[j] == seed_word(b@, 32 * g + 8 * j),
{
    let r = [
        [
            read_seed_word(b, 0),
            read_seed_word(b, 8),
            read_seed_word(b, 16),
            read_seed_word(b, 24),
        ],
        [
            read_seed_word(b, 32),
            read_seed_word(b, 40),
            read_seed_word(b, 48),
            read_seed_word(b, 56),
        ],
    ];
    assert forall|g: int, j: int|
        0 <= g < 2 && 0 <= j < 4 implies #[trigger] r@[g]@[j] == seed_word(b@, 32 * g + 8 * j) by {
        if g == 0 {
            if j == 0 {
            } else if j == 1 {
            } else if j == 2 {
            } else {
            }
        } else {
            if j == 0 {
            } else if j == 1 {
            } else if j == 2 {
            } else {
            }
        }
    }
    r
}

/// Seed words drawn from the standard library's randomly keyed hasher, for
/// maps made without caller-supplied seeds.
fn system_seeds() -> [[u64; 4]; 2] {
    let rs = system_random_state();
    [
        [
            system_hash_one(&rs, 0),
            system_hash_one(&rs, 1),
            system_hash_one(&rs, 2),
            system_hash_one(&rs, 3),
        ],
        [
            system_hash_one(&rs, 4),
            system_hash_one(&rs, 5),
            system_hash_one(&rs, 6),
            system_hash_one(&rs, 7),
        ],
    ]
}

/// A random word drawn the same way.
fn system_word() -> usize {
    let rs = system_random_state();
    system_hash_one(&rs, 8) as usize
}

/// The hasher state reached by mixing `l` and then `r` into `s`, finished.
pub open spec fn mix_spec(s: HasherState, l: u64, r: u64) -> u64 {
    finish_spec(update_spec(update_spec(s, l), r))
}

/// The keys of a [`RandomState`] derived from seed groups `a`, `b` and the word `c`.
pub open spec fn from_keys_spec(a: Seq<u64>, b: Seq<u64>, c: usize) -> HasherState {
    let s = update_spec(
        HasherState { buffer: a[0], pad: a[1], key0: a[2], key1: a[3] },
        c as u64,
    );
    HasherState {
        buffer: mix_spec(s, b[0], b[2]),
        pad: mix_spec(s, b[1], b[3]),
        key0: mix_spec(s, b[2], b[1]),
        key1: mix_spec(s, b[3], b[0]),
    }
}

/// The hash of `key` under the hasher keys `s`.
pub open spec fn hash_of<K: MapKey>(s: HasherState, key: K) -> u64 {
    finish_spec(key.absorb_spec(s))
}

/// Builds hashers with four per-map keys.
#[derive(Clone, Copy)]
pub struct RandomState {
    k0: u64,
    k1: u64,
    k2: u64,
    k3: u64,
}

impl View for RandomState {
    type V = HasherState;

    /// The state of every hasher this builder makes.
    closed spec fn view(&self) -> HasherState {
        HasherState { buffer: self.k0, pad: self.k1, key0: self.k2, key1: self.k3 }
    }
}

fn mix(hasher: AHasher, l: u64, r: u64) -> (x: u64)
    ensures
        x == mix_spec(hasher@, l, r),
{
    let mut h = hasher;
    h.write_u64(l);
    h.write_u64(r);
    h.finish()
}

impl RandomState {
    /// The builder for the seed groups `seeds` and the per-map word `c`.
    pub fn new(seeds: &[[u64; 4]; 2], c: usize) -> (r: RandomState)
        ensures
            r@ == from_keys_spec(seeds@[0]@, seeds@[1]@, c),
    {
        Self::from_keys(&seeds[0], &seeds[1], c)
    }

    /// A builder with keys derived, as [`RandomState::new`] derives them, from
    /// seeds and a word drawn from the standard library's randomly keyed
    /// hasher.
    pub fn system() -> (r: RandomState)
        ensures
            exists|a: [u64; 4], b: [u64; 4], c: usize| r@ == from_keys_spec(a@, b@, c),
    {
        let seeds = system_seeds();
        Self::new(&seeds, system_word())
    }

    /// Derives the four keys from two seed groups and a per-map word.
    pub fn from_keys(a: &[u64; 4], b: &[u64; 4], c: usize) -> (r: RandomState)
        ensures
            r@ == from_keys_spec(a@, b@, c),
    {
        let mut hasher = AHasher::new(a[0], a[1], a[2], a[3]);
        hasher.write_usize(c);
        RandomState {
            k0: mix(hasher, b[0], b[2]),
            k1: mix(hasher, b[1], b[3]),
            k2: mix(hasher, b[2], b[1]),
            k3: mix(hasher, b[3], b[0]),
        }
    }

    /// A hasher in this builder's state.
    pub fn build_hasher(&self) -> (h: AHasher)
        ensures
            h@ == self@,
    {
        AHasher::new(self.k0, self.k1, self.k2, self.k3)
    }

    /// The hash of one key.
    pub fn hash_one<K: MapKey>(&self, key: &K) -> (x: u64)
        ensures
            x == hash_of(self@, *key),
    {
        let mut h = self.build_hasher();
        key.absorb(&mut h);
        h.finish()
    }
}

/// The hasher-builder interface of the standard library.
impl core::hash::BuildHasher for RandomState {
    type Hasher = AHasher;

    fn build_hasher(&self) -> (h: AHasher)
        ensures
            h@ == self@,
    {
        RandomState::build_hasher(self)
    }
}

} // verus!
