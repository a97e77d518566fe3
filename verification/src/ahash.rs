//! The fallback hasher of the `ahash` family, used as the default hasher of
//! [`crate::map::HashMap`].
//!
//! Multi-byte words are read from byte slices in little-endian order.

use vstd::prelude::*;
use vstd::bytes::{
    spec_u16_from_le_bytes, spec_u32_from_le_bytes, spec_u64_from_le_bytes,
    spec_u128_from_le_bytes, u16_from_le_bytes, u32_from_le_bytes, u64_from_le_bytes,
    u128_from_le_bytes,
};
use vstd::wrapping::{u64_specs, u128_specs};

verus! {

/// Multiplier of the state update.
pub const MULTIPLE: u64 = 6364136223846793005;

/// Rotation applied after each 128-bit block.
pub const ROT: u32 = 23;

pub open spec fn two_pow_64() -> nat {
    0x1_0000_0000_0000_0000
}

/// The full 128-bit product of `s` and `by`, folded by xoring its two halves.
pub open spec fn fold_spec(s: u64, by: u64) -> u64 {
    let p = s as nat * by as nat;
    ((p % two_pow_64()) as u64) ^ ((p / two_pow_64()) as u64)
}

/// Rotation of `x` to the left by `r` bits (taken modulo 64).
pub open spec fn rotl_spec(x: u64, r: u32) -> u64 {
    let k = r % 64;
    if k == 0 {
        x
    } else {
        (x << k) | (x >> ((64 - k) as u32))
    }
}

/// The 128-bit word whose low half is `lo` and whose high half is `hi`.
pub open spec fn join_spec(lo: u64, hi: u64) -> u128 {
    (lo as nat + hi as nat * two_pow_64()) as u128
}

/// The low and high 64-bit halves of `x`.
pub open spec fn split_spec(x: u128) -> (u64, u64) {
    ((x as nat % two_pow_64()) as u64, (x as nat / two_pow_64()) as u64)
}

pub fn folded_multiply(s: u64, by: u64) -> (r: u64)
    ensures
        r == fold_spec(s, by),
{
    let result = (s as u128).wrapping_mul(by as u128);
    proof {
        let p = s as nat * by as nat;
        assert(p <= 0xffff_ffff_ffff_ffffnat * 0xffff_ffff_ffff_ffffnat) by (nonlinear_arith)
            requires
                s <= 0xffff_ffff_ffff_ffffu64,
                by <= 0xffff_ffff_ffff_ffffu64,
                p == s as nat * by as nat,
        ;
        assert(result == p);
        assert(result & 0xffff_ffff_ffff_ffff == result % 0x1_0000_0000_0000_0000) by (bit_vector);
        assert(result >> 64 == result / 0x1_0000_0000_0000_0000) by (bit_vector);
    }
    ((result & 0xffff_ffff_ffff_ffff) as u64) ^ ((result >> 64) as u64)
}

pub fn rotate_left(x: u64, r: u32) -> (y: u64)
    ensures
        y == rotl_spec(x, r),
{
    let k = r % 64;
    if k == 0 {
        x
    } else {
        (x << k) | (x >> (64 - k))
    }
}

/// The two 64-bit halves of `x`, low half first.
pub fn convert_to_pair(x: u128) -> (r: [u64; 2])
    ensures
        r@[0] == split_spec(x).0,
        r@[1] == split_spec(x).1,
{
    let lo = (x & 0xffff_ffff_ffff_ffff) as u64;
    let hi = (x >> 64) as u64;
    proof {
        assert(x & 0xffff_ffff_ffff_ffff == x % 0x1_0000_0000_0000_0000) by (bit_vector);
        assert(x >> 64 == x / 0x1_0000_0000_0000_0000) by (bit_vector);
    }
    [lo, hi]
}

/// The 128-bit word made of two 64-bit halves, low half first.
pub fn convert_from_pair(v: [u64; 2]) -> (r: u128)
    ensures
        r == join_spec(v@[0], v@[1]),
{
    let lo = v[0];
    let hi = v[1];
    let r = (lo as u128) | ((hi as u128) << 64);
    proof {
        assert(((lo as u128) | ((hi as u128) << 64)) == lo as u128 + (hi as u128) * 0x1_0000_0000_0000_0000)
            by (bit_vector);
    }
    r
}


/// The words read by [`read_small`] from a slice of at most eight bytes.
pub open spec fn read_small_spec(data: Seq<u8>) -> (u64, u64) {
    if data.len() >= 4 {
        (
            spec_u32_from_le_bytes(data.take(4)) as u64,
            spec_u32_from_le_bytes(data.subrange(data.len() - 4, data.len() as int)) as u64,
        )
    } else if data.len() >= 2 {
        (spec_u16_from_le_bytes(data.take(2)) as u64, data[data.len() - 1] as u64)
    } else if data.len() == 1 {
        (data[0] as u64, data[0] as u64)
    } else {
        (0, 0)
    }
}

/// Reads a little-endian `u16` from the front of `data`, returning the rest.
pub fn read_u16(data: &[u8]) -> (r: (u16, &[u8]))
    requires
        data@.len() >= 2,
    ensures
        r.0 == spec_u16_from_le_bytes(data@.take(2)),
        r.1@ == data@.skip(2),
{
    let (value, rest) = data.split_at(2);
    (u16_from_le_bytes(value), rest)
}

/// Reads a little-endian `u32` from the front of `data`, returning the rest.
pub fn read_u32(data: &[u8]) -> (r: (u32, &[u8]))
    requires
        data@.len() >= 4,
    ensures
        r.0 == spec_u32_from_le_bytes(data@.take(4)),
        r.1@ == data@.skip(4),
{
    let (value, rest) = data.split_at(4);
    (u32_from_le_bytes(value), rest)
}

/// Reads a little-endian `u64` from the front of `data`, returning the rest.
pub fn read_u64(data: &[u8]) -> (r: (u64, &[u8]))
    requires
        data@.len() >= 8,
    ensures
        r.0 == spec_u64_from_le_bytes(data@.take(8)),
        r.1@ == data@.skip(8),
{
    let (value, rest) = data.split_at(8);
    (u64_from_le_bytes(value), rest)
}

/// Reads a little-endian `u128` from the front of `data`, returning the rest.
pub fn read_u128(data: &[u8]) -> (r: (u128, &[u8]))
    requires
        data@.len() >= 16,
    ensures
        r.0 == spec_u128_from_le_bytes(data@.take(16)),
        r.1@ == data@.skip(16),
{
    let (value, rest) = data.split_at(16);
    (u128_from_le_bytes(value), rest)
}

/// Reads a little-endian `u32` from the last four bytes of `data`.
pub fn read_last_u32(data: &[u8]) -> (r: u32)
    requires
        data@.len() >= 4,
    ensures
        r == spec_u32_from_le_bytes(data@.subrange(data@.len() - 4, data@.len() as int)),
{
    let (_, value) = data.split_at(data.len() - 4);
    u32_from_le_bytes(value)
}

/// Reads a little-endian `u64` from the last eight bytes of `data`.
pub fn read_last_u64(data: &[u8]) -> (r: u64)
    requires
        data@.len() >= 8,
    ensures
        r == spec_u64_from_le_bytes(data@.subrange(data@.len() - 8, data@.len() as int)),
{
    let (_, value) = data.split_at(data.len() - 8);
    u64_from_le_bytes(value)
}

/// Reads a little-endian `u128` from the last sixteen bytes of `data`.
pub fn read_last_u128(data: &[u8]) -> (r: u128)
    requires
        data@.len() >= 16,
    ensures
        r == spec_u128_from_le_bytes(data@.subrange(data@.len() - 16, data@.len() as int)),
{
    let (_, value) = data.split_at(data.len() - 16);
    u128_from_le_bytes(value)
}

/// Packs a slice of at most eight bytes into two words.
pub fn read_small(data: &[u8]) -> (r: [u64; 2])
    requires
        data@.len() <= 8,
    ensures
        r@[0] == read_small_spec(data@).0,
        r@[1] == read_small_spec(data@).1,
{
    if data.len() >= 2 {
        if data.len() >= 4 {
            [read_u32(data).0 as u64, read_last_u32(data) as u64]
        } else {
            [read_u16(data).0 as u64, data[data.len() - 1] as u64]
        }
    } else {
        if data.len() > 0 {
            [data[0] as u64, data[0] as u64]
        } else {
            [0, 0]
        }
    }
}


/// The abstract state of an [`AHasher`]: the running buffer, the pad that
/// finishes it, and the two keys mixed into every 128-bit block.
#[derive(Clone, Copy, PartialEq, Eq)]
pub struct HasherState {
    pub buffer: u64,
    pub pad: u64,
    pub key0: u64,
    pub key1: u64,
}

pub open spec fn update_spec(s: HasherState, data: u64) -> HasherState {
    HasherState { buffer: fold_spec(data ^ s.buffer, MULTIPLE), ..s }
}

pub open spec fn large_update_spec(s: HasherState, data: u128) -> HasherState {
    let (lo, hi) = split_spec(data);
    let combined = fold_spec(lo ^ s.key0, hi ^ s.key1);
    HasherState {
        buffer: rotl_spec(u64_specs::wrapping_add(s.buffer, s.pad) ^ combined, ROT),
        ..s
    }
}

pub open spec fn finish_spec(s: HasherState) -> u64 {
    rotl_spec(fold_spec(s.buffer, s.pad), (s.buffer & 63) as u32)
}

/// Absorbs every full leading 16-byte block of `data` while more than sixteen
/// bytes remain.
pub open spec fn blocks_spec(s: HasherState, data: Seq<u8>) -> HasherState
    decreases data.len(),
{
    if data.len() > 16 {
        blocks_spec(large_update_spec(s, spec_u128_from_le_bytes(data.take(16))), data.skip(16))
    } else {
        s
    }
}

/// The state after absorbing the byte string `data`.
pub open spec fn write_spec(s: HasherState, data: Seq<u8>) -> HasherState {
    let len = data.len() as int;
    let s1 = HasherState {
        buffer: u64_specs::wrapping_mul(u64_specs::wrapping_add(s.buffer, len as u64), MULTIPLE),
        ..s
    };
    if len > 16 {
        blocks_spec(
            large_update_spec(s1, spec_u128_from_le_bytes(data.subrange(len - 16, len))),
            data,
        )
    } else if len > 8 {
        large_update_spec(
            s1,
            join_spec(
                spec_u64_from_le_bytes(data.take(8)),
                spec_u64_from_le_bytes(data.subrange(len - 8, len)),
            ),
        )
    } else {
        large_update_spec(s1, join_spec(read_small_spec(data).0, read_small_spec(data).1))
    }
}

/// A fast keyed hasher for hash-map lookups.
#[derive(Clone, Copy)]
pub struct AHasher {
    buffer: u64,
    pad: u64,
    extra_keys: [u64; 2],
}

impl View for AHasher {
    type V = HasherState;

    closed spec fn view(&self) -> HasherState {
        HasherState {
            buffer: self.buffer,
            pad: self.pad,
            key0: self.extra_keys@[0],
            key1: self.extra_keys@[1],
        }
    }
}

impl AHasher {
    /// A hasher whose state is made of the four given keys.
    pub fn new(k0: u64, k1: u64, k2: u64, k3: u64) -> (h: AHasher)
        ensures
            h@ == (HasherState { buffer: k0, pad: k1, key0: k2, key1: k3 }),
    {
        AHasher { buffer: k0, pad: k1, extra_keys: [k2, k3] }
    }

    /// A hasher keyed by two 128-bit keys, each first xored with a digit block of pi.
    pub fn new_with_keys(key1: u128, key2: u128) -> (h: AHasher)
        ensures
            h@ == (HasherState {
                buffer: split_spec(key1 ^ 0x1319_8a2e_0370_7344_243f_6a88_85a3_08d3u128).0,
                pad: split_spec(key1 ^ 0x1319_8a2e_0370_7344_243f_6a88_85a3_08d3u128).1,
                key0: split_spec(key2 ^ 0x082e_fa98_ec4e_6c89_a409_3822_299f_31d0u128).0,
                key1: split_spec(key2 ^ 0x082e_fa98_ec4e_6c89_a409_3822_299f_31d0u128).1,
            }),
    {
        let pi0: u128 = 0x1319_8a2e_0370_7344_243f_6a88_85a3_08d3;
        let pi1: u128 = 0x082e_fa98_ec4e_6c89_a409_3822_299f_31d0;
        let a = convert_to_pair(key1 ^ pi0);
        let b = convert_to_pair(key2 ^ pi1);
        AHasher { buffer: a[0], pad: a[1], extra_keys: b }
    }

    /// A hasher keyed directly by two 128-bit keys.
    pub fn test_with_keys(key1: u128, key2: u128) -> (h: AHasher)
        ensures
            h@ == (HasherState {
                buffer: split_spec(key1).0,
                pad: split_spec(key1).1,
                key0: split_spec(key2).0,
                key1: split_spec(key2).1,
            }),
    {
        let a = convert_to_pair(key1);
        let b = convert_to_pair(key2);
        AHasher { buffer: a[0], pad: a[1], extra_keys: b }
    }

    fn update(&mut self, new_data: u64)
        ensures
            final(self)@ == update_spec(old(self)@, new_data),
    {
        self.buffer = folded_multiply(new_data ^ self.buffer, MULTIPLE);
    }

    fn large_update(&mut self, new_data: u128)
        ensures
            final(self)@ == large_update_spec(old(self)@, new_data),
    {
        let block = convert_to_pair(new_data);
        let combined = folded_multiply(block[0] ^ self.extra_keys[0], block[1] ^ self.extra_keys[1]);
        self.buffer = rotate_left(self.buffer.wrapping_add(self.pad) ^ combined, ROT);
    }

    pub fn write_u8(&mut self, i: u8)
        ensures
            final(self)@ == update_spec(old(self)@, i as u64),
    {
        self.update(i as u64);
    }

    pub fn write_u16(&mut self, i: u16)
        ensures
            final(self)@ == update_spec(old(self)@, i as u64),
    {
        self.update(i as u64);
    }

    pub fn write_u32(&mut self, i: u32)
        ensures
            final(self)@ == update_spec(old(self)@, i as u64),
    {
        self.update(i as u64);
    }

    pub fn write_u64(&mut self, i: u64)
        ensures
            final(self)@ == update_spec(old(self)@, i),
    {
        self.update(i);
    }

    pub fn write_u128(&mut self, i: u128)
        ensures
            final(self)@ == large_update_spec(old(self)@, i),
    {
        self.large_update(i);
    }

    pub fn write_usize(&mut self, i: usize)
        ensures
            final(self)@ == update_spec(old(self)@, i as u64),
    {
        self.write_u64(i as u64);
    }

    /// Absorbs a byte string.
    pub fn write(&mut self, input: &[u8])
        ensures
            final(self)@ == write_spec(old(self)@, input@),
    {
        let mut data = input;
        let length = data.len() as u64;
        self.buffer = self.buffer.wrapping_add(length).wrapping_mul(MULTIPLE);
        if data.len() > 8 {
            if data.len() > 16 {
                let tail = read_last_u128(data);
                self.large_update(tail);
                let ghost after_tail = self@;
                while data.len() > 16
                    invariant
                        blocks_spec(self@, data@) == blocks_spec(after_tail, input@),
                    decreases data@.len(),
                {
                    let (block, rest) = read_u128(data);
                    self.large_update(block);
                    data = rest;
                }
            } else {
                let a = read_u64(data).0;
                let b = read_last_u64(data);
                self.large_update(convert_from_pair([a, b]));
            }
        } else {
            let value = read_small(data);
            self.large_update(convert_from_pair(value));
        }
    }

    /// The hash of everything absorbed so far.
    pub fn finish(&self) -> (r: u64)
        ensures
            r == finish_spec(self@),
    {
        let rot = (self.buffer & 63) as u32;
        rotate_left(folded_multiply(self.buffer, self.pad), rot)
    }
}

/// The hasher interface of the standard library; each method is the one of
/// the same name above.
impl core::hash::Hasher for AHasher {
    fn write(&mut self, bytes: &[u8])
        ensures
            final(self)@ == write_spec(old(self)@, bytes@),
    {
        AHasher::write(self, bytes)
    }

    fn write_u8(&mut self, i: u8)
        ensures
            final(self)@ == update_spec(old(self)@, i as u64),
    {
        AHasher::write_u8(self, i)
    }

    fn write_u16(&mut self, i: u16)
        ensures
            final(self)@ == update_spec(old(self)@, i as u64),
    {
        AHasher::write_u16(self, i)
    }

    fn write_u32(&mut self, i: u32)
        ensures
            final(self)@ == update_spec(old(self)@, i as u64),
    {
        AHasher::write_u32(self, i)
    }

    fn write_u64(&mut self, i: u64)
        ensures
            final(self)@ == update_spec(old(self)@, i),
    {
        AHasher::write_u64(self, i)
    }

    fn write_u128(&mut self, i: u128)
        ensures
            final(self)@ == large_update_spec(old(self)@, i),
    {
        AHasher::write_u128(self, i)
    }

    fn write_usize(&mut self, i: usize)
        ensures
            final(self)@ == update_spec(old(self)@, i as u64),
    {
        AHasher::write_usize(self, i)
    }

    fn finish(&self) -> (r: u64)
        ensures
            r == finish_spec(self@),
    {
        AHasher::finish(self)
    }
}

} // verus!
