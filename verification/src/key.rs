//! Keys of [`crate::map::HashMap`]: what a key feeds into the hasher, and how
//! two keys are compared.

use vstd::prelude::*;
use crate::ahash::{AHasher, HasherState, update_spec, large_update_spec};

verus! {

/// A type whose values can key a [`crate::map::HashMap`].
///
/// `absorb` feeds the key into a hasher, as `Hash::hash` does, and `key_eq`
/// decides equality; both are deterministic functions of the key.
pub trait MapKey: Sized {
    /// The hasher state after absorbing this key into `s`.
    spec fn absorb_spec(&self, s: HasherState) -> HasherState;

    fn absorb(&self, h: &mut AHasher)
        ensures
            final(h)@ == self.absorb_spec(old(h)@),
    ;

    fn key_eq(&self, other: &Self) -> (b: bool)
        ensures
            b == (*self == *other),
    ;
}

impl MapKey for u8 {
    open spec fn absorb_spec(&self, s: HasherState) -> HasherState {
        update_spec(s, *self as u64)
    }

    fn absorb(&self, h: &mut AHasher) {
        h.write_u8(*self);
    }

    fn key_eq(&self, other: &Self) -> (b: bool) {
        *self == *other
    }
}

impl MapKey for u16 {
    open spec fn absorb_spec(&self, s: HasherState) -> HasherState {
        update_spec(s, *self as u64)
    }

    fn absorb(&self, h: &mut AHasher) {
        h.write_u16(*self);
    }

    fn key_eq(&self, other: &Self) -> (b: bool) {
        *self == *other
    }
}

impl MapKey for u32 {
    open spec fn absorb_spec(&self, s: HasherState) -> HasherState {
        update_spec(s, *self as u64)
    }

    fn absorb(&self, h: &mut AHasher) {
        h.write_u32(*self);
    }

    fn key_eq(&self, other: &Self) -> (b: bool) {
        *self == *other
    }
}

impl MapKey for u64 {
    open spec fn absorb_spec(&self, s: HasherState) -> HasherState {
        update_spec(s, *self)
    }

    fn absorb(&self, h: &mut AHasher) {
        h.write_u64(*self);
    }

    fn key_eq(&self, other: &Self) -> (b: bool) {
        *self == *other
    }
}

impl MapKey for u128 {
    open spec fn absorb_spec(&self, s: HasherState) -> HasherState {
        large_update_spec(s, *self)
    }

    fn absorb(&self, h: &mut AHasher) {
        h.write_u128(*self);
    }

    fn key_eq(&self, other: &Self) -> (b: bool) {
        *self == *other
    }
}

impl MapKey for usize {
    open spec fn absorb_spec(&self, s: HasherState) -> HasherState {
        update_spec(s, *self as u64)
    }

    fn absorb(&self, h: &mut AHasher) {
        h.write_usize(*self);
    }

    fn key_eq(&self, other: &Self) -> (b: bool) {
        *self == *other
    }
}

/// Signed integers are fed as the unsigned integer of the same width.
impl MapKey for i8 {
    open spec fn absorb_spec(&self, s: HasherState) -> HasherState {
        update_spec(s, (*self as u8) as u64)
    }

    fn absorb(&self, h: &mut AHasher) {
        h.write_u8(*self as u8);
    }

    fn key_eq(&self, other: &Self) -> (b: bool) {
        *self == *other
    }
}

impl MapKey for i16 {
    open spec fn absorb_spec(&self, s: HasherState) -> HasherState {
        update_spec(s, (*self as u16) as u64)
    }

    fn absorb(&self, h: &mut AHasher) {
        h.write_u16(*self as u16);
    }

    fn key_eq(&self, other: &Self) -> (b: bool) {
        *self == *other
    }
}

impl MapKey for i32 {
    open spec fn absorb_spec(&self, s: HasherState) -> HasherState {
        update_spec(s, (*self as u32) as u64)
    }

    fn absorb(&self, h: &mut AHasher) {
        h.write_u32(*self as u32);
    }

    fn key_eq(&self, other: &Self) -> (b: bool) {
        *self == *other
    }
}

impl MapKey for i64 {
    open spec fn absorb_spec(&self, s: HasherState) -> HasherState {
        update_spec(s, *self as u64)
    }

    fn absorb(&self, h: &mut AHasher) {
        h.write_u64(*self as u64);
    }

    fn key_eq(&self, other: &Self) -> (b: bool) {
        *self == *other
    }
}

impl MapKey for isize {
    open spec fn absorb_spec(&self, s: HasherState) -> HasherState {
        update_spec(s, (*self as usize) as u64)
    }

    fn absorb(&self, h: &mut AHasher) {
        h.write_usize(*self as usize);
    }

    fn key_eq(&self, other: &Self) -> (b: bool) {
        *self == *other
    }
}

impl MapKey for bool {
    open spec fn absorb_spec(&self, s: HasherState) -> HasherState {
        update_spec(s, if *self { 1u64 } else { 0u64 })
    }

    fn absorb(&self, h: &mut AHasher) {
        h.write_u8(if *self { 1u8 } else { 0u8 });
    }

    fn key_eq(&self, other: &Self) -> (b: bool) {
        *self == *other
    }
}

impl MapKey for char {
    open spec fn absorb_spec(&self, s: HasherState) -> HasherState {
        update_spec(s, (*self as u32) as u64)
    }

    fn absorb(&self, h: &mut AHasher) {
        h.write_u32(*self as u32);
    }

    fn key_eq(&self, other: &Self) -> (b: bool) {
        *self == *other
    }
}

impl MapKey for i128 {
    open spec fn absorb_spec(&self, s: HasherState) -> HasherState {
        large_update_spec(s, *self as u128)
    }

    fn absorb(&self, h: &mut AHasher) {
        h.write_u128(*self as u128);
    }

    fn key_eq(&self, other: &Self) -> (b: bool) {
        *self == *other
    }
}

impl<A: MapKey, B: MapKey> MapKey for (A, B) {
    /// The first component, then the second.
    open spec fn absorb_spec(&self, s: HasherState) -> HasherState {
        self.1.absorb_spec(self.0.absorb_spec(s))
    }

    fn absorb(&self, h: &mut AHasher) {
        self.0.absorb(h);
        self.1.absorb(h);
    }

    fn key_eq(&self, other: &Self) -> (b: bool) {
        self.0.key_eq(&other.0) && self.1.key_eq(&other.1)
    }
}

} // verus!
