use vstd::prelude::*;
use crate::util::rand::{hash_u8, hash_u16, hash_u32, hash_u64};

verus! {

/// A deterministic pseudo-random value derived from `self`.
pub trait Rand: Sized {
    fn rand(self) -> Self;
}

impl Rand for u8 {
    fn rand(self) -> (r: Self)
        ensures
            r == hash_u8(self),
    {
        let mut x = self.wrapping_add(0x5D);
        x = (x ^ (x >> 4u8)).wrapping_mul(0x1D);
        x = (x ^ (x >> 3u8)).wrapping_mul(0x3B);
        x = x ^ (x >> 3u8);
        x
    }
}

impl Rand for u16 {
    fn rand(self) -> (r: Self)
        ensures
            r == hash_u16(self),
    {
        let mut x = self.wrapping_add(0x9E3D);
        x = (x ^ (x >> 8u16)).wrapping_mul(0x2F1D);
        x = (x ^ (x >> 7u16)).wrapping_mul(0x623B);
        x = x ^ (x >> 7u16);
        x
    }
}

impl Rand for u32 {
    fn rand(self) -> (r: Self)
        ensures
            r == hash_u32(self),
    {
        let mut x = self.wrapping_add(0x9E3779B9);
        x = (x ^ (x >> 16u32)).wrapping_mul(0x21F0AAAD);
        x = (x ^ (x >> 15u32)).wrapping_mul(0x735A2D97);
        x = x ^ (x >> 15u32);
        x
    }
}

impl Rand for u64 {
    fn rand(self) -> (r: Self)
        ensures
            r == hash_u64(self),
    {
        let mut x = self.wrapping_add(0x9E3779B97F4A7C15);
        x = (x ^ (x >> 30u64)).wrapping_mul(0xBF58476D1CE4E5B9);
        x = (x ^ (x >> 27u64)).wrapping_mul(0x94D049BB133111EB);
        x ^ (x >> 31u64)
    }
}

} // verus!
