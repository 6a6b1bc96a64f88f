use vstd::prelude::*;

verus! {

/// The 8-bit integer hash behind `u8::rand`.
pub open spec fn hash_u8(v: u8) -> u8 {
    let x = v.wrapping_add(0x5D);
    let x = (x ^ (x >> 4u8)).wrapping_mul(0x1D);
    let x = (x ^ (x >> 3u8)).wrapping_mul(0x3B);
    x ^ (x >> 3u8)
}

/// The 16-bit integer hash behind `u16::rand`.
pub open spec fn hash_u16(v: u16) -> u16 {
    let x = v.wrapping_add(0x9E3D);
    let x = (x ^ (x >> 8u16)).wrapping_mul(0x2F1D);
    let x = (x ^ (x >> 7u16)).wrapping_mul(0x623B);
    x ^ (x >> 7u16)
}

/// The 32-bit integer hash behind `u32::rand`.
pub open spec fn hash_u32(v: u32) -> u32 {
    let x = v.wrapping_add(0x9E3779B9);
    let x = (x ^ (x >> 16u32)).wrapping_mul(0x21F0AAAD);
    let x = (x ^ (x >> 15u32)).wrapping_mul(0x735A2D97);
    x ^ (x >> 15u32)
}

/// The 64-bit integer hash behind `u64::rand` (the splitmix64 finaliser).
pub open spec fn hash_u64(v: u64) -> u64 {
    let x = v.wrapping_add(0x9E3779B97F4A7C15);
    let x = (x ^ (x >> 30u64)).wrapping_mul(0xBF58476D1CE4E5B9);
    let x = (x ^ (x >> 27u64)).wrapping_mul(0x94D049BB133111EB);
    x ^ (x >> 31u64)
}

/// A deterministic pseudo-random value derived from `self`.
pub trait Rand: Sized {
    fn rand(self) -> Self;
}

impl Rand for u8 {
    fn rand(self) -> (r: Self)
        ensures
            r == hash_u8(self),
    {
        let mut x = self.wrapping_add(0x5D);
        x = (x ^ (x >> 4u8)).wrapping_mul(0x1D);
        x = (x ^ (x >> 3u8)).wrapping_mul(0x3B);
        x = x ^ (x >> 3u8);
        x
    }
}

impl Rand for u16 {
    fn rand(self) -> (r: Self)
        ensures
            r == hash_u16(self),
    {
        let mut x = self.wrapping_add(0x9E3D);
        x = (x ^ (x >> 8u16)).wrapping_mul(0x2F1D);
        x = (x ^ (x >> 7u16)).wrapping_mul(0x623B);
        x = x ^ (x >> 7u16);
        x
    }
}

impl Rand for u32 {
    fn rand(self) -> (r: Self)
        ensures
            r == hash_u32(self),
    {
        let mut x = self.wrapping_add(0x9E3779B9);
        x = (x ^ (x >> 16u32)).wrapping_mul(0x21F0AAAD);
        x = (x ^ (x >> 15u32)).wrapping_mul(0x735A2D97);
        x = x ^ (x >> 15u32);
        x
    }
}

impl Rand for u64 {
    fn rand(self) -> (r: Self)
        ensures
            r == hash_u64(self),
    {
        let mut x = self.wrapping_add(0x9E3779B97F4A7C15);
        x = (x ^ (x >> 30u64)).wrapping_mul(0xBF58476D1CE4E5B9);
        x = (x ^ (x >> 27u64)).wrapping_mul(0x94D049BB133111EB);
        x ^ (x >> 31u64)
    }
}

impl Rand for usize {
    /// The 64-bit hash on the bits of `self`.
    fn rand(self) -> (r: Self)
        ensures
            r == hash_u64(self as u64) as usize,
    {
        (self as u64).rand() as usize
    }
}

impl Rand for i8 {
    /// The 8-bit hash on the bits of `self`.
    fn rand(self) -> (r: Self)
        ensures
            r == hash_u8(self as u8) as i8,
    {
        (self as u8).rand() as i8
    }
}

impl Rand for i16 {
    /// The 16-bit hash on the bits of `self`.
    fn rand(self) -> (r: Self)
        ensures
            r == hash_u16(self as u16) as i16,
    {
        (self as u16).rand() as i16
    }
}

impl Rand for i32 {
    /// The 32-bit hash on the bits of `self`.
    fn rand(self) -> (r: Self)
        ensures
            r == hash_u32(self as u32) as i32,
    {
        (self as u32).rand() as i32
    }
}

impl Rand for i64 {
    /// The 64-bit hash on the bits of `self`.
    fn rand(self) -> (r: Self)
        ensures
            r == hash_u64(self as u64) as i64,
    {
        (self as u64).rand() as i64
    }
}

impl Rand for isize {
    /// The 64-bit hash on the bits of `self`.
    fn rand(self) -> (r: Self)
        ensures
            r == hash_u64(self as u64) as isize,
    {
        (self as u64).rand() as isize
    }
}

} // verus!
