use vstd::prelude::*;
use crate::util::bytes::{
    be_value, le_value, lemma_be_value_2, lemma_be_value_4, lemma_be_value_8, lemma_le_value_2,
    lemma_le_value_4, lemma_le_value_8,
};

verus! {

/// `<[u8; N]>::try_from` on a slice of length `N`, which copies the slice into an array.
#[verifier::external_body]
fn slice_to_array<const N: usize>(s: &[u8]) -> (r: [u8; N])
    requires
        s@.len() == N,
    ensures
        r@ == s@,
{
    <[u8; N]>::try_from(s).unwrap()
}

/// A cursor over bytes that reads integers least significant byte first.
pub struct Reader<'a> {
    idx: usize,
    bytes: &'a [u8],
}

impl<'a> Reader<'a> {
    /// The position of the next read.
    pub closed spec fn pos(&self) -> nat {
        self.idx as nat
    }

    /// The bytes being read.
    pub closed spec fn data(&self) -> Seq<u8> {
        self.bytes@
    }

    /// A reader at the start of `bytes`.
    pub fn new(bytes: &'a [u8]) -> (r: Self)
        ensures
            r.pos() == 0,
            r.data() == bytes@,
    {
        Self { idx: 0, bytes }
    }

    pub fn idx(&self) -> (r: usize)
        ensures
            r == self.pos(),
    {
        self.idx
    }

    pub fn goto(&mut self, idx: usize)
        ensures
            final(self).pos() == idx,
            final(self).data() == old(self).data(),
    {
        self.idx = idx;
    }

    pub fn skip(&mut self, bytes: usize)
        requires
            old(self).pos() + bytes <= usize::MAX,
        ensures
            final(self).pos() == old(self).pos() + bytes,
            final(self).data() == old(self).data(),
    {
        self.idx = self.idx + bytes;
    }

    /// The next `N` bytes.
    pub fn read_arr<const N: usize>(&mut self) -> (r: [u8; N])
        requires
            old(self).pos() + N <= old(self).data().len(),
        ensures
            r@ == old(self).data().subrange(old(self).pos() as int, old(self).pos() + N),
            final(self).pos() == old(self).pos() + N,
            final(self).data() == old(self).data(),
    {
        let _len = self.bytes.len();
        let array: [u8; N] = slice_to_array::<N>(&self.bytes[self.idx..self.idx + N]);
        self.idx = self.idx + N;
        array
    }

    /// The next `num_bytes` bytes.
    pub fn read(&mut self, num_bytes: usize) -> (r: &[u8])
        requires
            old(self).pos() + num_bytes <= old(self).data().len(),
        ensures
            r@ == old(self).data().subrange(old(self).pos() as int, old(self).pos() + num_bytes),
            final(self).pos() == old(self).pos() + num_bytes,
            final(self).data() == old(self).data(),
    {
        let _len = self.bytes.len();
        let bytes = &self.bytes[self.idx..self.idx + num_bytes];
        self.idx = self.idx + num_bytes;
        bytes
    }

    pub fn read8(&mut self) -> (r: u8)
        requires
            old(self).pos() < old(self).data().len(),
        ensures
            r == old(self).data()[old(self).pos() as int],
            final(self).pos() == old(self).pos() + 1,
            final(self).data() == old(self).data(),
    {
        let byte = self.bytes[self.idx];
        self.idx = self.idx + 1;
        byte
    }

    pub fn read16(&mut self) -> (r: u16)
        requires
            old(self).pos() + 2 <= old(self).data().len(),
        ensures
            r == le_value(old(self).data().subrange(old(self).pos() as int, old(self).pos() + 2int)),
            final(self).pos() == old(self).pos() + 2,
            final(self).data() == old(self).data(),
    {
        let b = self.read_arr::<2>();
        proof {
            lemma_le_value_2(b@);
        }
        b[0] as u16 + (b[1] as u16) * 0x100
    }

    pub fn read32(&mut self) -> (r: u32)
        requires
            old(self).pos() + 4 <= old(self).data().len(),
        ensures
            r == le_value(old(self).data().subrange(old(self).pos() as int, old(self).pos() + 4int)),
            final(self).pos() == old(self).pos() + 4,
            final(self).data() == old(self).data(),
    {
        let b = self.read_arr::<4>();
        proof {
            lemma_le_value_4(b@);
        }
        b[0] as u32 + (b[1] as u32) * 0x100 + (b[2] as u32) * 0x1_0000 + (b[3] as u32) * 0x100_0000
    }

    pub fn read64(&mut self) -> (r: u64)
        requires
            old(self).pos() + 8 <= old(self).data().len(),
        ensures
            r == le_value(old(self).data().subrange(old(self).pos() as int, old(self).pos() + 8int)),
            final(self).pos() == old(self).pos() + 8,
            final(self).data() == old(self).data(),
    {
        let b = self.read_arr::<8>();
        proof {
            lemma_le_value_8(b@);
        }
        b[0] as u64 + (b[1] as u64) * 0x100 + (b[2] as u64) * 0x1_0000 + (b[3] as u64)
            * 0x100_0000 + (b[4] as u64) * 0x1_0000_0000 + (b[5] as u64) * 0x100_0000_0000
            + (b[6] as u64) * 0x1_0000_0000_0000 + (b[7] as u64) * 0x100_0000_0000_0000
    }
}

/// A cursor over bytes that reads integers most significant byte first.
pub struct ReaderBe<'a> {
    idx: usize,
    bytes: &'a [u8],
}

impl<'a> ReaderBe<'a> {
    /// The position of the next read.
    pub closed spec fn pos(&self) -> nat {
        self.idx as nat
    }

    /// The bytes being read.
    pub closed spec fn data(&self) -> Seq<u8> {
        self.bytes@
    }

    /// A reader at the start of `bytes`.
    pub fn new(bytes: &'a [u8]) -> (r: Self)
        ensures
            r.pos() == 0,
            r.data() == bytes@,
    {
        Self { idx: 0, bytes }
    }

    pub fn idx(&self) -> (r: usize)
        ensures
            r == self.pos(),
    {
        self.idx
    }

    pub fn goto(&mut self, idx: usize)
        ensures
            final(self).pos() == idx,
            final(self).data() == old(self).data(),
    {
        self.idx = idx;
    }

    pub fn skip(&mut self, bytes: usize)
        requires
            old(self).pos() + bytes <= usize::MAX,
        ensures
            final(self).pos() == old(self).pos() + bytes,
            final(self).data() == old(self).data(),
    {
        self.idx = self.idx + bytes;
    }

    /// The next `N` bytes.
    pub fn read_arr<const N: usize>(&mut self) -> (r: [u8; N])
        requires
            old(self).pos() + N <= old(self).data().len(),
        ensures
            r@ == old(self).data().subrange(old(self).pos() as int, old(self).pos() + N),
            final(self).pos() == old(self).pos() + N,
            final(self).data() == old(self).data(),
    {
        let _len = self.bytes.len();
        let array: [u8; N] = slice_to_array::<N>(&self.bytes[self.idx..self.idx + N]);
        self.idx = self.idx + N;
        array
    }

    /// The next `num_bytes` bytes.
    pub fn read(&mut self, num_bytes: usize) -> (r: &[u8])
        requires
            old(self).pos() + num_bytes <= old(self).data().len(),
        ensures
            r@ == old(self).data().subrange(old(self).pos() as int, old(self).pos() + num_bytes),
            final(self).pos() == old(self).pos() + num_bytes,
            final(self).data() == old(self).data(),
    {
        let _len = self.bytes.len();
        let bytes = &self.bytes[self.idx..self.idx + num_bytes];
        self.idx = self.idx + num_bytes;
        bytes
    }

    pub fn read8(&mut self) -> (r: u8)
        requires
            old(self).pos() < old(self).data().len(),
        ensures
            r == old(self).data()[old(self).pos() as int],
            final(self).pos() == old(self).pos() + 1,
            final(self).data() == old(self).data(),
    {
        let byte = self.bytes[self.idx];
        self.idx = self.idx + 1;
        byte
    }

    pub fn read16(&mut self) -> (r: u16)
        requires
            old(self).pos() + 2 <= old(self).data().len(),
        ensures
            r == be_value(old(self).data().subrange(old(self).pos() as int, old(self).pos() + 2int)),
            final(self).pos() == old(self).pos() + 2,
            final(self).data() == old(self).data(),
    {
        let b = self.read_arr::<2>();
        proof {
            lemma_be_value_2(b@);
        }
        (b[0] as u16) * 0x100 + b[1] as u16
    }

    pub fn read32(&mut self) -> (r: u32)
        requires
            old(self).pos() + 4 <= old(self).data().len(),
        ensures
            r == be_value(old(self).data().subrange(old(self).pos() as int, old(self).pos() + 4int)),
            final(self).pos() == old(self).pos() + 4,
            final(self).data() == old(self).data(),
    {
        let b = self.read_arr::<4>();
        proof {
            lemma_be_value_4(b@);
        }
        (b[0] as u32) * 0x100_0000 + (b[1] as u32) * 0x1_0000 + (b[2] as u32) * 0x100 + b[3] as u32
    }

    pub fn read64(&mut self) -> (r: u64)
        requires
            old(self).pos() + 8 <= old(self).data().len(),
        ensures
            r == be_value(old(self).data().subrange(old(self).pos() as int, old(self).pos() + 8int)),
            final(self).pos() == old(self).pos() + 8,
            final(self).data() == old(self).data(),
    {
        let b = self.read_arr::<8>();
        proof {
            lemma_be_value_8(b@);
        }
        (b[0] as u64) * 0x100_0000_0000_0000 + (b[1] as u64) * 0x1_0000_0000_0000 + (b[2] as u64)
            * 0x100_0000_0000 + (b[3] as u64) * 0x1_0000_0000 + (b[4] as u64) * 0x100_0000
            + (b[5] as u64) * 0x1_0000 + (b[6] as u64) * 0x100 + b[7] as u64
    }
}

} // verus!
