use vstd::prelude::*;
use crate::util::bytes::{byte_bound, le_bytes, le_value, lemma_le_roundtrip};

verus! {

/// `d` with the bytes from `pos` on replaced by `v`.
pub open spec fn overwrite(d: Seq<u8>, pos: int, v: Seq<u8>) -> Seq<u8> {
    Seq::new(d.len(), |k: int| if pos <= k < pos + v.len() { v[k - pos] } else { d[k] })
}

/// A cursor that writes into a zeroed buffer of fixed size, integers least significant byte
/// first.
pub struct Writer {
    idx: usize,
    bytes: Vec<u8>,
}

impl Writer {
    /// The position of the next write.
    pub closed spec fn pos(&self) -> nat {
        self.idx as nat
    }

    /// The buffer.
    pub closed spec fn data(&self) -> Seq<u8> {
        self.bytes@
    }

    /// A writer at the start of `size` zero bytes.
    pub fn new(size: usize) -> (r: Self)
        ensures
            r.pos() == 0,
            r.data() == Seq::new(size as nat, |_k: int| 0u8),
    {
        let bytes = vec![0u8; size];
        let r = Self { idx: 0, bytes };
        assert(r.data() =~= Seq::new(size as nat, |_k: int| 0u8));
        r
    }

    pub fn idx(&self) -> (r: usize)
        ensures
            r == self.pos(),
    {
        self.idx
    }

    /// The buffer.
    pub fn finish(self) -> (r: Vec<u8>)
        ensures
            r@ == self.data(),
    {
        self.bytes
    }

    pub fn goto(&mut self, idx: usize)
        ensures
            final(self).pos() == idx,
            final(self).data() == old(self).data(),
    {
        self.idx = idx;
    }

    pub fn skip(&mut self, bytes: usize)
        requires
            old(self).pos() + bytes <= usize::MAX,
        ensures
            final(self).pos() == old(self).pos() + bytes,
            final(self).data() == old(self).data(),
    {
        self.idx = self.idx + bytes;
    }

    /// Writes the bytes of `val` and moves past them.
    pub fn write(&mut self, val: &[u8])
        requires
            old(self).pos() + val@.len() <= old(self).data().len(),
        ensures
            final(self).data() == overwrite(old(self).data(), old(self).pos() as int, val@),
            final(self).pos() == old(self).pos() + val@.len(),
    {
        let ghost d = self.bytes@;
        let start = self.idx;
        let _len = self.bytes.len();
        let mut k: usize = 0;
        while k < val.len()
            invariant
                start == old(self).pos(),
                d == old(self).data(),
                start + val@.len() <= d.len(),
                d.len() <= usize::MAX,
                k <= val@.len(),
                self.bytes@.len() == d.len(),
                self.idx == start,
                forall|q: int| 0 <= q < d.len() ==> #[trigger] self.bytes@[q] == (if start <= q < start + k {
                    val@[q - start]
                } else {
                    d[q]
                }),
            decreases val@.len() - k,
        {
            self.bytes.set(start + k, val[k]);
            k = k + 1;
        }
        self.idx = start + val.len();
        assert(self.bytes@ =~= overwrite(d, start as int, val@));
    }

    pub fn write8(&mut self, byte: u8)
        requires
            old(self).pos() < old(self).data().len(),
        ensures
            final(self).data() == old(self).data().update(old(self).pos() as int, byte),
            final(self).pos() == old(self).pos() + 1,
    {
        let _len = self.bytes.len();
        self.bytes.set(self.idx, byte);
        self.idx = self.idx + 1;
    }

    /// Writes `word` least significant byte first.
    pub fn write16(&mut self, word: u16)
        requires
            old(self).pos() + 2 <= old(self).data().len(),
        ensures
            final(self).data() == overwrite(old(self).data(), old(self).pos() as int, le_bytes(word as nat, 2)),
            final(self).pos() == old(self).pos() + 2,
    {
        let b = le_bytes_of(word as u64, 2);
        self.write(b.as_slice())
    }

    /// Writes `dword` least significant byte first.
    pub fn write32(&mut self, dword: u32)
        requires
            old(self).pos() + 4 <= old(self).data().len(),
        ensures
            final(self).data() == overwrite(old(self).data(), old(self).pos() as int, le_bytes(dword as nat, 4)),
            final(self).pos() == old(self).pos() + 4,
    {
        let b = le_bytes_of(dword as u64, 4);
        self.write(b.as_slice())
    }

    /// Writes `qword` least significant byte first.
    pub fn write64(&mut self, qword: u64)
        requires
            old(self).pos() + 8 <= old(self).data().len(),
        ensures
            final(self).data() == overwrite(old(self).data(), old(self).pos() as int, le_bytes(qword as nat, 8)),
            final(self).pos() == old(self).pos() + 8,
    {
        let b = le_bytes_of(qword, 8);
        self.write(b.as_slice())
    }
}

/// The `n` low bytes of `x`, least significant first.
pub(crate) fn le_bytes_of(x: u64, n: usize) -> (r: Vec<u8>)
    ensures
        r@ == le_bytes(x as nat, n as nat),
        r@.len() == n,
{
    let mut out: Vec<u8> = Vec::new();
    let mut q = x;
    let mut k: usize = 0;
    while k < n
        invariant
            k <= n,
            out@.len() == k,
            out@ + le_bytes(q as nat, (n - k) as nat) == le_bytes(x as nat, n as nat),
        decreases n - k,
    {
        let ghost rest = le_bytes(q as nat / 256, (n - k - 1) as nat);
        assert(le_bytes(q as nat, (n - k) as nat) == seq![(q as nat % 256) as u8] + rest);
        out.push((q % 256) as u8);
        q = q / 256;
        k = k + 1;
        assert(out@ + le_bytes(q as nat, (n - k) as nat) =~= le_bytes(x as nat, n as nat));
    }
    assert(out@ + le_bytes(q as nat, 0) =~= out@);
    out
}

/// What a write leaves at its position is what was written.
pub proof fn lemma_overwrite_reads_back(d: Seq<u8>, pos: int, v: Seq<u8>)
    requires
        0 <= pos,
        pos + v.len() <= d.len(),
    ensures
        overwrite(d, pos, v).subrange(pos, pos + v.len()) == v,
        overwrite(d, pos, v).len() == d.len(),
        forall|k: int| 0 <= k < d.len() && !(pos <= k < pos + v.len()) ==> #[trigger] overwrite(d, pos, v)[k] == d[k],
{
    assert(overwrite(d, pos, v).subrange(pos, pos + v.len()) =~= v);
}

/// A `u16`, `u32` or `u64` written least significant byte first reads back as itself.
pub proof fn lemma_le_write_read(x: u64, n: nat)
    requires
        n == 2 || n == 4 || n == 8,
        x < byte_bound(n),
    ensures
        le_value(le_bytes(x as nat, n)) == x,
{
    lemma_le_roundtrip(x as nat, n);
}

} // verus!
