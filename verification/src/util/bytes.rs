use vstd::prelude::*;

verus! {

/// The unsigned value of `s` read least significant byte first.
pub open spec fn le_value(s: Seq<u8>) -> nat
    decreases s.len(),
{
    if s.len() == 0 {
        0
    } else {
        s[0] as nat + 256 * le_value(s.drop_first())
    }
}

/// The unsigned value of `s` read most significant byte first.
pub open spec fn be_value(s: Seq<u8>) -> nat
    decreases s.len(),
{
    if s.len() == 0 {
        0
    } else {
        be_value(s.drop_last()) * 256 + s.last() as nat
    }
}

/// The `n` bytes of `x` in little-endian order (the low `n` bytes when `x` is larger).
pub open spec fn le_bytes(x: nat, n: nat) -> Seq<u8>
    decreases n,
{
    if n == 0 {
        Seq::empty()
    } else {
        seq![(x % 256) as u8] + le_bytes(x / 256, (n - 1) as nat)
    }
}

/// The value of two bytes in little-endian order.
pub proof fn lemma_le_value_2(s: Seq<u8>)
    requires
        s.len() == 2,
    ensures
        le_value(s) == s[0] + 256 * s[1],
{
    assert(s.drop_first().drop_first().len() == 0);
    reveal_with_fuel(le_value, 3);
}

/// The value of four bytes in little-endian order.
pub proof fn lemma_le_value_4(s: Seq<u8>)
    requires
        s.len() == 4,
    ensures
        le_value(s) == s[0] + 0x100 * s[1] + 0x1_0000 * s[2] + 0x100_0000 * s[3],
{
    let t = s.drop_first().drop_first();
    assert(t.drop_first().drop_first().len() == 0);
    reveal_with_fuel(le_value, 5);
}

/// The value of eight bytes in little-endian order.
pub proof fn lemma_le_value_8(s: Seq<u8>)
    requires
        s.len() == 8,
    ensures
        le_value(s) == s[0] + 0x100 * s[1] + 0x1_0000 * s[2] + 0x100_0000 * s[3] + 0x1_0000_0000
            * s[4] + 0x100_0000_0000 * s[5] + 0x1_0000_0000_0000 * s[6] + 0x100_0000_0000_0000
            * s[7],
{
    let t = s.drop_first().drop_first().drop_first().drop_first();
    assert(t.drop_first().drop_first().drop_first().drop_first().len() == 0);
    reveal_with_fuel(le_value, 9);
}

/// The value of two bytes in big-endian order.
pub proof fn lemma_be_value_2(s: Seq<u8>)
    requires
        s.len() == 2,
    ensures
        be_value(s) == 256 * s[0] + s[1],
{
    assert(s.drop_last().drop_last().len() == 0);
    reveal_with_fuel(be_value, 3);
}

/// The value of four bytes in big-endian order.
pub proof fn lemma_be_value_4(s: Seq<u8>)
    requires
        s.len() == 4,
    ensures
        be_value(s) == 0x100_0000 * s[0] + 0x1_0000 * s[1] + 0x100 * s[2] + s[3],
{
    let t = s.drop_last().drop_last();
    assert(t.drop_last().drop_last().len() == 0);
    reveal_with_fuel(be_value, 5);
}

/// The value of eight bytes in big-endian order.
pub proof fn lemma_be_value_8(s: Seq<u8>)
    requires
        s.len() == 8,
    ensures
        be_value(s) == 0x100_0000_0000_0000 * s[0] + 0x1_0000_0000_0000 * s[1] + 0x100_0000_0000
            * s[2] + 0x1_0000_0000 * s[3] + 0x100_0000 * s[4] + 0x1_0000 * s[5] + 0x100 * s[6]
            + s[7],
{
    let t = s.drop_last().drop_last().drop_last().drop_last();
    assert(t.drop_last().drop_last().drop_last().drop_last().len() == 0);
    reveal_with_fuel(be_value, 9);
}

/// `256^n`: the number of values that `n` bytes can hold.
pub open spec fn byte_bound(n: nat) -> nat
    decreases n,
{
    if n == 0 {
        1
    } else {
        256 * byte_bound((n - 1) as nat)
    }
}

/// Reading back what was written: the little-endian value of the `n` bytes of `x` is `x`
/// whenever `x` fits in `n` bytes.
pub proof fn lemma_le_roundtrip(x: nat, n: nat)
    requires
        x < byte_bound(n),
    ensures
        le_value(le_bytes(x, n)) == x,
        le_bytes(x, n).len() == n,
    decreases n,
{
    if n > 0 {
        let rest = le_bytes(x / 256, (n - 1) as nat);
        vstd::arithmetic::div_mod::lemma_fundamental_div_mod(x as int, 256);
        assert(x / 256 < byte_bound((n - 1) as nat));
        lemma_le_roundtrip(x / 256, (n - 1) as nat);
        assert((seq![(x % 256) as u8] + rest).drop_first() =~= rest);
    }
}

/// Reading most significant byte first gives the value that reading the reversed bytes least
/// significant byte first gives: a big-endian read is a little-endian read of the bytes in the
/// other order.
pub proof fn lemma_be_is_le_reversed(s: Seq<u8>)
    ensures
        be_value(s) == le_value(s.reverse()),
    decreases s.len(),
{
    if s.len() > 0 {
        let d = s.drop_last();
        lemma_be_is_le_reversed(d);
        let r = s.reverse();
        assert(r[0] == s.last());
        assert(r.drop_first() =~= d.reverse());
    }
}

} // verus!
