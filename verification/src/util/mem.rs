use vstd::prelude::*;
use vstd::arithmetic::power2::{pow2, lemma2_to64, lemma2_to64_rest};
use vstd::bits::{lemma_usize_shl_is_mul, lemma_usize_shr_is_div};

verus! {

/// A quantity of memory, held as a number of bytes.
pub struct Mem {
    bytes: usize,
}

impl View for Mem {
    type V = nat;

    closed spec fn view(&self) -> nat {
        self.bytes as nat
    }
}

/// `x` shifted left by `k` bits within `usize`: the bits shifted out are lost.
pub open spec fn shl_usize(x: usize, k: usize) -> nat {
    (x << k) as nat
}

proof fn lemma_shl(x: usize, k: usize)
    requires
        k < usize::BITS,
    ensures
        x * pow2(k as nat) <= usize::MAX ==> (x << k) == x * pow2(k as nat),
        (x >> k) == x as nat / pow2(k as nat),
{
    if x * pow2(k as nat) <= usize::MAX {
        lemma_usize_shl_is_mul(x, k);
    }
    lemma_usize_shr_is_div(x, k);
}

/// The decimal value of the digits `s`.
pub open spec fn dec_value(s: Seq<char>) -> nat
    decreases s.len(),
{
    if s.len() == 0 {
        0
    } else {
        dec_value(s.drop_last()) * 10 + (s.last() as nat - '0' as nat) as nat
    }
}

/// `s` is one or more ASCII decimal digits.
pub open spec fn all_digits(s: Seq<char>) -> bool {
    s.len() > 0 && forall|i: int| 0 <= i < s.len() ==> '0' <= #[trigger] s[i] <= '9'
}

/// What reading `s` as a `usize` gives: an optional `+` followed by decimal digits whose value
/// fits in `usize`, or nothing.
pub open spec fn parse_usize(s: Seq<char>) -> Option<usize> {
    let digits = if s.len() > 0 && s[0] == '+' { s.subrange(1, s.len() as int) } else { s };
    if all_digits(digits) && dec_value(digits) <= usize::MAX {
        Some(dec_value(digits) as usize)
    } else {
        None
    }
}

/// Reads `s` as a `usize`, as `parse_usize` says.
fn read_usize(s: &str) -> (r: Option<usize>)
    ensures
        r == parse_usize(s@),
{
    let n = s.unicode_len();
    let mut i: usize = 0;
    if n > 0 && s.get_char(0) == '+' {
        i = 1;
    }
    let ghost digits = s@.subrange(i as int, s@.len() as int);
    assert(digits =~= (if s@.len() > 0 && s@[0] == '+' { s@.subrange(1, s@.len() as int) } else { s@ }));
    if i >= n {
        return None;
    }
    let mut v: usize = 0;
    let mut k: usize = i;
    while k < n
        invariant
            i <= k <= n,
            n == s@.len(),
            digits == s@.subrange(i as int, n as int),
            digits == (if s@.len() > 0 && s@[0] == '+' { s@.subrange(1, s@.len() as int) } else { s@ }),
            forall|j: int| i <= j < k ==> '0' <= #[trigger] s@[j] <= '9',
            v == dec_value(s@.subrange(i as int, k as int)),
        decreases n - k,
    {
        let c = s.get_char(k);
        if c < '0' || c > '9' {
            assert(digits[k - i] == c);
            return None;
        }
        let d = (c as u32 - '0' as u32) as usize;
        let ghost next = s@.subrange(i as int, k + 1);
        assert(next.drop_last() =~= s@.subrange(i as int, k as int));
        assert(next.last() == c);
        if v > (usize::MAX - d) / 10 {
            proof {
                assert(v * 10 + d > usize::MAX) by (nonlinear_arith)
                    requires
                        v > (usize::MAX - d) / 10,
                        d <= 9,
                ;
                if all_digits(digits) {
                    lemma_dec_prefix_bound(digits, (k + 1 - i) as nat);
                    assert(digits.subrange(0, (k + 1 - i) as int) =~= next);
                }
            }
            return None;
        }
        v = v * 10 + d;
        k = k + 1;
    }
    assert(s@.subrange(i as int, n as int) =~= digits);
    Some(v)
}

/// The value of a prefix of digits is at most that of the whole.
proof fn lemma_dec_prefix_bound(s: Seq<char>, k: nat)
    requires
        k <= s.len(),
        forall|i: int| 0 <= i < s.len() ==> '0' <= #[trigger] s[i] <= '9',
    ensures
        dec_value(s.subrange(0, k as int)) <= dec_value(s),
    decreases s.len(),
{
    if k < s.len() {
        let t = s.drop_last();
        assert(t.subrange(0, k as int) =~= s.subrange(0, k as int));
        lemma_dec_prefix_bound(t, k);
        assert(dec_value(s) == dec_value(t) * 10 + (s.last() as nat - '0' as nat) as nat);
        assert(dec_value(t) <= dec_value(t) * 10) by (nonlinear_arith);
    } else {
        assert(s.subrange(0, k as int) =~= s);
    }
}

impl Mem {
    /// The number of bytes written in decimal in `s`, with an optional leading `+`.
    pub fn str(s: &str) -> (m: Self)
        requires
            parse_usize(s@) is Some,
        ensures
            m@ == parse_usize(s@)->Some_0,
    {
        match read_usize(s) {
            Some(bytes) => Self { bytes },
            None => Self { bytes: 0 },
        }
    }

    /// `bytes` bytes.
    pub fn b(bytes: usize) -> (m: Self)
        ensures
            m@ == bytes,
    {
        Self { bytes }
    }

    /// `kb` kibibytes, computed as `kb << 10`: the bits shifted out of `usize` are lost.
    pub fn kb(kb: usize) -> (m: Self)
        ensures
            m@ == shl_usize(kb, 10),
            kb * 1024 <= usize::MAX ==> m@ == kb * 1024,
    {
        proof {
            lemma_shl(kb, 10);
            lemma2_to64();
            lemma2_to64_rest();
        }
        Self { bytes: kb << 10usize }
    }

    /// `mb` mebibytes, computed as `mb << 20`.
    pub fn mb(mb: usize) -> (m: Self)
        ensures
            m@ == shl_usize(mb, 20),
            mb * 0x10_0000 <= usize::MAX ==> m@ == mb * 0x10_0000,
    {
        proof {
            lemma_shl(mb, 20);
            lemma2_to64();
            lemma2_to64_rest();
        }
        Self { bytes: mb << 20usize }
    }

    /// `gb` gibibytes, computed as `gb << 30`.
    pub fn gb(gb: usize) -> (m: Self)
        ensures
            m@ == shl_usize(gb, 30),
            gb * 0x4000_0000 <= usize::MAX ==> m@ == gb * 0x4000_0000,
    {
        proof {
            lemma_shl(gb, 30);
            lemma2_to64();
            lemma2_to64_rest();
        }
        Self { bytes: gb << 30usize }
    }

    /// `tb` tebibytes, computed as `tb << 40`; the shift needs a `usize` wider than 40 bits.
    pub fn tb(tb: usize) -> (m: Self)
        requires
            usize::BITS > 40,
        ensures
            m@ == shl_usize(tb, 40),
            tb * 0x100_0000_0000 <= usize::MAX ==> m@ == tb * 0x100_0000_0000,
    {
        proof {
            lemma_shl(tb, 40);
            lemma2_to64();
            lemma2_to64_rest();
        }
        Self { bytes: tb << 40usize }
    }

    /// The byte count.
    pub fn as_bytes(&self) -> (r: usize)
        ensures
            r == self@,
    {
        self.bytes
    }

    /// The byte count.
    pub fn as_b(&self) -> (r: usize)
        ensures
            r == self@,
    {
        self.bytes
    }

    /// Whole kibibytes, rounded down.
    pub fn as_kb(&self) -> (r: usize)
        ensures
            r == self@ / 1024,
    {
        proof {
            lemma_shl(self.bytes, 10);
            lemma2_to64();
            lemma2_to64_rest();
        }
        self.bytes >> 10usize
    }

    /// Whole mebibytes, rounded down.
    pub fn as_mb(&self) -> (r: usize)
        ensures
            r == self@ / 0x10_0000,
    {
        proof {
            lemma_shl(self.bytes, 20);
            lemma2_to64();
            lemma2_to64_rest();
        }
        self.bytes >> 20usize
    }

    /// Whole gibibytes, rounded down.
    pub fn as_gb(&self) -> (r: usize)
        ensures
            r == self@ / 0x4000_0000,
    {
        proof {
            lemma_shl(self.bytes, 30);
            lemma2_to64();
            lemma2_to64_rest();
        }
        self.bytes >> 30usize
    }

    /// Whole tebibytes, rounded down; the shift needs a `usize` wider than 40 bits.
    pub fn as_tb(&self) -> (r: usize)
        requires
            usize::BITS > 40,
        ensures
            r == self@ / 0x100_0000_0000,
    {
        proof {
            lemma_shl(self.bytes, 40);
            lemma2_to64();
            lemma2_to64_rest();
        }
        self.bytes >> 40usize
    }
}

} // verus!
