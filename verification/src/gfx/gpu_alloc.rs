use vstd::prelude::*;

verus! {

/// The block that offset `off` falls in, looking from block `i` on: the first block that
/// starts at or before `off` while the next starts after it, else the last block.
pub open spec fn block_scan(offs: Seq<u64>, off: u64, i: nat) -> nat
    decreases offs.len() - i,
{
    if i >= offs.len() {
        (offs.len() - 1) as nat
    } else if offs[i - 1] <= off && off < offs[i as int] {
        (i - 1) as nat
    } else {
        block_scan(offs, off, i + 1)
    }
}

/// The memory block of a pool that holds pool offset `off`, blocks starting at `offs`, as
/// `block_scan` says from the second block on.
pub fn find_off_mem_block(offs: &[u64], off: u64) -> (r: usize)
    requires
        offs@.len() >= 1,
    ensures
        r == block_scan(offs@, off, 1),
        r < offs@.len(),
{
    let mut i: usize = 1;
    while i < offs.len()
        invariant
            1 <= i <= offs@.len(),
            block_scan(offs@, off, i as nat) == block_scan(offs@, off, 1),
        decreases offs@.len() - i,
    {
        if offs[i - 1] <= off && off < offs[i] {
            return i - 1;
        }
        i = i + 1;
    }
    offs.len() - 1
}

/// How many bits of `x` are set.
pub open spec fn popcount(x: nat) -> nat
    decreases x,
{
    if x == 0 {
        0
    } else {
        x % 2 + popcount(x / 2)
    }
}

/// How well a memory type with property flags `flags` suits wanted properties `props`: 32 less
/// the number of flags in which they differ.
pub open spec fn type_score(flags: u32, props: u32) -> int {
    32 - popcount((flags ^ props) as nat)
}

/// Memory type `i` may hold the resource and has every wanted property.
pub open spec fn type_fits(type_bits: u32, flags: Seq<u32>, props: u32, i: int) -> bool {
    &&& 0 <= i < flags.len()
    &&& (type_bits >> (i as u32)) & 1 == 1
    &&& flags[i] & props == props
}

proof fn lemma_popcount_le(x: nat)
    ensures
        popcount(x) <= x,
    decreases x,
{
    if x > 0 {
        lemma_popcount_le(x / 2);
    }
}

fn count_ones(x: u32) -> (r: u32)
    ensures
        r == popcount(x as nat),
{
    proof {
        lemma_popcount_le(x as nat);
    }
    let mut n: u32 = 0;
    let mut y: u32 = x;
    while y != 0
        invariant
            n + popcount(y as nat) == popcount(x as nat),
            popcount(x as nat) <= x,
        decreases y,
    {
        n = n + y % 2;
        y = y / 2;
    }
    n
}

/// The memory type for a resource that may live in the types of `type_bits` and wants
/// properties `props`, among the types with property flags `flags`: one of those that fit with
/// the best score, `None` where none fits.
pub fn find_mem_type_idx(type_bits: u32, flags: &[u32], props: u32) -> (r: Option<u32>)
    requires
        flags@.len() <= 32,
    ensures
        r is None <==> forall|i: int| !#[trigger] type_fits(type_bits, flags@, props, i),
        r matches Some(i) ==> type_fits(type_bits, flags@, props, i as int) && forall|j: int|
            #[trigger] type_fits(type_bits, flags@, props, j) ==> type_score(flags@[j], props) <= type_score(
                flags@[i as int],
                props,
            ),
{
    let mut best: Option<u32> = None;
    let mut best_score: i64 = 0;
    let mut i: u32 = 0;
    while (i as usize) < flags.len()
        invariant
            i as nat <= flags@.len() <= 32,
            best is None <==> forall|j: int| 0 <= j < i ==> !#[trigger] type_fits(type_bits, flags@, props, j),
            best matches Some(b) ==> b < i && type_fits(type_bits, flags@, props, b as int)
                && best_score == type_score(flags@[b as int], props) && forall|j: int|
                0 <= j < i && #[trigger] type_fits(type_bits, flags@, props, j) ==> type_score(flags@[j], props)
                    <= best_score,
        decreases flags@.len() - i,
    {
        let f = flags[i as usize];
        let fits = (type_bits >> i) & 1 == 1 && f & props == props;
        assert(type_fits(type_bits, flags@, props, i as int) == fits);
        if fits {
            let score: i64 = 32 - count_ones(f ^ props) as i64;
            if best.is_none() || score >= best_score {
                best = Some(i);
                best_score = score;
            }
        }
        i = i + 1;
    }
    proof {
        assert forall|j: int| #[trigger] type_fits(type_bits, flags@, props, j) implies 0 <= j < i by {}
    }
    best
}

} // verus!
