use vstd::prelude::*;
use vstd::arithmetic::power2::{
    pow2, lemma_pow2_pos, lemma_pow2_unfold, lemma_pow2_strictly_increases, lemma_pow2_adds,
};
use vstd::bits::{
    lemma_usize_pow2_no_overflow, lemma_usize_shl_is_mul, lemma_usize_low_bits_mask_is_mod,
    low_bits_mask,
};

verus! {

// ---------------------------------------------------------------------------
// Powers of two
// ---------------------------------------------------------------------------

/// `k` is the exponent of the smallest power of two that is at least `x`
/// (`0` for `x <= 1`), which is what `next_power_of_two` rounds to.
pub open spec fn is_ceil_log2(x: nat, k: nat) -> bool {
    &&& x <= pow2(k)
    &&& (k == 0 || pow2((k - 1) as nat) < x)
}

/// The exponent of `x.next_power_of_two()`.
pub open spec fn ceil_log2(x: nat) -> nat {
    choose|k: nat| is_ceil_log2(x, k)
}

/// The largest power of two that fits in a `usize`.
pub open spec fn max_pow2() -> nat {
    pow2((usize::BITS - 1) as nat)
}

pub(crate) proof fn lemma_pow2_mono(a: nat, b: nat)
    requires
        a <= b,
    ensures
        pow2(a) <= pow2(b),
{
    if a < b {
        lemma_pow2_strictly_increases(a, b);
    }
}

proof fn lemma_ceil_log2_unique(x: nat, k: nat)
    requires
        is_ceil_log2(x, k),
    ensures
        ceil_log2(x) == k,
{
    let c = ceil_log2(x);
    assert(is_ceil_log2(x, c));
    if c < k {
        lemma_pow2_mono(c, (k - 1) as nat);
    } else if k < c {
        lemma_pow2_mono(k, (c - 1) as nat);
    }
}

/// `x.next_power_of_two()`, returned with its exponent.
pub(crate) fn next_pow2(x: usize) -> (r: (usize, usize))
    requires
        x <= max_pow2(),
    ensures
        r.0 == pow2(r.1 as nat),
        r.1 == ceil_log2(x as nat),
        is_ceil_log2(x as nat, r.1 as nat),
        r.1 < usize::BITS,
{
    let mut p: usize = 1;
    let mut k: usize = 0;
    proof {
        lemma_usize_pow2_no_overflow((usize::BITS - 1) as nat);
        assert(pow2(0) == 1) by {
            vstd::arithmetic::power2::lemma2_to64();
        }
    }
    while p < x
        invariant
            x <= max_pow2(),
            p == pow2(k as nat),
            p > 0,
            k == 0 || pow2((k - 1) as nat) < x,
            k < usize::BITS,
            max_pow2() < usize::MAX,
        decreases usize::BITS - k,
    {
        proof {
            if k >= usize::BITS - 1 {
                lemma_pow2_mono((usize::BITS - 1) as nat, k as nat);
            }
            lemma_pow2_unfold((k + 1) as nat);
            lemma_pow2_mono((k + 1) as nat, (usize::BITS - 1) as nat);
        }
        p = p * 2;
        k = k + 1;
    }
    proof {
        lemma_ceil_log2_unique(x as nat, k as nat);
    }
    (p, k)
}

/// `1 << k` as a `usize`.
pub(crate) fn pow2_usize(k: usize) -> (r: usize)
    requires
        k < usize::BITS,
    ensures
        r == pow2(k as nat),
{
    proof {
        lemma_usize_pow2_no_overflow(k as nat);
        lemma_usize_shl_is_mul(1, k);
    }
    1usize << k
}

// ---------------------------------------------------------------------------
// Free lists as sequences
// ---------------------------------------------------------------------------

/// The contents of the free lists: entry `i` holds the offsets of the free blocks of size `2^i`.
pub open spec fn lists_view(v: Seq<Vec<usize>>) -> Seq<Seq<usize>> {
    Seq::new(v.len(), |i: int| v[i]@)
}

/// Every free list holds offsets aligned to its block size, whose blocks end within `usize`.
pub open spec fn lists_ok(l: Seq<Seq<usize>>) -> bool {
    &&& 1 <= l.len() <= usize::BITS
    &&& forall|i: int, j: int|
        0 <= i < l.len() && 0 <= j < l[i].len() ==> {
            &&& (#[trigger] l[i][j]) as nat % pow2(i as nat) == 0
            &&& l[i][j] + pow2(i as nat) <= usize::MAX
        }
}

/// The first level at or above `i` whose free list is not empty; `l.len()` where there is none.
pub open spec fn first_free_level(l: Seq<Seq<usize>>, i: int) -> int
    decreases l.len() - i,
{
    if i < 0 || i >= l.len() {
        l.len() as int
    } else if l[i].len() > 0 {
        i
    } else {
        first_free_level(l, i + 1)
    }
}

/// The lists after the block at the end of list `j` was taken and split down to level `lo`:
/// list `j` loses its last offset `o`, and each level `k` in `lo..j` gains the upper half
/// `o + 2^k` of the block split at level `k + 1`.
pub open spec fn split_lists(l: Seq<Seq<usize>>, lo: int, j: int, o: usize) -> Seq<Seq<usize>> {
    Seq::new(
        l.len(),
        |k: int|
            if k == j {
                l[k].drop_last()
            } else if lo <= k < j {
                l[k].push((o + pow2(k as nat)) as usize)
            } else {
                l[k]
            },
    )
}

/// What `alloc(size)` returns: `usize::MAX` when no free block of size `2^ceil_log2(size)` or
/// larger exists, else the last offset of the first non-empty list at or above that level.
pub open spec fn alloc_result(l: Seq<Seq<usize>>, size: nat) -> usize {
    let j = first_free_level(l, ceil_log2(size) as int);
    if j >= l.len() {
        usize::MAX
    } else {
        l[j].last()
    }
}

/// The free lists after `alloc(size)`.
pub open spec fn alloc_lists(l: Seq<Seq<usize>>, size: nat) -> Seq<Seq<usize>> {
    let e = ceil_log2(size) as int;
    let j = first_free_level(l, e);
    if j >= l.len() {
        l
    } else {
        split_lists(l, e, j, l[j].last())
    }
}

/// The index of the first occurrence of `x` in `s` at or after `i`.
pub open spec fn first_from(s: Seq<usize>, x: usize, i: int) -> Option<int>
    decreases s.len() - i,
{
    if i < 0 || i >= s.len() {
        None
    } else if s[i] == x {
        Some(i)
    } else {
        first_from(s, x, i + 1)
    }
}

/// `s` with the element at `p` replaced by the last one and the last one dropped.
pub open spec fn swap_removed(s: Seq<usize>, p: int) -> Seq<usize> {
    s.update(p, s.last()).drop_last()
}

/// The buddy of the block at `off` of size `2^i`.
pub open spec fn buddy_of(off: usize, i: nat) -> usize {
    off ^ (pow2(i) as usize)
}

/// The block of size `2^(i+1)` that holds the block at `off` of size `2^i`.
pub open spec fn parent_of(off: usize, i: nat) -> usize {
    off & !(pow2(i) as usize)
}

/// Freeing the block at `off` of size `2^i` never looks at a level beyond the last list.
pub open spec fn merge_ok(l: Seq<Seq<usize>>, i: nat, off: usize) -> bool
    decreases l.len() - i,
{
    if i >= l.len() {
        false
    } else {
        match first_from(l[i as int], buddy_of(off, i), 0) {
            Some(p) => merge_ok(
                l.update(i as int, swap_removed(l[i as int], p)),
                i + 1,
                parent_of(off, i),
            ),
            None => true,
        }
    }
}

/// The free lists after the block at `off` of size `2^i` was freed: while its buddy is free,
/// the buddy leaves its list and the two merge into their parent one level up; the final block
/// goes at the end of its level's list.
pub open spec fn merge_lists(l: Seq<Seq<usize>>, i: nat, off: usize) -> Seq<Seq<usize>>
    decreases l.len() - i,
{
    if i >= l.len() {
        l
    } else {
        match first_from(l[i as int], buddy_of(off, i), 0) {
            Some(p) => merge_lists(
                l.update(i as int, swap_removed(l[i as int], p)),
                i + 1,
                parent_of(off, i),
            ),
            None => l.update(i as int, l[i as int].push(off)),
        }
    }
}

// ---------------------------------------------------------------------------
// Bits of block offsets
// ---------------------------------------------------------------------------

proof fn lemma_buddy_bits_bv(off: usize, s: usize, m: usize)
    by (bit_vector)
    requires
        s != 0,
        m + 1 == s,
        s & m == 0,
        off & m == 0,
    ensures
        off & s == 0 ==> (off ^ s) == off + s && (off & !s) == off,
        off & s != 0 ==> (off ^ s) == off - s && (off & !s) == off - s,
        (off ^ s) & m == 0,
{
}

proof fn lemma_parent_bits_bv(off: usize, s: usize, m: usize, m2: usize)
    by (bit_vector)
    requires
        s != 0,
        m + 1 == s,
        m2 + 1 == s + s,
        s & m == 0,
        off & m == 0,
    ensures
        (off & !s) & m2 == 0,
{
}

/// `pow2(i)` is a `usize` whose low bits below `i` are clear, and so is every offset aligned to it.
proof fn lemma_aligned_mask(x: usize, i: nat)
    requires
        i < usize::BITS,
    ensures
        pow2(i) <= usize::MAX,
        low_bits_mask(i) <= usize::MAX,
        low_bits_mask(i) + 1 == pow2(i),
        (x & (low_bits_mask(i) as usize)) == x % (pow2(i) as usize),
{
    lemma_usize_pow2_no_overflow(i);
    lemma_pow2_pos(i);
    lemma_usize_low_bits_mask_is_mod(x, i);
}

/// Arithmetic meaning of `buddy_of` and `parent_of` for an aligned block: the block and its
/// buddy are the two halves `p` and `p + 2^i` of their parent `p`, which is aligned to `2^(i+1)`.
pub proof fn lemma_buddy(off: usize, i: nat)
    requires
        i < usize::BITS,
        off as nat % pow2(i) == 0,
    ensures
        ({
            let s = pow2(i);
            let b = buddy_of(off, i);
            let p = parent_of(off, i);
            &&& (p == off && b == off + s) || (p == b && off == b + s)
            &&& b as nat % pow2(i) == 0
            &&& (i + 1 < usize::BITS ==> p as nat % pow2(i + 1) == 0)
        }),
{
    let s = pow2(i) as usize;
    let m = low_bits_mask(i) as usize;
    lemma_aligned_mask(off, i);
    lemma_aligned_mask(s, i);
    vstd::arithmetic::div_mod::lemma_mod_self_0(pow2(i) as int);
    lemma_buddy_bits_bv(off, s, m);
    let b = off ^ s;
    lemma_aligned_mask(b, i);
    if i + 1 < usize::BITS {
        let m2 = low_bits_mask(i + 1) as usize;
        lemma_aligned_mask(off & !s, i + 1);
        lemma_pow2_unfold(i + 1);
        lemma_parent_bits_bv(off, s, m, m2);
    }
}

// ---------------------------------------------------------------------------
// Executable operations on the free lists
// ---------------------------------------------------------------------------

/// The index of the first occurrence of `x` in `v`.
pub(crate) fn position(v: &Vec<usize>, x: usize) -> (r: Option<usize>)
    ensures
        r matches Some(p) ==> first_from(v@, x, 0) == Some(p as int),
        r is None ==> first_from(v@, x, 0) is None,
{
    let mut i: usize = 0;
    while i < v.len()
        invariant
            i <= v.len(),
            first_from(v@, x, 0) == first_from(v@, x, i as int),
        decreases v.len() - i,
    {
        if v[i] == x {
            return Some(i);
        }
        i = i + 1;
    }
    None
}


pub(crate) proof fn lemma_first_from(s: Seq<usize>, x: usize, i: int)
    requires
        i >= 0,
    ensures
        first_from(s, x, i) matches Some(p) ==> i <= p < s.len() && s[p] == x,
        first_from(s, x, i) is None ==> forall|q: int| i <= q < s.len() ==> s[q] != x,
    decreases s.len() - i,
{
    if i >= 0 && i < s.len() && s[i] != x {
        lemma_first_from(s, x, i + 1);
    }
}

proof fn lemma_aligned_down(o: nat, k: nat, j: nat)
    requires
        k <= j,
        o % pow2(j) == 0,
    ensures
        o % pow2(k) == 0,
{
    lemma_pow2_pos(k);
    lemma_pow2_pos(j);
    lemma_pow2_pos((j - k) as nat);
    lemma_pow2_adds(k, (j - k) as nat);
    let q = o / pow2(j);
    vstd::arithmetic::div_mod::lemma_fundamental_div_mod(o as int, pow2(j) as int);
    vstd::arithmetic::mul::lemma_mul_is_associative(pow2(k) as int, pow2((j - k) as nat) as int, q as int);
    vstd::arithmetic::mul::lemma_mul_is_commutative(pow2(k) as int, (pow2((j - k) as nat) * q) as int);
    vstd::arithmetic::div_mod::lemma_mod_multiples_basic((pow2((j - k) as nat) * q) as int, pow2(k) as int);
}

proof fn lemma_aligned_add(o: nat, k: nat)
    requires
        o % pow2(k) == 0,
    ensures
        (o + pow2(k)) % pow2(k) == 0,
{
    lemma_pow2_pos(k);
    vstd::arithmetic::div_mod::lemma_mod_adds(o as int, pow2(k) as int, pow2(k) as int);
    vstd::arithmetic::div_mod::lemma_mod_self_0(pow2(k) as int);
}

proof fn lemma_split_ok(l: Seq<Seq<usize>>, lo: int, j: int, o: usize)
    requires
        lists_ok(l),
        0 <= lo <= j < l.len(),
        l[j].len() > 0,
        o == l[j].last(),
    ensures
        lists_ok(split_lists(l, lo, j, o)),
{
    let r = split_lists(l, lo, j, o);
    assert(o as nat % pow2(j as nat) == 0 && o + pow2(j as nat) <= usize::MAX) by {
        assert(l[j][l[j].len() - 1] == o);
    }
    assert forall|i: int, q: int| 0 <= i < r.len() && 0 <= q < r[i].len() implies {
        &&& (#[trigger] r[i][q]) as nat % pow2(i as nat) == 0
        &&& r[i][q] + pow2(i as nat) <= usize::MAX
    } by {
        if lo <= i < j && q == l[i].len() {
            lemma_aligned_down(o as nat, i as nat, j as nat);
            lemma_aligned_add(o as nat, i as nat);
            lemma_pow2_unfold((i + 1) as nat);
            lemma_pow2_mono((i + 1) as nat, j as nat);
            assert(r[i][q] == o + pow2(i as nat));
        } else {
            assert(r[i][q] == l[i][q]);
        }
    }
}

pub(crate) proof fn lemma_swap_removed_ok(l: Seq<Seq<usize>>, i: int, p: int)
    requires
        lists_ok(l),
        0 <= i < l.len(),
        0 <= p < l[i].len(),
    ensures
        lists_ok(l.update(i, swap_removed(l[i], p))),
{
    let r = l.update(i, swap_removed(l[i], p));
    assert forall|a: int, q: int| 0 <= a < r.len() && 0 <= q < r[a].len() implies {
        &&& (#[trigger] r[a][q]) as nat % pow2(a as nat) == 0
        &&& r[a][q] + pow2(a as nat) <= usize::MAX
    } by {
        if a == i {
            if q == p {
                assert(r[a][q] == l[i][l[i].len() - 1]);
            } else {
                assert(r[a][q] == l[i][q]);
            }
        } else {
            assert(r[a][q] == l[a][q]);
        }
    }
}

pub(crate) proof fn lemma_push_ok(l: Seq<Seq<usize>>, i: int, off: usize)
    requires
        lists_ok(l),
        0 <= i < l.len(),
        off as nat % pow2(i as nat) == 0,
        off + pow2(i as nat) <= usize::MAX,
    ensures
        lists_ok(l.update(i, l[i].push(off))),
{
    let r = l.update(i, l[i].push(off));
    assert forall|a: int, q: int| 0 <= a < r.len() && 0 <= q < r[a].len() implies {
        &&& (#[trigger] r[a][q]) as nat % pow2(a as nat) == 0
        &&& r[a][q] + pow2(a as nat) <= usize::MAX
    } by {
        if a == i && q == l[i].len() {
            assert(r[a][q] == off);
        } else {
            assert(r[a][q] == l[a][q]);
        }
    }
}

/// Takes the block for a request of `size` bytes from the free lists.
pub(crate) fn lists_alloc(lists: &mut Vec<Vec<usize>>, size: usize) -> (r: usize)
    requires
        lists_ok(lists_view(old(lists)@)),
        size <= max_pow2(),
    ensures
        r == alloc_result(lists_view(old(lists)@), size as nat),
        lists_view(final(lists)@) == alloc_lists(lists_view(old(lists)@), size as nat),
        lists_ok(lists_view(final(lists)@)),
{
    let ghost l = lists_view(lists@);
    let (size2, e) = next_pow2(size);
    let mut i = e;
    if i >= lists.len() {
        return usize::MAX;
    }
    while i < lists.len() && lists[i].len() == 0
        invariant
            e <= i <= lists.len(),
            lists_view(lists@) == l,
            lists.len() == l.len(),
            first_free_level(l, i as int) == first_free_level(l, e as int),
        decreases lists.len() - i,
    {
        i = i + 1;
    }
    if i >= lists.len() {
        return usize::MAX;
    }
    let ghost j = i as int;
    assert(l[j].len() > 0);
    let offset = lists[i].pop().unwrap();
    assert(lists_view(lists@) =~= split_lists(l, j, j, offset));
    proof {
        assert(l[j][l[j].len() - 1] == offset);
        lemma_pow2_mono(e as nat, j as nat);
    }
    let mut current_size = pow2_usize(i);
    while current_size > size2
        invariant
            e <= i <= j,
            j < l.len(),
            l.len() == lists.len(),
            lists_ok(l),
            l[j].len() > 0,
            offset == l[j].last(),
            current_size == pow2(i as nat),
            size2 == pow2(e as nat),
            lists_view(lists@) == split_lists(l, i as int, j, offset),
        decreases i,
    {
        proof {
            if i <= e {
                lemma_pow2_mono(i as nat, e as nat);
            }
            lemma_pow2_unfold(i as nat);
            assert(offset + pow2(j as nat) <= usize::MAX) by {
                assert(l[j][l[j].len() - 1] == offset);
            }
            lemma_pow2_mono(i as nat, j as nat);
        }
        current_size = current_size / 2;
        let ghost before = lists_view(lists@);
        let ghost before_vec = lists@;
        lists[i - 1].push(offset + current_size);
        i = i - 1;
        proof {
            let after = lists_view(lists@);
            assert(before[i as int] == l[i as int]);
            assert(after[i as int] == before[i as int].push((offset + current_size) as usize));
            assert(current_size == pow2(i as nat));
            assert forall|k: int| 0 <= k < after.len() && k != i implies after[k] == before[k] by {
                assert(lists@[k] == before_vec[k]);
            }
        }
        assert(lists_view(lists@) =~= split_lists(l, i as int, j, offset));
    }
    proof {
        if i > e {
            lemma_pow2_strictly_increases(e as nat, i as nat);
        }
        lemma_split_ok(l, e as int, j, offset);
    }
    offset
}

/// Frees the block at `offset` of size `size == 2^i`, merging it with its free buddies.
fn lists_merge(lists: &mut Vec<Vec<usize>>, size: usize, i: usize, offset: usize)
    requires
        lists_ok(lists_view(old(lists)@)),
        i < old(lists).len(),
        size == pow2(i as nat),
        offset as nat % pow2(i as nat) == 0,
        offset + pow2(i as nat) <= usize::MAX,
        merge_ok(lists_view(old(lists)@), i as nat, offset),
    ensures
        lists_view(final(lists)@) == merge_lists(lists_view(old(lists)@), i as nat, offset),
        lists_ok(lists_view(final(lists)@)),
    decreases old(lists).len() - i,
{
    let ghost l = lists_view(lists@);
    let buddy = offset ^ size;
    match position(&lists[i], buddy) {
        Some(pos) => {
            proof {
                lemma_first_from(l[i as int], buddy, 0);
                lemma_buddy(offset, i as nat);
                lemma_swap_removed_ok(l, i as int, pos as int);
                assert(buddy_of(offset, i as nat) == buddy);
                reveal_with_fuel(merge_ok, 2);
                assert(i + 1 < l.len());
                lemma_usize_pow2_no_overflow((i + 1) as nat);
                lemma_pow2_unfold((i + 1) as nat);
            }
            lists[i].swap_remove(pos);
            assert(lists_view(lists@) =~= l.update(i as int, swap_removed(l[i as int], pos as int)));
            lists_merge(lists, size * 2, i + 1, offset & !size);
        },
        None => {
            proof {
                lemma_push_ok(l, i as int, offset);
            }
            lists[i].push(offset);
            assert(lists_view(lists@) =~= l.update(i as int, l[i as int].push(offset)));
        },
    }
}

/// Frees the block at `offset` that a request of `size` bytes was given.
pub(crate) fn lists_dealloc(lists: &mut Vec<Vec<usize>>, offset: usize, size: usize)
    requires
        lists_ok(lists_view(old(lists)@)),
        size <= max_pow2(),
        offset as nat % pow2(ceil_log2(size as nat)) == 0,
        offset + pow2(ceil_log2(size as nat)) <= usize::MAX,
        merge_ok(lists_view(old(lists)@), ceil_log2(size as nat), offset),
    ensures
        lists_view(final(lists)@) == merge_lists(lists_view(old(lists)@), ceil_log2(size as nat), offset),
        lists_ok(lists_view(final(lists)@)),
{
    let (size2, e) = next_pow2(size);
    lists_merge(lists, size2, e, offset);
}


// ---------------------------------------------------------------------------
// Resizing
// ---------------------------------------------------------------------------

/// Keeps the blocks of level `i` that end at or before `bound`.
pub open spec fn ends_within(i: nat, bound: nat) -> spec_fn(usize) -> bool {
    |x: usize| x + pow2(i) <= bound
}

/// Some list at level `n` or above holds the block at offset 0.
pub open spec fn zero_at_or_above(l: Seq<Seq<usize>>, n: int) -> bool {
    exists|k: int| n <= k < l.len() && (#[trigger] l[k]).contains(0usize)
}

/// `l` grown to `n` lists with empty lists.
pub open spec fn grown(l: Seq<Seq<usize>>, n: nat) -> Seq<Seq<usize>> {
    Seq::new(n, |k: int| if k < l.len() { l[k] } else { Seq::empty() })
}

/// The free lists after `resize` to a pool of `2^e` bytes: when shrinking, the new top level
/// gets offset 0 if some dropped level held it, and each kept level keeps the blocks that end
/// within the new pool; when growing, a wholly free pool moves to the new top level, and
/// otherwise each level from the old top up to below the new top gains the block `2^k`.
pub open spec fn resized_lists(l: Seq<Seq<usize>>, e: nat) -> Seq<Seq<usize>> {
    let n = e + 1;
    let old_len = l.len();
    if n < old_len {
        let l1 = if zero_at_or_above(l, n as int) {
            l.update(e as int, l[e as int].push(0))
        } else {
            l
        };
        Seq::new(n, |i: int| l1[i].filter(ends_within(i as nat, pow2(e))))
    } else if n > old_len {
        let l1 = grown(l, n);
        if l[old_len - 1] == seq![0usize] {
            l1.update(old_len - 1, Seq::empty()).update(e as int, seq![0usize])
        } else {
            Seq::new(
                n,
                |k: int|
                    if old_len - 1 <= k < e {
                        l1[k].push(pow2(k as nat) as usize)
                    } else {
                        l1[k]
                    },
            )
        }
    } else {
        l
    }
}

/// `v` without the offsets whose level-`i` block ends past `bound`.
pub(crate) fn retain_within(v: &mut Vec<usize>, i: usize, bound: usize)
    requires
        i < usize::BITS,
        forall|q: int| 0 <= q < old(v)@.len() ==> old(v)@[q] + pow2(i as nat) <= usize::MAX,
    ensures
        final(v)@ == old(v)@.filter(ends_within(i as nat, bound as nat)),
{
    let size = pow2_usize(i);
    let mut kept: Vec<usize> = Vec::new();
    let mut k: usize = 0;
    while k < v.len()
        invariant
            k <= v.len(),
            size == pow2(i as nat),
            forall|q: int| 0 <= q < v@.len() ==> v@[q] + pow2(i as nat) <= usize::MAX,
            kept@ == v@.take(k as int).filter(ends_within(i as nat, bound as nat)),
        decreases v.len() - k,
    {
        proof {
            assert(v@.take(k + 1) == v@.take(k as int).push(v@[k as int]));
            v@.take(k as int).lemma_filter_push(v@[k as int], ends_within(i as nat, bound as nat));
        }
        if v[k] + size <= bound {
            kept.push(v[k]);
        }
        k = k + 1;
    }
    assert(v@.take(v@.len() as int) == v@);
    *v = kept;
}

/// Whether some list at index `from` or above holds offset 0.
fn zero_from(lists: &Vec<Vec<usize>>, from: usize) -> (r: bool)
    ensures
        r == zero_at_or_above(lists_view(lists@), from as int),
{
    let ghost l = lists_view(lists@);
    let mut k = from;
    while k < lists.len()
        invariant
            from <= k,
            l == lists_view(lists@),
            forall|kk: int| from <= kk < k && kk < l.len() ==> !(#[trigger] l[kk]).contains(0usize),
        decreases lists.len() - k,
    {
        if position(&lists[k], 0).is_some() {
            proof {
                lemma_first_from(l[k as int], 0, 0);
                let p = first_from(l[k as int], 0, 0)->0;
                assert(l[k as int][p] == 0);
            }
            return true;
        }
        proof {
            lemma_first_from(l[k as int], 0, 0);
        }
        k = k + 1;
    }
    false
}

pub(crate) proof fn lemma_filter_ok(l: Seq<Seq<usize>>, n: int, bound: nat)
    requires
        lists_ok(l),
        1 <= n <= l.len(),
    ensures
        lists_ok(Seq::new(n as nat, |i: int| l[i].filter(ends_within(i as nat, bound)))),
{
    let r = Seq::new(n as nat, |i: int| l[i].filter(ends_within(i as nat, bound)));
    assert forall|a: int, q: int| 0 <= a < r.len() && 0 <= q < r[a].len() implies {
        &&& (#[trigger] r[a][q]) as nat % pow2(a as nat) == 0
        &&& r[a][q] + pow2(a as nat) <= usize::MAX
    } by {
        let x = r[a][q];
        assert(r[a].contains(x));
        l[a].lemma_filter_contains_rev(ends_within(a as nat, bound), x);
        let w = choose|w: int| 0 <= w < l[a].len() && l[a][w] == x;
        assert(l[a][w] == x);
    }
}

/// Resizes the free lists to a pool of `new_size.next_power_of_two()` bytes.
pub(crate) fn lists_resize(lists: &mut Vec<Vec<usize>>, new_size: usize)
    requires
        lists_ok(lists_view(old(lists)@)),
        new_size <= max_pow2(),
    ensures
        lists_view(final(lists)@) == resized_lists(lists_view(old(lists)@), ceil_log2(new_size as nat)),
        lists_ok(lists_view(final(lists)@)),
{
    let ghost l = lists_view(lists@);
    let (new_size2, e) = next_pow2(new_size);
    let new_len = e + 1;
    let old_len = lists.len();
    if new_len < old_len {
        let zero = zero_from(lists, new_len);
        if zero {
            lists[e].push(0);
            proof {
                lemma_pow2_pos(e as nat);
                vstd::arithmetic::div_mod::lemma_small_mod(0, pow2(e as nat));
                lemma_usize_pow2_no_overflow(e as nat);
                lemma_push_ok(l, e as int, 0);
            }
        }
        let ghost l1 = lists_view(lists@);
        assert(l1 =~= (if zero_at_or_above(l, new_len as int) { l.update(e as int, l[e as int].push(0)) } else { l }));
        lists.truncate(new_len);
        let mut i: usize = 0;
        while i < new_len
            invariant
                i <= new_len,
                new_len <= l1.len(),
                lists.len() == new_len,
                lists_ok(l1),
                new_size2 == pow2(e as nat),
                new_len == e + 1,
                forall|k: int| 0 <= k < i ==> (#[trigger] lists@[k])@ == l1[k].filter(ends_within(k as nat, pow2(e as nat))),
                forall|k: int| i <= k < new_len ==> (#[trigger] lists@[k])@ == l1[k],
            decreases new_len - i,
        {
            proof {
                assert forall|q: int| 0 <= q < lists@[i as int]@.len() implies lists@[i as int]@[q] + pow2(i as nat) <= usize::MAX by {
                    assert(l1[i as int][q] == lists@[i as int]@[q]);
                }
            }
            retain_within(&mut lists[i], i, new_size2);
            i = i + 1;
        }
        proof {
            assert(lists_view(lists@) =~= Seq::new(new_len as nat, |k: int| l1[k].filter(ends_within(k as nat, pow2(e as nat)))));
            lemma_filter_ok(l1, new_len as int, pow2(e as nat));
        }
    } else if new_len > old_len {
        lists.resize(new_len, Vec::new());
        let ghost l1 = lists_view(lists@);
        assert(l1 =~= grown(l, new_len as nat)) by {
            assert forall|k: int| 0 <= k < new_len implies #[trigger] l1[k] == grown(l, new_len as nat)[k] by {
                if k >= old_len {
                    assert(lists@[k]@.len() == 0);
                }
            }
        }
        if lists[old_len - 1].len() == 1 && lists[old_len - 1][0] == 0 {
            assert(l[old_len - 1] =~= seq![0usize]);
            lists[old_len - 1] = Vec::new();
            let mut top = Vec::new();
            top.push(0);
            lists[e] = top;
            proof {
                lemma_pow2_pos(e as nat);
                vstd::arithmetic::div_mod::lemma_small_mod(0, pow2(e as nat));
                lemma_usize_pow2_no_overflow(e as nat);
            }
            assert(lists_view(lists@) =~= l1.update(old_len - 1, Seq::empty()).update(e as int, seq![0usize]));
        } else {
            assert(l[old_len - 1] != seq![0usize]) by {
                if l[old_len - 1] == seq![0usize] {
                    assert(l[old_len - 1].len() == 1 && l[old_len - 1][0] == 0);
                }
            }
            let mut i = old_len;
            while i < new_len
                invariant
                    old_len <= i <= new_len,
                    1 <= old_len,
                    new_len == e + 1,
                    e < usize::BITS,
                    lists.len() == new_len,
                    l1 == grown(l, new_len as nat),
                    forall|k: int| 0 <= k < new_len ==> (#[trigger] lists@[k])@ == (if old_len - 1 <= k < i - 1 {
                        l1[k].push(pow2(k as nat) as usize)
                    } else {
                        l1[k]
                    }),
                decreases new_len - i,
            {
                let b = pow2_usize(i - 1);
                lists[i - 1].push(b);
                i = i + 1;
            }
            assert(lists_view(lists@) =~= Seq::new(
                new_len as nat,
                |k: int|
                    if old_len - 1 <= k < e {
                        l1[k].push(pow2(k as nat) as usize)
                    } else {
                        l1[k]
                    },
            ));
        }
        proof {
            lemma_grow_ok(l, e as nat);
        }
    }
}

pub(crate) proof fn lemma_grow_ok(l: Seq<Seq<usize>>, e: nat)
    requires
        lists_ok(l),
        e + 1 > l.len(),
        e < usize::BITS,
    ensures
        lists_ok(resized_lists(l, e)),
{
    let r = resized_lists(l, e);
    let n = e + 1;
    let l1 = grown(l, n);
    lemma_usize_pow2_no_overflow(e);
    assert forall|a: int, q: int| 0 <= a < r.len() && 0 <= q < r[a].len() implies {
        &&& (#[trigger] r[a][q]) as nat % pow2(a as nat) == 0
        &&& r[a][q] + pow2(a as nat) <= usize::MAX
    } by {
        if l[l.len() - 1] == seq![0usize] {
            if a == e {
                lemma_pow2_pos(e);
                vstd::arithmetic::div_mod::lemma_small_mod(0, pow2(e));
            } else {
                assert(a < l.len() && a != l.len() - 1);
                assert(r[a][q] == l[a][q]);
            }
        } else {
            if l.len() - 1 <= a < e && q == l1[a].len() {
                lemma_pow2_pos(a as nat);
                vstd::arithmetic::div_mod::lemma_mod_self_0(pow2(a as nat) as int);
                lemma_pow2_unfold((a + 1) as nat);
                lemma_pow2_mono((a + 1) as nat, e);
                lemma_usize_pow2_no_overflow(a as nat);
                assert(r[a][q] == pow2(a as nat));
            } else {
                assert(a < l.len());
                assert(r[a][q] == l[a][q]);
            }
        }
    }
}


// ---------------------------------------------------------------------------
// The allocator
// ---------------------------------------------------------------------------

/// The free lists of a fresh allocator for a pool of `2^e` bytes: only the top level holds a
/// block, the whole pool at offset 0.
pub open spec fn initial_lists(e: nat) -> Seq<Seq<usize>> {
    Seq::new(e + 1, |k: int| if k == e { seq![0usize] } else { Seq::empty() })
}

/// The free lists of a fresh allocator for `size` bytes, rounded up to a power of two.
pub(crate) fn lists_new(size: usize) -> (r: Vec<Vec<usize>>)
    requires
        size <= max_pow2(),
    ensures
        lists_view(r@) == initial_lists(ceil_log2(size as nat)),
        lists_ok(lists_view(r@)),
{
    let (_size2, e) = next_pow2(size);
    let len = e + 1;
    let mut free_lists: Vec<Vec<usize>> = Vec::new();
    free_lists.resize(len, Vec::new());
    free_lists[len - 1].push(0);
    proof {
        assert(lists_view(free_lists@) =~= initial_lists(e as nat)) by {
            assert forall|k: int| 0 <= k < len implies #[trigger] lists_view(free_lists@)[k] == initial_lists(e as nat)[k] by {
                if k != e {
                    assert(free_lists@[k]@.len() == 0);
                }
            }
        }
        lemma_pow2_pos(e as nat);
        vstd::arithmetic::div_mod::lemma_small_mod(0, pow2(e as nat));
        lemma_usize_pow2_no_overflow(e as nat);
    }
    free_lists
}

/// A buddy allocator over offsets into a pool of `size.next_power_of_two()` bytes.
#[derive(Clone, Debug)]
pub struct BuddyAlloc {
    size: usize,
    /// 2^i -> [offsets]
    free_lists: Vec<Vec<usize>>,
}

impl View for BuddyAlloc {
    /// The size the allocator was made or resized with, and its free lists.
    type V = (nat, Seq<Seq<usize>>);

    closed spec fn view(&self) -> (nat, Seq<Seq<usize>>) {
        (self.size as nat, lists_view(self.free_lists@))
    }
}

impl BuddyAlloc {
    /// The free lists are well formed: aligned offsets whose blocks end within `usize`.
    pub open spec fn inv(&self) -> bool {
        lists_ok(self@.1)
    }

    /// An allocator for `size` bytes, rounded up to a power of two, all of it free.
    pub fn new(size: usize) -> (r: Self)
        requires
            size <= max_pow2(),
        ensures
            r.inv(),
            r@.0 == size,
            r@.1 == initial_lists(ceil_log2(size as nat)),
    {
        Self { size, free_lists: lists_new(size) }
    }

    /// `O(log N)`, where N is pool size\
    /// non pow2 sizes are rounded up causing fragmentation\
    /// finds smallest block that can contain size\
    /// if block is bigger than size * 2, splits it\
    /// ### Returns
    /// - offset of newly alloced memory
    /// - `usize::MAX` when out of space
    pub fn allocate(&mut self, size: usize) -> (r: usize)
        requires
            old(self).inv(),
            size <= max_pow2(),
        ensures
            final(self).inv(),
            r == alloc_result(old(self)@.1, size as nat),
            final(self)@.1 == alloc_lists(old(self)@.1, size as nat),
            final(self)@.0 == old(self)@.0,
    {
        lists_alloc(&mut self.free_lists, size)
    }

    /// `O(log N)`, where `N` is allocations\
    /// worst case `O(n)` where n is allocations
    pub fn dealloc(&mut self, offset: usize, size: usize)
        requires
            old(self).inv(),
            size <= max_pow2(),
            offset as nat % pow2(ceil_log2(size as nat)) == 0,
            offset + pow2(ceil_log2(size as nat)) <= usize::MAX,
            merge_ok(old(self)@.1, ceil_log2(size as nat), offset),
        ensures
            final(self).inv(),
            final(self)@.1 == merge_lists(old(self)@.1, ceil_log2(size as nat), offset),
            final(self)@.0 == old(self)@.0,
    {
        lists_dealloc(&mut self.free_lists, offset, size)
    }

    /// grow and add/extend free ranges\
    /// or shrink and remove outside ranges
    pub fn resize(&mut self, new_size: usize)
        requires
            old(self).inv(),
            new_size <= max_pow2(),
        ensures
            final(self).inv(),
            final(self)@.0 == new_size,
            final(self)@.1 == resized_lists(old(self)@.1, ceil_log2(new_size as nat)),
    {
        self.size = new_size;
        lists_resize(&mut self.free_lists, new_size);
    }

    /// The size the allocator was made or last resized with.
    pub fn len(&self) -> (r: usize)
        ensures
            r == self@.0,
    {
        self.size
    }
}


pub(crate) proof fn lemma_aligned_down_pub(o: nat, k: nat, j: nat)
    requires
        k <= j,
        o % pow2(j) == 0,
    ensures
        o % pow2(k) == 0,
{
    lemma_aligned_down(o, k, j);
}

pub(crate) proof fn lemma_split_ok_pub(l: Seq<Seq<usize>>, lo: int, j: int, o: usize)
    requires
        lists_ok(l),
        0 <= lo <= j < l.len(),
        l[j].len() > 0,
        o == l[j].last(),
    ensures
        lists_ok(split_lists(l, lo, j, o)),
{
    lemma_split_ok(l, lo, j, o);
}

} // verus!
