use vstd::prelude::*;
use vstd::arithmetic::power2::{pow2, lemma_pow2_pos, lemma_pow2_unfold, lemma_pow2_strictly_increases};
use vstd::bits::lemma_usize_pow2_no_overflow;
use crate::util::buddy_alloc::{
    alloc_lists, alloc_result, buddy_of, ceil_log2, first_free_level, initial_lists, lemma_buddy,
    lemma_pow2_mono, lists_ok, merge_lists, merge_ok, parent_of, split_lists, swap_removed,
    first_from, lemma_push_ok, lemma_swap_removed_ok, lemma_first_from, resized_lists, grown,
    zero_at_or_above, ends_within, lemma_grow_ok, lemma_filter_ok, lemma_aligned_down_pub,
};

verus! {

// ---------------------------------------------------------------------------
// Blocks and free bytes
// ---------------------------------------------------------------------------

/// The list of level `i` holds the block at offset `b` (of size `2^i`).
pub open spec fn holds(l: Seq<Seq<usize>>, i: int, b: usize) -> bool {
    0 <= i < l.len() && l[i].contains(b)
}

/// The size of the pool: the block size of the top level.
pub open spec fn pool(l: Seq<Seq<usize>>) -> nat {
    pow2((l.len() - 1) as nat)
}

/// The bytes of the block at offset `b` of size `2^i`.
pub open spec fn block_bytes(b: int, i: nat) -> Set<int> {
    Set::new(|x: int| b <= x < b + pow2(i))
}

/// The blocks at `b1` of size `2^i1` and at `b2` of size `2^i2` share a byte.
pub open spec fn overlap(b1: int, i1: nat, b2: int, i2: nat) -> bool {
    b1 < b2 + pow2(i2) && b2 < b1 + pow2(i1)
}

/// Every byte of some free block.
pub open spec fn free_bytes(l: Seq<Seq<usize>>) -> Set<int> {
    Set::new(|x: int| exists|i: int, b: usize| #[trigger] holds(l, i, b) && b <= x < b + pow2(i as nat))
}

/// The free lists of a buddy allocator in use: well formed, every free block inside the pool,
/// no two free blocks sharing a byte, and no block free together with its buddy.
pub open spec fn lists_wf(l: Seq<Seq<usize>>) -> bool {
    &&& lists_ok(l)
    &&& forall|i: int, b: usize| #[trigger] holds(l, i, b) ==> b + pow2(i as nat) <= pool(l)
    &&& forall|i: int| 0 <= i < l.len() ==> (#[trigger] l[i]).no_duplicates()
    &&& forall|i1: int, b1: usize, i2: int, b2: usize|
        #![trigger holds(l, i1, b1), holds(l, i2, b2)]
        holds(l, i1, b1) && holds(l, i2, b2) && (i1 != i2 || b1 != b2) ==> !overlap(
            b1 as int,
            i1 as nat,
            b2 as int,
            i2 as nat,
        )
    &&& forall|i: int, b: usize| #[trigger] holds(l, i, b) ==> !holds(l, i, buddy_of(b, i as nat))
}

proof fn lemma_holds_ok(l: Seq<Seq<usize>>, i: int, b: usize)
    requires
        lists_ok(l),
        holds(l, i, b),
    ensures
        b as nat % pow2(i as nat) == 0,
        b + pow2(i as nat) <= usize::MAX,
{
    let q = choose|q: int| 0 <= q < l[i].len() && l[i][q] == b;
    assert(l[i][q] == b);
}

// ---------------------------------------------------------------------------
// A fresh allocator
// ---------------------------------------------------------------------------

/// A fresh allocator's free lists are in use-shape, and all of its pool is free.
pub proof fn lemma_new_all_free(e: nat)
    requires
        e < usize::BITS,
    ensures
        lists_wf(initial_lists(e)),
        free_bytes(initial_lists(e)) == block_bytes(0, e),
        pool(initial_lists(e)) == pow2(e),
{
    let l = initial_lists(e);
    lemma_usize_pow2_no_overflow(e);
    lemma_pow2_pos(e);
    vstd::arithmetic::div_mod::lemma_small_mod(0, pow2(e));
    assert forall|i: int, b: usize| #[trigger] holds(l, i, b) implies i == e && b == 0 by {
        let q = choose|q: int| 0 <= q < l[i].len() && l[i][q] == b;
    }
    assert(holds(l, e as int, 0)) by {
        assert(l[e as int][0] == 0);
    }
    assert(lists_ok(l)) by {
        assert forall|i: int, j: int| 0 <= i < l.len() && 0 <= j < l[i].len() implies {
            &&& (#[trigger] l[i][j]) as nat % pow2(i as nat) == 0
            &&& l[i][j] + pow2(i as nat) <= usize::MAX
        } by {
            assert(holds(l, i, l[i][j]));
        }
    }
    assert forall|i: int, b: usize| #[trigger] holds(l, i, b) implies !holds(l, i, buddy_of(b, i as nat)) by {
        lemma_buddy(0, e);
    }
    assert(free_bytes(l) =~= block_bytes(0, e)) by {
        assert forall|x: int| block_bytes(0, e).contains(x) implies free_bytes(l).contains(x) by {
            assert(holds(l, e as int, 0usize));
        }
    }
}


// ---------------------------------------------------------------------------
// Arithmetic of aligned blocks
// ---------------------------------------------------------------------------

proof fn lemma_xor_involution(x: usize, s: usize)
    by (bit_vector)
    ensures
        (x ^ s) ^ s == x,
{
}

/// `buddy_of` is an involution.
pub proof fn lemma_buddy_involution(b: usize, i: nat)
    ensures
        buddy_of(buddy_of(b, i), i) == b,
{
    lemma_xor_involution(b, pow2(i) as usize);
}

/// Two multiples of `2^(i+1)` do not differ by `2^i`.
proof fn lemma_no_half_step(p: nat, o: nat, i: nat)
    requires
        p % pow2(i + 1) == 0,
        o % pow2(i + 1) == 0,
    ensures
        o != p + pow2(i),
{
    if o == p + pow2(i) {
    lemma_pow2_unfold(i + 1);
    lemma_pow2_pos(i);
    let m = pow2(i + 1) as int;
    vstd::arithmetic::div_mod::lemma_fundamental_div_mod(p as int, m);
    vstd::arithmetic::div_mod::lemma_mod_multiples_vanish(p as int / m, pow2(i) as int, m);
    vstd::arithmetic::div_mod::lemma_small_mod(pow2(i), pow2(i + 1));
    }
}

/// For a block aligned to `2^(i+1)`, its level-`i` buddy is its upper half and the upper half's
/// buddy is the block itself.
proof fn lemma_lower_half(o: usize, i: nat)
    requires
        i + 1 < usize::BITS,
        o as nat % pow2(i + 1) == 0,
    ensures
        buddy_of(o, i) == o + pow2(i),
        buddy_of((o + pow2(i)) as usize, i) == o,
        parent_of(o, i) == o,
{
    crate::util::buddy_alloc::lemma_aligned_down_pub(o as nat, i, i + 1);
    lemma_buddy(o, i);
    let b = buddy_of(o, i);
    let p = parent_of(o, i);
    if !(p == o && b == o + pow2(i)) {
        lemma_no_half_step(p as nat, o as nat, i);
    }
    lemma_buddy_involution(o, i);
}

// ---------------------------------------------------------------------------
// Taking a block
// ---------------------------------------------------------------------------

proof fn lemma_first_free_level(l: Seq<Seq<usize>>, i: int)
    requires
        0 <= i,
    ensures
        first_free_level(l, i) == l.len() || (i <= first_free_level(l, i) < l.len()
            && l[first_free_level(l, i)].len() > 0),
        forall|k: int| i <= k < first_free_level(l, i) && k < l.len() ==> (#[trigger] l[k]).len() == 0,
        first_free_level(l, i) <= l.len(),
    decreases l.len() - i,
{
    if i < l.len() && l[i].len() == 0 {
        lemma_first_free_level(l, i + 1);
    }
}

/// The blocks of the split lists: the taken block is gone, and each level `k` in `e..j` holds
/// the upper half `o + 2^k` of the block split at level `k + 1`.
proof fn lemma_split_holds(l: Seq<Seq<usize>>, e: int, j: int, o: usize)
    requires
        lists_wf(l),
        0 <= e <= j < l.len(),
        l[j].len() > 0,
        o == l[j].last(),
    ensures
        forall|i: int, b: usize| #[trigger] holds(split_lists(l, e, j, o), i, b) <==> ((holds(l, i, b) && !(i == j
            && b == o)) || (e <= i < j && b == o + pow2(i as nat))),
{
    let r = split_lists(l, e, j, o);
    assert(holds(l, j, o)) by {
        assert(l[j][l[j].len() - 1] == o);
    }
    lemma_holds_ok(l, j, o);
    assert forall|i: int, b: usize| #[trigger] holds(r, i, b) <==> ((holds(l, i, b) && !(i == j && b == o))
        || (e <= i < j && b == o + pow2(i as nat))) by {
        if 0 <= i < l.len() {
            if i == j {
                let n = l[j].len();
                assert(l[j].no_duplicates());
                if holds(r, i, b) {
                    let q = choose|q: int| 0 <= q < r[i].len() && r[i][q] == b;
                    assert(l[j][q] == b);
                    assert(q != n - 1);
                    assert(l[j][n - 1] == o);
                }
                if holds(l, i, b) && b != o {
                    let q = choose|q: int| 0 <= q < l[i].len() && l[i][q] == b;
                    assert(q != n - 1);
                    assert(r[i][q] == b);
                }
            } else if e <= i < j {
                lemma_pow2_mono((i + 1) as nat, j as nat);
                lemma_pow2_unfold((i + 1) as nat);
                if holds(r, i, b) {
                    let q = choose|q: int| 0 <= q < r[i].len() && r[i][q] == b;
                    if q < l[i].len() {
                        assert(l[i][q] == b);
                    }
                }
                if holds(l, i, b) {
                    let q = choose|q: int| 0 <= q < l[i].len() && l[i][q] == b;
                    assert(r[i][q] == b);
                }
                if b == o + pow2(i as nat) {
                    assert(r[i][l[i].len() as int] == b);
                }
            } else {
                assert(r[i] == l[i]);
            }
        }
    }
}

/// Taking a block: `alloc` returns `usize::MAX` exactly when no free block of the rounded-up
/// size or larger exists; otherwise it returns a block of that size, aligned to its size, inside
/// the pool, every byte of which was free and is free no more, and the free lists stay in use.
pub proof fn lemma_alloc_takes_free_block(l: Seq<Seq<usize>>, size: nat)
    requires
        lists_wf(l),
        size <= pow2((usize::BITS - 1) as nat),
    ensures
        ({
            let e = ceil_log2(size);
            let r = alloc_result(l, size);
            let l2 = alloc_lists(l, size);
            &&& (r == usize::MAX <==> forall|i: int| e <= i < l.len() ==> (#[trigger] l[i]).len() == 0)
            &&& r == usize::MAX ==> l2 == l
            &&& r != usize::MAX ==> {
                &&& lists_wf(l2)
                &&& pool(l2) == pool(l)
                &&& r as nat % pow2(e) == 0
                &&& r + pow2(e) <= pool(l)
                &&& block_bytes(r as int, e).subset_of(free_bytes(l))
                &&& free_bytes(l2) == free_bytes(l).difference(block_bytes(r as int, e))
            }
        }),
{
    let e = ceil_log2(size) as int;
    lemma_first_free_level(l, e);
    let j = first_free_level(l, e);
    if j < l.len() {
        let o = l[j].last();
        assert(holds(l, j, o)) by {
            assert(l[j][l[j].len() - 1] == o);
        }
        lemma_holds_ok(l, j, o);
        lemma_pow2_mono(e as nat, j as nat);
        crate::util::buddy_alloc::lemma_aligned_down_pub(o as nat, e as nat, j as nat);
        lemma_split_wf(l, e, j, o);
        lemma_split_free(l, e, j, o);
        assert(o != usize::MAX) by {
            lemma_pow2_pos(j as nat);
        }
    }
}

proof fn lemma_split_wf(l: Seq<Seq<usize>>, e: int, j: int, o: usize)
    requires
        lists_wf(l),
        0 <= e <= j < l.len(),
        l[j].len() > 0,
        o == l[j].last(),
    ensures
        lists_wf(split_lists(l, e, j, o)),
{
    let r = split_lists(l, e, j, o);
    assert(holds(l, j, o)) by {
        assert(l[j][l[j].len() - 1] == o);
    }
    lemma_holds_ok(l, j, o);
    lemma_split_holds(l, e, j, o);
    crate::util::buddy_alloc::lemma_split_ok_pub(l, e, j, o);
    assert(pool(r) == pool(l));
    assert forall|k: int| #![trigger pow2(k as nat)] e <= k < j implies o + pow2((k + 1) as nat) <= o + pow2(j as nat)
        && pow2(k as nat) + pow2(k as nat) == pow2((k + 1) as nat) by {
        lemma_pow2_mono((k + 1) as nat, j as nat);
        lemma_pow2_unfold((k + 1) as nat);
    }
    assert forall|i: int, b: usize| #[trigger] holds(r, i, b) implies b + pow2(i as nat) <= pool(r) by {}
    lemma_split_nodup(l, e, j, o);
    lemma_split_disjoint(l, e, j, o);
    lemma_split_merged(l, e, j, o);
}

#[verifier::spinoff_prover]
proof fn lemma_split_nodup(l: Seq<Seq<usize>>, e: int, j: int, o: usize)
    requires
        lists_wf(l),
        0 <= e <= j < l.len(),
        l[j].len() > 0,
        o == l[j].last(),
    ensures
        forall|i: int| 0 <= i < l.len() ==> (#[trigger] split_lists(l, e, j, o)[i]).no_duplicates(),
{
    let r = split_lists(l, e, j, o);
    assert(holds(l, j, o)) by {
        assert(l[j][l[j].len() - 1] == o);
    }
    lemma_holds_ok(l, j, o);
    lemma_split_holds(l, e, j, o);
    assert forall|k: int| #![trigger pow2(k as nat)] e <= k < j implies o + pow2((k + 1) as nat) <= o + pow2(j as nat)
        && pow2(k as nat) + pow2(k as nat) == pow2((k + 1) as nat) by {
        lemma_pow2_mono((k + 1) as nat, j as nat);
        lemma_pow2_unfold((k + 1) as nat);
    }
    assert forall|i: int| 0 <= i < r.len() implies (#[trigger] r[i]).no_duplicates() by {
        assert(l[i].no_duplicates());
        if i == j {
            assert forall|a: int, c: int| 0 <= a < r[i].len() && 0 <= c < r[i].len() && a != c implies r[i][a] != r[i][c] by {
                assert(r[i][a] == l[i][a] && r[i][c] == l[i][c]);
            }
        } else if e <= i < j {
            let x = (o + pow2(i as nat)) as usize;
            lemma_pow2_pos(i as nat);
            assert(!holds(l, i, x)) by {
                if holds(l, i, x) {
                    assert(holds(l, j, o));
                    assert(!overlap(x as int, i as nat, o as int, j as nat));
                }
            }
            assert forall|a: int, c: int| 0 <= a < r[i].len() && 0 <= c < r[i].len() && a != c implies r[i][a] != r[i][c] by {
                if a < l[i].len() && c < l[i].len() {
                    assert(r[i][a] == l[i][a] && r[i][c] == l[i][c]);
                } else if a < l[i].len() {
                    assert(r[i][a] == l[i][a]);
                    assert(l[i].contains(l[i][a]));
                } else {
                    assert(r[i][c] == l[i][c]);
                    assert(l[i].contains(l[i][c]));
                }
            }
        } else {
            assert(r[i] == l[i]);
        }
    }
}

#[verifier::spinoff_prover]
proof fn lemma_split_disjoint(l: Seq<Seq<usize>>, e: int, j: int, o: usize)
    requires
        lists_wf(l),
        0 <= e <= j < l.len(),
        l[j].len() > 0,
        o == l[j].last(),
    ensures
        ({
            let r = split_lists(l, e, j, o);
            forall|i1: int, b1: usize, i2: int, b2: usize|
                #![trigger holds(r, i1, b1), holds(r, i2, b2)]
                holds(r, i1, b1) && holds(r, i2, b2) && (i1 != i2 || b1 != b2) ==> !overlap(
                    b1 as int,
                    i1 as nat,
                    b2 as int,
                    i2 as nat,
                )
        }),
{
    let r = split_lists(l, e, j, o);
    assert(holds(l, j, o)) by {
        assert(l[j][l[j].len() - 1] == o);
    }
    lemma_holds_ok(l, j, o);
    lemma_split_holds(l, e, j, o);
    assert forall|k: int| #![trigger pow2(k as nat)] e <= k < j implies o + pow2((k + 1) as nat) <= o + pow2(j as nat)
        && pow2(k as nat) + pow2(k as nat) == pow2((k + 1) as nat) by {
        lemma_pow2_mono((k + 1) as nat, j as nat);
        lemma_pow2_unfold((k + 1) as nat);
    }
    assert forall|i1: int, b1: usize, i2: int, b2: usize|
        #![trigger holds(r, i1, b1), holds(r, i2, b2)]
        holds(r, i1, b1) && holds(r, i2, b2) && (i1 != i2 || b1 != b2) implies !overlap(
            b1 as int,
            i1 as nat,
            b2 as int,
            i2 as nat,
        ) by {
        let new1 = !holds(l, i1, b1) || (i1 == j && b1 == o);
        let new2 = !holds(l, i2, b2) || (i2 == j && b2 == o);
        if holds(l, i1, b1) && !(i1 == j && b1 == o) && holds(l, i2, b2) && !(i2 == j && b2 == o) {
        } else if holds(l, i1, b1) && !(i1 == j && b1 == o) {
            // b2 is an upper half inside the taken block
            assert(!overlap(b1 as int, i1 as nat, o as int, j as nat));
        } else if holds(l, i2, b2) && !(i2 == j && b2 == o) {
            assert(!overlap(b2 as int, i2 as nat, o as int, j as nat));
        } else {
            // two upper halves of different levels
            if i1 < i2 {
                lemma_pow2_mono((i1 + 1) as nat, i2 as nat);
            } else if i2 < i1 {
                lemma_pow2_mono((i2 + 1) as nat, i1 as nat);
            }
        }
    }
}

#[verifier::spinoff_prover]
proof fn lemma_split_merged(l: Seq<Seq<usize>>, e: int, j: int, o: usize)
    requires
        lists_wf(l),
        0 <= e <= j < l.len(),
        l[j].len() > 0,
        o == l[j].last(),
    ensures
        ({
            let r = split_lists(l, e, j, o);
            forall|i: int, b: usize| #[trigger] holds(r, i, b) ==> !holds(r, i, buddy_of(b, i as nat))
        }),
{
    let r = split_lists(l, e, j, o);
    assert forall|i: int, b: usize| #[trigger] holds(r, i, b) implies !holds(r, i, buddy_of(b, i as nat)) by {
        lemma_split_merged_one(l, e, j, o, i, b);
    }
}

#[verifier::spinoff_prover]
proof fn lemma_split_merged_one(l: Seq<Seq<usize>>, e: int, j: int, o: usize, i: int, b: usize)
    requires
        lists_wf(l),
        0 <= e <= j < l.len(),
        l[j].len() > 0,
        o == l[j].last(),
        holds(split_lists(l, e, j, o), i, b),
    ensures
        !holds(split_lists(l, e, j, o), i, buddy_of(b, i as nat)),
{
    let r = split_lists(l, e, j, o);
    assert(holds(l, j, o)) by {
        assert(l[j][l[j].len() - 1] == o);
    }
    lemma_holds_ok(l, j, o);
    lemma_split_holds(l, e, j, o);
    if e <= i < j {
        lemma_pow2_mono((i + 1) as nat, j as nat);
        lemma_pow2_unfold((i + 1) as nat);
        lemma_pow2_pos(i as nat);
    }

        let c = buddy_of(b, i as nat);
        if holds(l, i, b) && !(i == j && b == o) {
            if holds(r, i, c) {
                if holds(l, i, c) && !(i == j && c == o) {
                    assert(!holds(l, i, buddy_of(b, i as nat)));
                } else {
                    // c is the upper half at level i, so b is its buddy: the lower half o
                    assert(e <= i < j && c == o + pow2(i as nat));
                    crate::util::buddy_alloc::lemma_aligned_down_pub(o as nat, (i + 1) as nat, j as nat);
                    lemma_lower_half(o, i as nat);
                    lemma_buddy_involution(b, i as nat);
                    assert(b == o);
                    assert(!overlap(b as int, i as nat, o as int, j as nat));
                }
            }
        } else {
            assert(e <= i < j && b == o + pow2(i as nat));
            crate::util::buddy_alloc::lemma_aligned_down_pub(o as nat, (i + 1) as nat, j as nat);
            lemma_lower_half(o, i as nat);
            assert(c == o);
            if holds(r, i, c) {
                assert(holds(l, i, o));
                assert(!overlap(o as int, i as nat, o as int, j as nat));
            }
        }
    }

/// Every byte of `[o + 2^e, o + 2^j)` lies in the upper half of some level `k` in `e..j`.
proof fn lemma_upper_half_cover(o: int, e: nat, j: nat, x: int)
    requires
        e <= j,
        o + pow2(e) <= x < o + pow2(j),
    ensures
        exists|k: int| e <= k < j && o + #[trigger] pow2(k as nat) <= x < o + pow2((k + 1) as nat),
    decreases j,
{
    if j == e {
    } else {
        lemma_pow2_unfold(j);
        if x >= o + pow2((j - 1) as nat) {
            assert(e <= j - 1 < j && o + pow2((j - 1) as nat) <= x < o + pow2(((j - 1) + 1) as nat));
        } else {
            lemma_upper_half_cover(o, e, (j - 1) as nat, x);
            let k = choose|k: int| e <= k < j - 1 && o + #[trigger] pow2(k as nat) <= x < o + pow2((k + 1) as nat);
            assert(e <= k < j && o + pow2(k as nat) <= x < o + pow2((k + 1) as nat));
        }
    }
}

#[verifier::spinoff_prover]
#[verifier::rlimit(40)]
proof fn lemma_split_free(l: Seq<Seq<usize>>, e: int, j: int, o: usize)
    requires
        lists_wf(l),
        0 <= e <= j < l.len(),
        l[j].len() > 0,
        o == l[j].last(),
        o as nat % pow2(e as nat) == 0,
    ensures
        block_bytes(o as int, e as nat).subset_of(free_bytes(l)),
        free_bytes(split_lists(l, e, j, o)) == free_bytes(l).difference(block_bytes(o as int, e as nat)),
{
    let r = split_lists(l, e, j, o);
    let blk = block_bytes(o as int, e as nat);
    assert(holds(l, j, o)) by {
        assert(l[j][l[j].len() - 1] == o);
    }
    lemma_holds_ok(l, j, o);
    lemma_split_holds(l, e, j, o);
    lemma_pow2_mono(e as nat, j as nat);
    assert forall|k: int| #![trigger pow2(k as nat)] e <= k < j implies o + pow2((k + 1) as nat) <= o + pow2(j as nat)
        && pow2(k as nat) + pow2(k as nat) == pow2((k + 1) as nat) && pow2(e as nat) <= pow2(k as nat) by {
        lemma_pow2_mono((k + 1) as nat, j as nat);
        lemma_pow2_unfold((k + 1) as nat);
        lemma_pow2_mono(e as nat, k as nat);
    }
    assert forall|x: int| blk.contains(x) implies free_bytes(l).contains(x) by {
        assert(holds(l, j, o));
    }
    assert forall|x: int| free_bytes(r).contains(x) <==> free_bytes(l).difference(blk).contains(x) by {
        if free_bytes(r).contains(x) {
            let (i, b) = choose|i: int, b: usize| #[trigger] holds(r, i, b) && b <= x < b + pow2(i as nat);
            if holds(l, i, b) && !(i == j && b == o) {
                assert(!overlap(b as int, i as nat, o as int, j as nat));
            } else {
                assert(holds(l, j, o));
            }
        }
        if free_bytes(l).difference(blk).contains(x) {
            let (i, b) = choose|i: int, b: usize| #[trigger] holds(l, i, b) && b <= x < b + pow2(i as nat);
            if i == j && b == o {
                lemma_upper_half_cover(o as int, e as nat, j as nat, x);
                let k = choose|k: int| e <= k < j && o + #[trigger] pow2(k as nat) <= x < o + pow2((k + 1) as nat);
                let h = (o + pow2(k as nat)) as usize;
                assert(holds(r, k, h));
            } else {
                assert(holds(r, i, b));
            }
        }
    }
    assert(free_bytes(r) =~= free_bytes(l).difference(blk));
}


// ---------------------------------------------------------------------------
// Freeing a block
// ---------------------------------------------------------------------------

proof fn lemma_level_in_pool(l: Seq<Seq<usize>>, i: nat, off: int)
    requires
        l.len() >= 1,
        off >= 0,
        off + pow2(i) <= pool(l),
    ensures
        i < l.len(),
{
    if i >= l.len() {
        lemma_pow2_mono((l.len() - 1) as nat, i);
        if i > l.len() - 1 {
            lemma_pow2_strictly_increases((l.len() - 1) as nat, i);
        }
        lemma_pow2_pos(i);
    }
}

proof fn lemma_removed_holds(l: Seq<Seq<usize>>, i: int, p: int)
    requires
        lists_wf(l),
        0 <= i < l.len(),
        0 <= p < l[i].len(),
    ensures
        forall|k: int, b: usize| #[trigger] holds(l.update(i, swap_removed(l[i], p)), k, b) <==> (holds(l, k, b)
            && !(k == i && b == l[i][p])),
        lists_wf(l.update(i, swap_removed(l[i], p))),
{
    let r = l.update(i, swap_removed(l[i], p));
    let c = l[i][p];
    let n = l[i].len();
    assert(l[i].no_duplicates());
    assert forall|k: int, b: usize| #[trigger] holds(r, k, b) <==> (holds(l, k, b) && !(k == i && b == c)) by {
        if 0 <= k < l.len() && k == i {
            if holds(r, k, b) {
                let q = choose|q: int| 0 <= q < r[k].len() && r[k][q] == b;
                if q == p {
                    assert(b == l[i][n - 1]);
                    assert(n - 1 != p);
                } else {
                    assert(b == l[i][q]);
                }
            }
            if holds(l, k, b) && b != c {
                let q = choose|q: int| 0 <= q < l[k].len() && l[k][q] == b;
                assert(q != p);
                if q == n - 1 {
                    assert(r[k][p] == b);
                } else {
                    assert(r[k][q] == b);
                }
            }
        } else if 0 <= k < l.len() {
            assert(r[k] == l[k]);
        }
    }
    lemma_swap_removed_ok(l, i, p);
    assert forall|k: int| 0 <= k < r.len() implies (#[trigger] r[k]).no_duplicates() by {
        assert(l[k].no_duplicates());
        if k == i {
            assert forall|a: int, b: int| 0 <= a < r[k].len() && 0 <= b < r[k].len() && a != b implies r[k][a] != r[k][b] by {
                let aa = if a == p { n - 1 } else { a };
                let bb = if b == p { n - 1 } else { b };
                assert(r[k][a] == l[k][aa]);
                assert(r[k][b] == l[k][bb]);
            }
        }
    }
}

proof fn lemma_pushed_holds(l: Seq<Seq<usize>>, i: int, off: usize)
    requires
        lists_ok(l),
        0 <= i < l.len(),
    ensures
        forall|k: int, b: usize| #[trigger] holds(l.update(i, l[i].push(off)), k, b) <==> (holds(l, k, b) || (k == i
            && b == off)),
{
    let r = l.update(i, l[i].push(off));
    assert forall|k: int, b: usize| #[trigger] holds(r, k, b) <==> (holds(l, k, b) || (k == i && b == off)) by {
        if 0 <= k < l.len() && k == i {
            if holds(r, k, b) {
                let q = choose|q: int| 0 <= q < r[k].len() && r[k][q] == b;
                if q < l[k].len() {
                    assert(l[k][q] == b);
                }
            }
            if holds(l, k, b) {
                let q = choose|q: int| 0 <= q < l[k].len() && l[k][q] == b;
                assert(r[k][q] == b);
            }
            if b == off {
                assert(r[k][l[k].len() as int] == b);
            }
        } else if 0 <= k < l.len() {
            assert(r[k] == l[k]);
        }
    }
}

/// Freeing a block: for a block aligned to its size, inside the pool and sharing no byte with a
/// free block, freeing never reaches past the top level, the free lists stay in use, and the
/// free bytes gain exactly the block.
pub proof fn lemma_dealloc_frees_block(l: Seq<Seq<usize>>, i: nat, off: usize)
    requires
        lists_wf(l),
        off as nat % pow2(i) == 0,
        off + pow2(i) <= pool(l),
        block_bytes(off as int, i).disjoint(free_bytes(l)),
    ensures
        merge_ok(l, i, off),
        lists_wf(merge_lists(l, i, off)),
        pool(merge_lists(l, i, off)) == pool(l),
        free_bytes(merge_lists(l, i, off)) == free_bytes(l).union(block_bytes(off as int, i)),
    decreases l.len() - i,
{
    lemma_level_in_pool(l, i, off as int);
    lemma_usize_pow2_no_overflow(i);
    lemma_pow2_pos(i);
    let blk = block_bytes(off as int, i);
    let c = buddy_of(off, i);
    lemma_first_from(l[i as int], c, 0);
    assert(blk.contains(off as int));
    match first_from(l[i as int], c, 0) {
        Some(p) => {
            assert(holds(l, i as int, c));
            lemma_holds_ok(l, i as int, c);
            lemma_buddy(off, i);
            let par = parent_of(off, i);
            let l1 = l.update(i as int, swap_removed(l[i as int], p));
            lemma_removed_holds(l, i as int, p);
            lemma_pow2_unfold(i + 1);
            // the parent lies in the pool, so its level is not beyond the top
            lemma_level_in_pool(l, i + 1, par as int);
            let pblk = block_bytes(par as int, i + 1);
            assert(pblk.disjoint(free_bytes(l1))) by {
                assert forall|x: int| pblk.contains(x) implies !free_bytes(l1).contains(x) by {
                    if free_bytes(l1).contains(x) {
                        let (k, b) = choose|k: int, b: usize| #[trigger] holds(l1, k, b) && b <= x < b + pow2(k as nat);
                        assert(holds(l, k, b));
                        if blk.contains(x) {
                            assert(free_bytes(l).contains(x));
                        } else {
                            assert(!overlap(b as int, k as nat, c as int, i));
                        }
                    }
                }
            }
            lemma_dealloc_frees_block(l1, i + 1, par);
            assert(free_bytes(l1).union(pblk) =~= free_bytes(l).union(blk)) by {
                assert forall|x: int| free_bytes(l).contains(x) implies free_bytes(l1).union(pblk).contains(x) by {
                    let (k, b) = choose|k: int, b: usize| #[trigger] holds(l, k, b) && b <= x < b + pow2(k as nat);
                    if !(k == i && b == c) {
                        assert(holds(l1, k, b));
                    }
                }
                assert forall|x: int| free_bytes(l1).contains(x) implies free_bytes(l).contains(x) by {
                    let (k, b) = choose|k: int, b: usize| #[trigger] holds(l1, k, b) && b <= x < b + pow2(k as nat);
                    assert(holds(l, k, b));
                }
                assert forall|x: int| pblk.contains(x) && !blk.contains(x) implies free_bytes(l).contains(x) by {
                    assert(holds(l, i as int, c));
                }
            }
        },
        None => {
            lemma_push_free(l, i, off);
        },
    }
}


#[verifier::spinoff_prover]
proof fn lemma_push_free(l: Seq<Seq<usize>>, i: nat, off: usize)
    requires
        lists_wf(l),
        i < l.len(),
        off as nat % pow2(i) == 0,
        off + pow2(i) <= pool(l),
        block_bytes(off as int, i).disjoint(free_bytes(l)),
        first_from(l[i as int], buddy_of(off, i), 0) is None,
    ensures
        lists_wf(l.update(i as int, l[i as int].push(off))),
        free_bytes(l.update(i as int, l[i as int].push(off))) == free_bytes(l).union(block_bytes(off as int, i)),
{
    let blk = block_bytes(off as int, i);
    let c = buddy_of(off, i);
    lemma_first_from(l[i as int], c, 0);
    lemma_pow2_pos(i);
    lemma_usize_pow2_no_overflow((l.len() - 1) as nat);
    assert(blk.contains(off as int));
    assert(!holds(l, i as int, c));
    let r = l.update(i as int, l[i as int].push(off));
    lemma_pushed_holds(l, i as int, off);
    lemma_push_ok(l, i as int, off);
    assert(!holds(l, i as int, off)) by {
        if holds(l, i as int, off) {
            assert(free_bytes(l).contains(off as int));
        }
    }
    assert forall|k: int, b: usize| #[trigger] holds(r, k, b) implies b + pow2(k as nat) <= pool(r) by {}
    assert forall|k: int| 0 <= k < r.len() implies (#[trigger] r[k]).no_duplicates() by {
        assert(l[k].no_duplicates());
        if k == i {
            assert forall|a: int, b: int| 0 <= a < r[k].len() && 0 <= b < r[k].len() && a != b implies r[k][a] != r[k][b] by {
                if a < l[k].len() && b < l[k].len() {
                } else if a < l[k].len() {
                    assert(holds(l, k, l[k][a]));
                } else {
                    assert(holds(l, k, l[k][b]));
                }
            }
        }
    }
    assert forall|i1: int, b1: usize, i2: int, b2: usize|
        #![trigger holds(r, i1, b1), holds(r, i2, b2)]
        holds(r, i1, b1) && holds(r, i2, b2) && (i1 != i2 || b1 != b2) implies !overlap(
            b1 as int,
            i1 as nat,
            b2 as int,
            i2 as nat,
        ) by {
        lemma_pow2_pos(i1 as nat);
        lemma_pow2_pos(i2 as nat);
        if holds(l, i1, b1) && holds(l, i2, b2) {
        } else if holds(l, i1, b1) {
            if overlap(b1 as int, i1 as nat, b2 as int, i2 as nat) {
                let x = if b1 <= b2 { b2 as int } else { b1 as int };
                assert(free_bytes(l).contains(x));
                assert(blk.contains(x));
            }
        } else if holds(l, i2, b2) {
            if overlap(b1 as int, i1 as nat, b2 as int, i2 as nat) {
                let x = if b1 <= b2 { b2 as int } else { b1 as int };
                assert(free_bytes(l).contains(x));
                assert(blk.contains(x));
            }
        }
    }
    assert forall|k: int, b: usize| #[trigger] holds(r, k, b) implies !holds(r, k, buddy_of(b, k as nat)) by {
        let d = buddy_of(b, k as nat);
        if k == i && b == off {
            assert(d == c);
            if holds(r, k, d) {
                lemma_buddy(off, i);
            }
        } else {
            assert(holds(l, k, b));
            if holds(r, k, d) && !holds(l, k, d) {
                assert(k == i && d == off);
                lemma_buddy_involution(b, i);
                assert(b == c);
            }
        }
    }
    assert(free_bytes(r) =~= free_bytes(l).union(blk)) by {
        assert forall|x: int| free_bytes(r).contains(x) implies free_bytes(l).union(blk).contains(x) by {
            let (k, b) = choose|k: int, b: usize| #[trigger] holds(r, k, b) && b <= x < b + pow2(k as nat);
            if holds(l, k, b) {
                assert(free_bytes(l).contains(x));
            }
        }
        assert forall|x: int| free_bytes(l).contains(x) implies free_bytes(r).contains(x) by {
            let (k, b) = choose|k: int, b: usize| #[trigger] holds(l, k, b) && b <= x < b + pow2(k as nat);
            assert(holds(r, k, b));
        }
        assert forall|x: int| blk.contains(x) implies free_bytes(r).contains(x) by {
            assert(holds(r, i as int, off));
        }
    }
}


// ---------------------------------------------------------------------------
// Freeing what was just taken
// ---------------------------------------------------------------------------

proof fn lemma_first_from_push(s: Seq<usize>, x: usize, i: int)
    requires
        0 <= i <= s.len(),
        !s.contains(x),
    ensures
        first_from(s.push(x), x, i) == Some(s.len() as int),
    decreases s.len() - i,
{
    if i < s.len() {
        assert(s.push(x)[i] == s[i]);
        lemma_first_from_push(s, x, i + 1);
    }
}

proof fn lemma_remerge(l: Seq<Seq<usize>>, k: int, j: int, o: usize)
    requires
        lists_wf(l),
        0 <= k <= j < l.len(),
        l[j].len() > 0,
        o == l[j].last(),
    ensures
        merge_lists(split_lists(l, k, j, o), k as nat, o) == l,
    decreases j - k,
{
    let r = split_lists(l, k, j, o);
    assert(holds(l, j, o)) by {
        assert(l[j][l[j].len() - 1] == o);
    }
    lemma_holds_ok(l, j, o);
    if k < j {
        lemma_pow2_mono((k + 1) as nat, j as nat);
        lemma_pow2_unfold((k + 1) as nat);
        lemma_pow2_pos(k as nat);
        crate::util::buddy_alloc::lemma_aligned_down_pub(o as nat, (k + 1) as nat, j as nat);
        lemma_lower_half(o, k as nat);
        let x = (o + pow2(k as nat)) as usize;
        assert(!l[k].contains(x)) by {
            if l[k].contains(x) {
                assert(holds(l, k, x));
                assert(!overlap(x as int, k as nat, o as int, j as nat));
            }
        }
        assert(r[k] == l[k].push(x));
        lemma_first_from_push(l[k], x, 0);
        assert(swap_removed(r[k], l[k].len() as int) =~= l[k]);
        assert(r.update(k, swap_removed(r[k], l[k].len() as int)) =~= split_lists(l, k + 1, j, o));
        lemma_remerge(l, k + 1, j, o);
    } else {
        let c = buddy_of(o, j as nat);
        assert(!holds(l, j, c));
        assert(r[j] == l[j].drop_last());
        lemma_first_from(r[j], c, 0);
        assert(first_from(r[j], c, 0) is None) by {
            if first_from(r[j], c, 0) is Some {
                let p = first_from(r[j], c, 0)->0;
                assert(l[j][p] == c);
            }
        }
        assert(r[j].push(o) =~= l[j]);
        assert(r.update(j, r[j].push(o)) =~= l);
    }
}

/// Freeing a block right after taking it gives back the very free lists that were there before.
pub proof fn lemma_alloc_then_dealloc(l: Seq<Seq<usize>>, size: nat)
    requires
        lists_wf(l),
        alloc_result(l, size) != usize::MAX,
    ensures
        merge_lists(alloc_lists(l, size), ceil_log2(size), alloc_result(l, size)) == l,
{
    let e = ceil_log2(size) as int;
    lemma_first_free_level(l, e);
    let j = first_free_level(l, e);
    lemma_remerge(l, e, j, l[j].last());
}

// ---------------------------------------------------------------------------
// Resizing
// ---------------------------------------------------------------------------

proof fn lemma_xor_self(x: usize)
    by (bit_vector)
    ensures
        x ^ x == 0,
{
}

/// Every byte of `[2^t, 2^e)` lies in the block `[2^k, 2^(k+1))` of some `k` in `t..e`.
proof fn lemma_dyadic_cover(t: nat, e: nat, x: int) -> (k: nat)
    requires
        pow2(t) <= x < pow2(e),
    ensures
        t <= k < e,
        pow2(k) <= x < pow2(k + 1),
    decreases e,
{
    if e <= t {
        lemma_pow2_mono(e, t);
        assert(false);
        0
    } else {
        lemma_pow2_unfold(e);
        let k = (e - 1) as nat;
        if x >= pow2(k) {
            k
        } else {
            lemma_dyadic_cover(t, k, x)
        }
    }
}

/// A block aligned to its size `2^i` that starts inside a pool of `2^e >= 2^i` bytes ends inside
/// it too.
proof fn lemma_aligned_fits(b: nat, i: nat, e: nat)
    requires
        i <= e,
        b % pow2(i) == 0,
        b < pow2(e),
    ensures
        b + pow2(i) <= pow2(e),
{
    let p = pow2(i);
    let big = pow2(e);
    lemma_pow2_pos(i);
    vstd::arithmetic::div_mod::lemma_mod_self_0(big as int);
    lemma_aligned_down_pub(big, i, e);
    vstd::arithmetic::div_mod::lemma_fundamental_div_mod(b as int, p as int);
    vstd::arithmetic::div_mod::lemma_fundamental_div_mod(big as int, p as int);
    let q1 = b as int / p as int;
    let q2 = big as int / p as int;
    assert(b + p <= big) by (nonlinear_arith)
        requires
            b == p * q1,
            big == p * q2,
            b < big,
            p > 0,
    {
        if q1 >= q2 {
            assert(p * q1 >= p * q2);
        }
        assert(q1 + 1 <= q2);
        assert(p * (q1 + 1) <= p * q2);
    }
}

/// A block aligned to its size `2^i` that starts before `2^e < 2^i` starts at 0.
proof fn lemma_aligned_below(b: nat, i: nat, e: nat)
    requires
        e < i,
        b % pow2(i) == 0,
        b < pow2(e),
    ensures
        b == 0,
{
    lemma_pow2_strictly_increases(e, i);
    vstd::arithmetic::div_mod::lemma_small_mod(b, pow2(i));
}

/// Growing a pool of which some part is in use: the blocks held are the old ones and, at each
/// level `k` from the old top up to below the new one, the block `2^k`.
proof fn lemma_grow_split_holds(l: Seq<Seq<usize>>, e: nat, k: int, b: usize)
    requires
        1 <= l.len() < e + 1,
        e < usize::BITS,
        l[l.len() - 1] != seq![0usize],
        l[l.len() - 1].len() == 0,
    ensures
        holds(resized_lists(l, e), k, b) <==> holds(l, k, b) || (l.len() - 1 <= k < e && b
            == pow2(k as nat)),
{
    let r = resized_lists(l, e);
    let l1 = grown(l, e + 1);
    let top = l.len() - 1;
    if top <= k < e {
        lemma_usize_pow2_no_overflow(k as nat);
        assert(r[k] == l1[k].push(pow2(k as nat) as usize));
        assert(l1[k].len() == 0);
        assert(r[k] =~= seq![pow2(k as nat) as usize]);
        if holds(r, k, b) {
            let q = choose|q: int| 0 <= q < r[k].len() && r[k][q] == b;
            assert(r[k][q] == b);
        }
        if b == pow2(k as nat) {
            assert(r[k][0] == b);
        }
        if holds(l, k, b) {
            let q = choose|q: int| 0 <= q < l[k].len() && l[k][q] == b;
            assert(l[k][q] == b);
        }
    } else if 0 <= k < e + 1 {
        assert(r[k] == l1[k]);
        if k < l.len() {
            assert(r[k] == l[k]);
        } else {
            assert(r[k].len() == 0);
        }
    }
}

/// Growing a pool of which some part is in use keeps the free lists in use and frees exactly the
/// added bytes `[old pool, new pool)` besides what was free.
proof fn lemma_resize_grow_split(l: Seq<Seq<usize>>, e: nat)
    requires
        lists_wf(l),
        1 <= l.len() < e + 1,
        e < usize::BITS,
        l[l.len() - 1] != seq![0usize],
    ensures
        lists_wf(resized_lists(l, e)),
        pool(resized_lists(l, e)) == pow2(e),
        free_bytes(resized_lists(l, e)) == free_bytes(l).union(
            Set::new(|x: int| pool(l) <= x < pow2(e)),
        ),
{
    let r = resized_lists(l, e);
    let top = l.len() - 1;
    lemma_pow2_mono(top as nat, e);
    assert(l[top].len() == 0) by {
        if l[top].len() > 0 {
            let b0 = l[top][0];
            assert(holds(l, top, b0));
            assert(b0 == 0);
            if l[top].len() > 1 {
                assert(holds(l, top, l[top][1]));
                assert(l[top][1] == 0);
                assert(l[top].no_duplicates());
                assert(false);
            }
            assert(l[top] =~= seq![0usize]);
        }
    }
    assert forall|k: int, b: usize| #[trigger] holds(r, k, b) <==> holds(l, k, b) || (top <= k < e
        && b == pow2(k as nat)) by {
        lemma_grow_split_holds(l, e, k, b);
    }
    lemma_grow_ok(l, e);
    // Every held block lies in the new pool.
    assert forall|i: int, b: usize| #[trigger] holds(r, i, b) implies b + pow2(i as nat) <= pool(r) by {
        if holds(l, i, b) {
        } else {
            lemma_pow2_unfold((i + 1) as nat);
            lemma_pow2_mono((i + 1) as nat, e);
        }
    }
    // Each level holds no offset twice.
    assert forall|i: int| 0 <= i < r.len() implies (#[trigger] r[i]).no_duplicates() by {
        if top <= i < e {
            lemma_usize_pow2_no_overflow(i as nat);
            assert(r[i] =~= seq![pow2(i as nat) as usize]);
        } else if i < top {
            assert(r[i] == l[i]);
        } else {
            assert(r[i].len() == 0);
        }
    }
    // No two held blocks share a byte.
    assert forall|i1: int, b1: usize, i2: int, b2: usize|
        #![trigger holds(r, i1, b1), holds(r, i2, b2)]
        holds(r, i1, b1) && holds(r, i2, b2) && (i1 != i2 || b1 != b2) implies !overlap(
        b1 as int,
        i1 as nat,
        b2 as int,
        i2 as nat,
    ) by {
        if holds(l, i1, b1) && holds(l, i2, b2) {
        } else if holds(l, i1, b1) {
            lemma_pow2_mono(top as nat, i2 as nat);
        } else if holds(l, i2, b2) {
            lemma_pow2_mono(top as nat, i1 as nat);
        } else if i1 < i2 {
            lemma_pow2_unfold((i1 + 1) as nat);
            lemma_pow2_mono((i1 + 1) as nat, i2 as nat);
        } else {
            lemma_pow2_unfold((i2 + 1) as nat);
            lemma_pow2_mono((i2 + 1) as nat, i1 as nat);
        }
    }
    // No held block is held together with its buddy.
    assert forall|i: int, b: usize| #[trigger] holds(r, i, b) implies !holds(r, i, buddy_of(b, i as nat)) by {
        if holds(l, i, b) {
            assert(i < top) by {
                if i == top {
                    assert(l[top].contains(b));
                }
            }
            if holds(r, i, buddy_of(b, i as nat)) {
                assert(holds(l, i, buddy_of(b, i as nat)));
            }
        } else {
            lemma_usize_pow2_no_overflow(i as nat);
            lemma_xor_self(b);
            lemma_pow2_pos(i as nat);
            assert(buddy_of(b, i as nat) == 0);
            if holds(l, i, 0usize) {
                assert(i < top);
            }
        }
    }
    // The free bytes.
    let added = Set::new(|x: int| pool(l) <= x < pow2(e));
    assert(free_bytes(r) =~= free_bytes(l).union(added)) by {
        assert forall|x: int| free_bytes(r).contains(x) implies free_bytes(l).union(added).contains(x) by {
            let (i, b) = choose|i: int, b: usize| #[trigger] holds(r, i, b) && b <= x < b + pow2(i as nat);
            if holds(l, i, b) {
                assert(free_bytes(l).contains(x));
            } else {
                lemma_pow2_mono(top as nat, i as nat);
                lemma_pow2_unfold((i + 1) as nat);
                lemma_pow2_mono((i + 1) as nat, e);
                assert(added.contains(x));
            }
        }
        assert forall|x: int| free_bytes(l).union(added).contains(x) implies free_bytes(r).contains(x) by {
            if free_bytes(l).contains(x) {
                let (i, b) = choose|i: int, b: usize| #[trigger] holds(l, i, b) && b <= x < b + pow2(i as nat);
                assert(holds(r, i, b));
            } else {
                let k = lemma_dyadic_cover(top as nat, e, x);
                lemma_usize_pow2_no_overflow(k as nat);
                let bk = pow2(k) as usize;
                lemma_pow2_unfold(k + 1);
                assert(holds(r, k as int, bk));
            }
        }
    }
}

/// Growing a wholly free pool gives the free lists of a fresh allocator for the new pool.
proof fn lemma_resize_grow_whole(l: Seq<Seq<usize>>, e: nat)
    requires
        lists_wf(l),
        1 <= l.len() < e + 1,
        e < usize::BITS,
        l[l.len() - 1] == seq![0usize],
    ensures
        resized_lists(l, e) == initial_lists(e),
        free_bytes(l) == block_bytes(0, (l.len() - 1) as nat),
{
    let top = l.len() - 1;
    assert(holds(l, top, 0usize)) by {
        assert(l[top][0] == 0);
    }
    lemma_pow2_pos(top as nat);
    assert forall|k: int| 0 <= k < top implies (#[trigger] l[k]).len() == 0 by {
        if l[k].len() > 0 {
            let b = l[k][0];
            assert(holds(l, k, b));
            lemma_pow2_pos(k as nat);
        }
    }
    assert forall|i: int, b: usize| #[trigger] holds(l, i, b) implies i == top && b == 0 by {
        let q = choose|q: int| 0 <= q < l[i].len() && l[i][q] == b;
        if i < top {
            assert(l[i].len() == 0);
        }
    }
    assert(resized_lists(l, e) =~= initial_lists(e)) by {
        let r = resized_lists(l, e);
        assert forall|k: int| 0 <= k < e + 1 implies #[trigger] r[k] == initial_lists(e)[k] by {
            if k < top {
                assert(r[k] =~= Seq::<usize>::empty());
            }
        }
    }
    assert(free_bytes(l) =~= block_bytes(0, top as nat)) by {
        assert forall|x: int| block_bytes(0, top as nat).contains(x) implies free_bytes(l).contains(x) by {
            assert(holds(l, top, 0usize));
        }
    }
}

proof fn lemma_zero_xor(x: usize)
    by (bit_vector)
    ensures
        0usize ^ x == x,
{
}

proof fn lemma_filter_no_dup(s: Seq<usize>, p: spec_fn(usize) -> bool)
    requires
        s.no_duplicates(),
    ensures
        s.filter(p).no_duplicates(),
    decreases s.len(),
{
    if s.len() > 0 {
        let d = s.drop_last();
        let x = s.last();
        assert(s =~= d.push(x));
        assert(d.no_duplicates());
        lemma_filter_no_dup(d, p);
        d.lemma_filter_push(x, p);
        if p(x) {
            let f = d.filter(p);
            if f.contains(x) {
                d.lemma_filter_contains_rev(p, x);
                let q = choose|q: int| 0 <= q < d.len() && d[q] == x;
                assert(s[q] == s[s.len() - 1]);
            }
            assert forall|a: int, b: int| 0 <= a < f.push(x).len() && 0 <= b < f.push(x).len() && a != b implies f.push(x)[a]
                != f.push(x)[b] by {
                if a == f.len() {
                    assert(f.contains(f[b]));
                } else if b == f.len() {
                    assert(f.contains(f[a]));
                }
            }
        }
    }
}

/// Shrinking: the blocks held are those of the old lists, and the whole new pool where a dropped
/// level held offset 0, that lie within the new pool.
proof fn lemma_shrink_holds(l: Seq<Seq<usize>>, e: nat, i: int, b: usize)
    requires
        e + 1 < l.len(),
        e < usize::BITS,
    ensures
        holds(resized_lists(l, e), i, b) <==> 0 <= i <= e && (holds(l, i, b) || (zero_at_or_above(
            l,
            e + 1 as int,
        ) && i == e && b == 0)) && b + pow2(i as nat) <= pow2(e),
{
    let n = e + 1;
    let r = resized_lists(l, e);
    let zero = zero_at_or_above(l, n as int);
    let l1 = if zero {
        l.update(e as int, l[e as int].push(0))
    } else {
        l
    };
    let p = ends_within(i as nat, pow2(e));
    if 0 <= i <= e {
        assert(r[i] == l1[i].filter(p));
        if holds(r, i, b) {
            l1[i].lemma_filter_contains_rev(p, b);
            let q = choose|q: int| 0 <= q < r[i].len() && r[i][q] == b;
            l1[i].lemma_filter_pred(p, q);
            let w = choose|w: int| 0 <= w < l1[i].len() && l1[i][w] == b;
            if zero && i == e && w == l[e as int].len() {
            } else {
                assert(l[i][w] == b);
            }
        }
        if (holds(l, i, b) || (zero && i == e && b == 0)) && b + pow2(i as nat) <= pow2(e) {
            let w = if holds(l, i, b) {
                choose|w: int| 0 <= w < l[i].len() && l[i][w] == b
            } else {
                l[e as int].len() as int
            };
            assert(l1[i][w] == b);
            l1[i].lemma_filter_contains(p, w);
        }
    }
}

/// Shrinking keeps the free lists in use and keeps free exactly what was free within the new
/// pool.
proof fn lemma_resize_shrink(l: Seq<Seq<usize>>, e: nat)
    requires
        lists_wf(l),
        e + 1 < l.len(),
        e < usize::BITS,
    ensures
        lists_wf(resized_lists(l, e)),
        pool(resized_lists(l, e)) == pow2(e),
        free_bytes(resized_lists(l, e)) == free_bytes(l).intersect(block_bytes(0, e)),
{
    let n = e + 1;
    let r = resized_lists(l, e);
    let zero = zero_at_or_above(l, n as int);
    let l1 = if zero {
        l.update(e as int, l[e as int].push(0))
    } else {
        l
    };
    lemma_pow2_pos(e);
    lemma_usize_pow2_no_overflow(e);
    assert forall|i: int, b: usize| #[trigger] holds(r, i, b) <==> 0 <= i <= e && (holds(l, i, b) || (zero
        && i == e && b == 0)) && b + pow2(i as nat) <= pow2(e) by {
        lemma_shrink_holds(l, e, i, b);
    }
    // Where a dropped level holds offset 0, no old block lies within the new pool.
    if zero {
        let k = choose|k: int| n <= k < l.len() && (#[trigger] l[k]).contains(0usize);
        assert(holds(l, k, 0usize));
        lemma_pow2_mono(e, k as nat);
        assert forall|i: int, b: usize| #[trigger] holds(l, i, b) && i <= e implies b + pow2(i as nat) > pow2(e) by {
            lemma_pow2_pos(i as nat);
        }
    }
    // The lists are well formed.
    assert(lists_ok(r)) by {
        if zero {
            vstd::arithmetic::div_mod::lemma_small_mod(0, pow2(e));
            lemma_push_ok(l, e as int, 0);
        }
        lemma_filter_ok(l1, n as int, pow2(e));
        assert(r =~= Seq::new(n, |i: int| l1[i].filter(ends_within(i as nat, pow2(e)))));
    }
    assert forall|i: int| 0 <= i < r.len() implies (#[trigger] r[i]).no_duplicates() by {
        assert(l[i].no_duplicates());
        if zero && i == e {
            assert(!l[i].contains(0usize)) by {
                if l[i].contains(0usize) {
                    assert(holds(l, i, 0usize));
                }
            }
            assert forall|a: int, c: int| 0 <= a < l1[i].len() && 0 <= c < l1[i].len() && a != c implies l1[i][a]
                != l1[i][c] by {
                if a == l[i].len() {
                    assert(l[i].contains(l[i][c]));
                } else if c == l[i].len() {
                    assert(l[i].contains(l[i][a]));
                }
            }
        }
        assert(l1[i].no_duplicates());
        lemma_filter_no_dup(l1[i], ends_within(i as nat, pow2(e)));
    }
    assert forall|i1: int, b1: usize, i2: int, b2: usize|
        #![trigger holds(r, i1, b1), holds(r, i2, b2)]
        holds(r, i1, b1) && holds(r, i2, b2) && (i1 != i2 || b1 != b2) implies !overlap(
        b1 as int,
        i1 as nat,
        b2 as int,
        i2 as nat,
    ) by {
        if zero {
            assert(!holds(l, i1, b1));
            assert(!holds(l, i2, b2));
        }
    }
    assert forall|i: int, b: usize| #[trigger] holds(r, i, b) implies !holds(r, i, buddy_of(b, i as nat)) by {
        if zero {
            assert(!holds(l, i, b));
            lemma_zero_xor(pow2(e) as usize);
            assert(buddy_of(b, i as nat) == pow2(e));
        } else if holds(r, i, buddy_of(b, i as nat)) {
            assert(holds(l, i, buddy_of(b, i as nat)));
        }
    }
    // The free bytes.
    assert(free_bytes(r) =~= free_bytes(l).intersect(block_bytes(0, e))) by {
        assert forall|x: int| free_bytes(r).contains(x) implies free_bytes(l).intersect(block_bytes(0, e)).contains(x) by {
            let (i, b) = choose|i: int, b: usize| #[trigger] holds(r, i, b) && b <= x < b + pow2(i as nat);
            if holds(l, i, b) {
                assert(free_bytes(l).contains(x));
            } else {
                let k = choose|k: int| n <= k < l.len() && (#[trigger] l[k]).contains(0usize);
                assert(holds(l, k, 0usize));
                lemma_pow2_mono(e, k as nat);
                assert(free_bytes(l).contains(x));
            }
        }
        assert forall|x: int| free_bytes(l).intersect(block_bytes(0, e)).contains(x) implies free_bytes(r).contains(x) by {
            let (i, b) = choose|i: int, b: usize| #[trigger] holds(l, i, b) && b <= x < b + pow2(i as nat);
            lemma_holds_ok(l, i, b);
            if i <= e {
                lemma_aligned_fits(b as nat, i as nat, e);
                assert(holds(r, i, b));
            } else {
                lemma_aligned_below(b as nat, i as nat, e);
                assert(l[i].contains(0usize));
                assert(zero);
                assert(holds(r, e as int, 0usize));
            }
        }
    }
}

/// Resizing keeps the free lists in use and changes the free bytes as the pool does: growing
/// frees the added bytes `[old pool, new pool)` besides what was free, and shrinking keeps free
/// exactly what was free within the new pool.
pub proof fn lemma_resize_free_bytes(l: Seq<Seq<usize>>, e: nat)
    requires
        lists_wf(l),
        1 <= l.len(),
        e < usize::BITS,
    ensures
        lists_wf(resized_lists(l, e)),
        pool(resized_lists(l, e)) == pow2(e),
        l.len() <= e + 1 ==> free_bytes(resized_lists(l, e)) == free_bytes(l).union(
            Set::new(|x: int| pool(l) <= x < pow2(e)),
        ),
        e + 1 < l.len() ==> free_bytes(resized_lists(l, e)) == free_bytes(l).intersect(
            block_bytes(0, e),
        ),
{
    let top = (l.len() - 1) as nat;
    if e + 1 < l.len() {
        lemma_resize_shrink(l, e);
    } else if e + 1 == l.len() {
        assert(free_bytes(l).union(Set::new(|x: int| pool(l) <= x < pow2(e))) =~= free_bytes(l));
    } else if l[l.len() - 1] == seq![0usize] {
        lemma_resize_grow_whole(l, e);
        lemma_new_all_free(e);
        lemma_pow2_mono(top, e);
        assert(free_bytes(l).union(Set::new(|x: int| pool(l) <= x < pow2(e))) =~= block_bytes(0, e));
    } else {
        lemma_resize_grow_split(l, e);
    }
}

} // verus!
