use std::collections::HashMap;
use vstd::prelude::*;
use crate::util::ttf::{be16, be32, bei16, read_be16, read_be32, TtfError};

verus! {

broadcast use vstd::std_specs::hash::group_hash_axioms;

/// The tag of the kerning feature.
pub const TAG_KERN_FEATURE: u32 = 0x6B65_726E;

/// Bit `k` of `f`.
pub open spec fn bit(f: u16, k: u16) -> nat {
    ((f >> k) & 1) as nat
}

/// The size in bytes of a value record of format `fmt`: two bytes per value it holds.
pub open spec fn val_size(fmt: u16) -> nat {
    2 * (bit(fmt, 0) + bit(fmt, 1) + bit(fmt, 2) + bit(fmt, 3))
}

/// The x advance of the value record of format `fmt` at `p` (0 where it holds none).
pub open spec fn val_record(d: Seq<u8>, p: nat, fmt: u16) -> Result<i16, TtfError> {
    if fmt > 0xF {
        Err(TtfError::BadGposFormat)
    } else if p + val_size(fmt) > d.len() {
        Err(TtfError::Truncated)
    } else if bit(fmt, 2) == 1 {
        Ok(bei16(d, (p + 2 * (bit(fmt, 0) + bit(fmt, 1))) as int))
    } else {
        Ok(0)
    }
}

/// The glyphs `s..=e`, none where `e < s`.
pub open spec fn glyph_range(s: nat, e: nat) -> Seq<u16> {
    Seq::new(if e >= s { (e - s + 1) as nat } else { 0 }, |i: int| (s + i) as u16)
}

/// The glyphs of the first `k` ranges of a format 2 coverage, whose range records start at `q`.
pub open spec fn cov_ranges(d: Seq<u8>, q: nat, k: nat) -> Seq<u16>
    decreases k,
{
    if k == 0 {
        Seq::empty()
    } else {
        let r = q + 6 * (k - 1);
        cov_ranges(d, q, (k - 1) as nat) + glyph_range(be16(d, r as int), be16(d, (r + 2) as int))
    }
}

/// The glyphs that the coverage table at `p` lists, in order.
pub open spec fn coverage(d: Seq<u8>, p: nat) -> Result<Seq<u16>, TtfError> {
    if p + 2 > d.len() {
        Err(TtfError::Truncated)
    } else if be16(d, p as int) != 1 && be16(d, p as int) != 2 {
        Err(TtfError::BadGposFormat)
    } else if p + 4 > d.len() {
        Err(TtfError::Truncated)
    } else {
        let fmt = be16(d, p as int);
        let c = be16(d, (p + 2) as int);
        if fmt == 1 {
            if p + 4 + 2 * c > d.len() {
                Err(TtfError::Truncated)
            } else {
                Ok(Seq::new(c, |i: int| be16(d, (p + 4 + 2 * i) as int) as u16))
            }
        } else if fmt == 2 {
            if p + 4 + 6 * c > d.len() {
                Err(TtfError::Truncated)
            } else {
                Ok(cov_ranges(d, p + 4, c))
            }
        } else {
            Err(TtfError::BadGposFormat)
        }
    }
}

/// The classes of the first `k` ranges of a format 2 class definition, whose range records
/// start at `q`; a later range takes a glyph from an earlier one.
pub open spec fn class_ranges(d: Seq<u8>, q: nat, k: nat) -> Map<u16, u16>
    decreases k,
{
    if k == 0 {
        Map::empty()
    } else {
        let r = q + 6 * (k - 1);
        let s = be16(d, r as int);
        let e = be16(d, (r + 2) as int);
        let c = be16(d, (r + 4) as int) as u16;
        class_ranges(d, q, (k - 1) as nat).union_prefer_right(
            Map::new(|g: u16| s <= g <= e, |g: u16| c),
        )
    }
}

/// The glyph classes that the class definition table at `p` gives.
pub open spec fn class_def(d: Seq<u8>, p: nat) -> Result<Map<u16, u16>, TtfError> {
    if p + 2 > d.len() {
        Err(TtfError::Truncated)
    } else {
        let fmt = be16(d, p as int);
        if fmt == 1 {
            if p + 6 > d.len() {
                Err(TtfError::Truncated)
            } else {
                let s = be16(d, (p + 2) as int);
                let c = be16(d, (p + 4) as int);
                if s + c > 0x1_0000 {
                    // glyph `s + i` passes the last glyph number where `i` reaches `0x1_0000 - s`
                    if p + 6 + 2 * (0x1_0000 - s) + 2 > d.len() {
                        Err(TtfError::Truncated)
                    } else {
                        Err(TtfError::Overflow)
                    }
                } else if p + 6 + 2 * c > d.len() {
                    Err(TtfError::Truncated)
                } else {
                    Ok(Map::new(|g: u16| s <= g < s + c, |g: u16| be16(d, (p + 6 + 2 * (g - s)) as int) as u16))
                }
            }
        } else if fmt == 2 {
            if p + 4 > d.len() {
                Err(TtfError::Truncated)
            } else {
                let k = be16(d, (p + 2) as int);
                if p + 4 + 6 * k > d.len() {
                    Err(TtfError::Truncated)
                } else {
                    Ok(class_ranges(d, p + 4, k))
                }
            }
        } else {
            Err(TtfError::BadGposFormat)
        }
    }
}

/// The key of the kerning pair of glyphs `a` and `b`.
pub open spec fn pair_key(a: nat, b: nat) -> u32 {
    (a * 0x1_0000 + b) as u32
}

/// The pairs of the `n` pair value records from `q` on, whose first glyph is `g1`, after `acc`:
/// a pair whose two x advances add up to 0 is left out.
pub open spec fn pair_values(
    d: Seq<u8>,
    q: nat,
    n: nat,
    g1: u16,
    vf1: u16,
    vf2: u16,
    acc: Seq<(u32, i16)>,
) -> Result<Seq<(u32, i16)>, TtfError>
    decreases n,
{
    if n == 0 {
        Ok(acc)
    } else if q + 2 > d.len() {
        Err(TtfError::Truncated)
    } else {
        match val_record(d, q + 2, vf1) {
            Err(e) => Err(e),
            Ok(a1) => match val_record(d, q + 2 + val_size(vf1), vf2) {
                Err(e) => Err(e),
                Ok(a2) => {
                    let k = a1 + a2;
                    if k < i16::MIN || k > i16::MAX {
                        Err(TtfError::Overflow)
                    } else {
                        let next = q + 2 + val_size(vf1) + val_size(vf2);
                        let acc2 = if k != 0 {
                            acc.push((pair_key(g1 as nat, be16(d, q as int)), k as i16))
                        } else {
                            acc
                        };
                        pair_values(d, next, (n - 1) as nat, g1, vf1, vf2, acc2)
                    }
                },
            },
        }
    }
}

/// The pairs of the first `k` pair sets of the format 1 pair adjustment at `idx`, after `acc`.
pub open spec fn pair_sets(
    d: Seq<u8>,
    idx: nat,
    first: Seq<u16>,
    vf1: u16,
    vf2: u16,
    k: nat,
) -> Result<Seq<(u32, i16)>, TtfError>
    decreases k,
{
    if k == 0 {
        Ok(Seq::empty())
    } else {
        match pair_sets(d, idx, first, vf1, vf2, (k - 1) as nat) {
            Err(e) => Err(e),
            Ok(acc) => {
                let ps = idx + be16(d, (idx + 10 + 2 * (k - 1)) as int);
                if ps + 2 > d.len() {
                    Err(TtfError::Truncated)
                } else {
                    pair_values(d, ps + 2, be16(d, ps as int), first[k - 1], vf1, vf2, acc)
                }
            },
        }
    }
}

/// The `n` pairs of value records from `q` on, as `(x advance, x advance)`, after `acc`.
pub open spec fn val_pairs(d: Seq<u8>, q: nat, n: nat, vf1: u16, vf2: u16, acc: Seq<(i16, i16)>) -> Result<
    Seq<(i16, i16)>,
    TtfError,
>
    decreases n,
{
    if n == 0 {
        Ok(acc)
    } else {
        match val_record(d, q, vf1) {
            Err(e) => Err(e),
            Ok(a1) => match val_record(d, q + val_size(vf1), vf2) {
                Err(e) => Err(e),
                Ok(a2) => val_pairs(
                    d,
                    q + val_size(vf1) + val_size(vf2),
                    (n - 1) as nat,
                    vf1,
                    vf2,
                    acc.push((a1, a2)),
                ),
            },
        }
    }
}

/// The class of glyph `g`: 0 where `cd` gives none.
pub open spec fn class_of(cd: Map<u16, u16>, g: u16) -> u16 {
    if cd.contains_key(g) {
        cd[g]
    } else {
        0
    }
}

/// The pair of `g1` and second glyph `g2` by the classes, after `acc`.
pub open spec fn class_pair(
    cd1: Map<u16, u16>,
    cd2: Map<u16, u16>,
    c1: nat,
    c2: nat,
    recs: Seq<(i16, i16)>,
    g1: u16,
    g2: u16,
    acc: Seq<(u32, i16)>,
) -> Result<Seq<(u32, i16)>, TtfError> {
    let k1 = class_of(cd1, g1);
    let k2 = class_of(cd2, g2);
    if k1 >= c1 || k2 >= c2 {
        Ok(acc)
    } else {
        let i = k1 * c2 + k2;
        if i >= recs.len() {
            Ok(acc)
        } else {
            let k = recs[i as int].0 + recs[i as int].1;
            if k < i16::MIN || k > i16::MAX {
                Err(TtfError::Overflow)
            } else if k != 0 {
                Ok(acc.push((pair_key(g1 as nat, g2 as nat), k as i16)))
            } else {
                Ok(acc)
            }
        }
    }
}

/// The pairs of `g1` with the second glyphs `0..n`, after `acc`.
pub open spec fn class_row(
    cd1: Map<u16, u16>,
    cd2: Map<u16, u16>,
    c1: nat,
    c2: nat,
    recs: Seq<(i16, i16)>,
    g1: u16,
    n: nat,
    acc: Seq<(u32, i16)>,
) -> Result<Seq<(u32, i16)>, TtfError>
    decreases n,
{
    if n == 0 {
        Ok(acc)
    } else {
        match class_row(cd1, cd2, c1, c2, recs, g1, (n - 1) as nat, acc) {
            Err(e) => Err(e),
            Ok(a) => class_pair(cd1, cd2, c1, c2, recs, g1, (n - 1) as u16, a),
        }
    }
}

/// The pairs of the first `k` glyphs of `first`, each with the second glyphs `0..n`.
pub open spec fn class_pairs(
    cd1: Map<u16, u16>,
    cd2: Map<u16, u16>,
    c1: nat,
    c2: nat,
    recs: Seq<(i16, i16)>,
    first: Seq<u16>,
    n: nat,
    k: nat,
) -> Result<Seq<(u32, i16)>, TtfError>
    decreases k,
{
    if k == 0 {
        Ok(Seq::empty())
    } else {
        match class_pairs(cd1, cd2, c1, c2, recs, first, n, (k - 1) as nat) {
            Err(e) => Err(e),
            Ok(a) => class_row(cd1, cd2, c1, c2, recs, first[k - 1], n, a),
        }
    }
}

#[verifier::opaque]
/// The kerning pairs of the pair adjustment subtable at `idx`, in order.
pub open spec fn pair_adj(d: Seq<u8>, idx: nat) -> Result<Seq<(u32, i16)>, TtfError> {
    if idx + 4 > d.len() {
        Err(TtfError::Truncated)
    } else {
        let format = be16(d, idx as int);
        match coverage(d, idx + be16(d, (idx + 2) as int)) {
            Err(e) => Err(e),
            Ok(first) => if idx + 8 > d.len() {
                Err(TtfError::Truncated)
            } else {
                let vf1 = be16(d, (idx + 4) as int) as u16;
                let vf2 = be16(d, (idx + 6) as int) as u16;
                if format == 1 {
                    if idx + 10 > d.len() {
                        Err(TtfError::Truncated)
                    } else {
                        let psc = be16(d, (idx + 8) as int);
                        if first.len() != psc {
                            Err(TtfError::PairSetMismatch)
                        } else if idx + 10 + 2 * psc > d.len() {
                            Err(TtfError::Truncated)
                        } else {
                            pair_sets(d, idx, first, vf1, vf2, psc)
                        }
                    }
                } else if format == 2 {
                    if idx + 10 > d.len() {
                        Err(TtfError::Truncated)
                    } else {
                        match class_def(d, idx + be16(d, (idx + 8) as int)) {
                            Err(e) => Err(e),
                            Ok(cd1) => if idx + 12 > d.len() {
                                Err(TtfError::Truncated)
                            } else {
                                match class_def(d, idx + be16(d, (idx + 10) as int)) {
                                    Err(e) => Err(e),
                                    Ok(cd2) => if idx + 16 > d.len() {
                                        Err(TtfError::Truncated)
                                    } else {
                                        let c1 = be16(d, (idx + 12) as int);
                                        let c2 = be16(d, (idx + 14) as int);
                                        match val_pairs(d, idx + 16, c1 * c2, vf1, vf2, Seq::empty()) {
                                            Err(e) => Err(e),
                                            Ok(recs) => class_pairs(
                                                cd1,
                                                cd2,
                                                c1,
                                                c2,
                                                recs,
                                                first,
                                                (cd2.len() as u16) as nat,
                                                first.len(),
                                            ),
                                        }
                                    },
                                }
                            },
                        }
                    }
                } else {
                    Err(TtfError::BadGposFormat)
                }
            },
        }
    }
}

#[verifier::opaque]
/// The kerning pairs of the extension positioning subtable at `idx`: those of the pair
/// adjustment it points to, none for any other kind.
pub open spec fn ext_pos(d: Seq<u8>, idx: nat) -> Result<Seq<(u32, i16)>, TtfError> {
    if idx + 2 > d.len() {
        Err(TtfError::Truncated)
    } else if be16(d, idx as int) != 1 {
        Err(TtfError::BadGposFormat)
    } else if idx + 8 > d.len() {
        Err(TtfError::Truncated)
    } else if be16(d, (idx + 2) as int) == 2 {
        pair_adj(d, idx + be32(d, (idx + 4) as int))
    } else {
        Ok(Seq::empty())
    }
}

/// The lookups of the last feature tagged `kern` among features `j..cnt` of the feature list
/// at `f`, or `cur` where none is.
pub open spec fn feature_scan(d: Seq<u8>, f: nat, j: nat, cnt: nat, cur: Option<Seq<u16>>) -> Result<
    Option<Seq<u16>>,
    TtfError,
>
    decreases cnt - j,
{
    if j >= cnt {
        Ok(cur)
    } else {
        let rec = f + 2 + 6 * j;
        if rec + 6 > d.len() {
            Err(TtfError::Truncated)
        } else {
            let fi = f + be16(d, (rec + 4) as int);
            if fi + 4 > d.len() {
                Err(TtfError::Truncated)
            } else {
                let lc = be16(d, (fi + 2) as int);
                if fi + 4 + 2 * lc > d.len() {
                    Err(TtfError::Truncated)
                } else {
                    let l = Seq::new(lc, |k: int| be16(d, fi + 4 + 2 * k) as u16);
                    feature_scan(
                        d,
                        f,
                        j + 1,
                        cnt,
                        if be32(d, rec as int) == TAG_KERN_FEATURE { Some(l) } else { cur },
                    )
                }
            }
        }
    }
}

/// Where the `sc` subtables of the lookup at `li` start.
pub open spec fn lookup_subs(d: Seq<u8>, li: nat, sc: nat) -> Seq<u64> {
    Seq::new(sc, |k: int| (li + be16(d, li + 6 + 2 * k)) as u64)
}

/// The lookups `j..cnt` of the lookup list at `l`, after `acc`: each its kind and where its
/// subtables start.
pub open spec fn lookup_scan(d: Seq<u8>, l: nat, j: nat, cnt: nat, acc: Seq<(u16, Seq<u64>)>) -> Result<
    Seq<(u16, Seq<u64>)>,
    TtfError,
>
    decreases cnt - j,
{
    if j >= cnt {
        Ok(acc)
    } else {
        let r = l + 2 + 2 * j;
        if r + 2 > d.len() {
            Err(TtfError::Truncated)
        } else {
            let li = l + be16(d, r as int);
            if li + 6 > d.len() {
                Err(TtfError::Truncated)
            } else {
                let sc = be16(d, (li + 4) as int);
                if li + 6 + 2 * sc > d.len() {
                    Err(TtfError::Truncated)
                } else {
                    lookup_scan(d, l, j + 1, cnt, acc.push((be16(d, li as int) as u16, lookup_subs(d, li, sc))))
                }
            }
        }
    }
}

/// The kerning pairs of the first `k` subtables of a lookup of kind `kind`: pair adjustments
/// for kind 2, extensions for any other.
pub open spec fn lookup_pairs(d: Seq<u8>, kind: u16, subs: Seq<u64>, k: nat) -> Result<Seq<(u32, i16)>, TtfError>
    decreases k,
{
    if k == 0 {
        Ok(Seq::empty())
    } else {
        match lookup_pairs(d, kind, subs, (k - 1) as nat) {
            Err(e) => Err(e),
            Ok(a) => match (if kind == 2 {
                pair_adj(d, subs[k - 1] as nat)
            } else {
                ext_pos(d, subs[k - 1] as nat)
            }) {
                Err(e) => Err(e),
                Ok(b) => Ok(a + b),
            },
        }
    }
}

/// The kerning pairs of the lookups that the first `k` of `idxs` name: pair adjustments (kind
/// 2) and extensions (kind 9); lookups of other kinds give none.
pub open spec fn kern_lookups(d: Seq<u8>, lks: Seq<(u16, Seq<u64>)>, idxs: Seq<u16>, k: nat) -> Result<
    Seq<(u32, i16)>,
    TtfError,
>
    decreases k,
{
    if k == 0 {
        Ok(Seq::empty())
    } else {
        match kern_lookups(d, lks, idxs, (k - 1) as nat) {
            Err(e) => Err(e),
            Ok(a) => {
                let li = idxs[k - 1];
                if li >= lks.len() {
                    Err(TtfError::BadLookupIndex)
                } else {
                    let kind = lks[li as int].0;
                    let subs = lks[li as int].1;
                    if kind == 2 || kind == 9 {
                        match lookup_pairs(d, kind, subs, subs.len()) {
                            Err(e) => Err(e),
                            Ok(b) => Ok(a + b),
                        }
                    } else {
                        Ok(a)
                    }
                }
            },
        }
    }
}

/// The kerning pairs of the glyph positioning table at `g`, in order: those of the lookups of
/// its kerning feature, none where it has none.
pub open spec fn gpos_pairs(d: Seq<u8>, g: nat) -> Result<Seq<(u32, i16)>, TtfError> {
    if g + 10 > d.len() {
        Err(TtfError::Truncated)
    } else if be32(d, g as int) == 0x0001_0001 && g + 14 > d.len() {
        Err(TtfError::Truncated)
    } else {
        let f = g + be16(d, (g + 6) as int);
        if f + 2 > d.len() {
            Err(TtfError::Truncated)
        } else {
            match feature_scan(d, f, 0, be16(d, f as int), None) {
                Err(e) => Err(e),
                Ok(None) => Ok(Seq::empty()),
                Ok(Some(idxs)) => {
                    let l = g + be16(d, (g + 8) as int);
                    if l + 2 > d.len() {
                        Err(TtfError::Truncated)
                    } else {
                        match lookup_scan(d, l, 0, be16(d, l as int), Seq::empty()) {
                            Err(e) => Err(e),
                            Ok(lks) => kern_lookups(d, lks, idxs, idxs.len()),
                        }
                    }
                },
            }
        }
    }
}

/// The map that putting the pairs of `s` in, in order, gives.
pub open spec fn pairs_map(s: Seq<(u32, i16)>) -> Map<u32, i16>
    decreases s.len(),
{
    if s.len() == 0 {
        Map::empty()
    } else {
        pairs_map(s.drop_last()).insert(s.last().0, s.last().1)
    }
}

/// The kerning pairs of the glyph positioning table at `g`, none where there is none.
pub open spec fn gpos_map(d: Seq<u8>, g: nat) -> Result<Map<u32, i16>, TtfError> {
    if g == 0 {
        Ok(Map::empty())
    } else {
        match gpos_pairs(d, g) {
            Err(e) => Err(e),
            Ok(s) => Ok(pairs_map(s)),
        }
    }
}

/// Whether `k` bytes from `p` on run past the end `n`.
fn past(p: u64, k: u64, n: u64) -> (r: bool)
    ensures
        r == (p + k > n),
{
    p > n || n - p < k
}

/// Reads the x advance of a value record, as `val_record` says.
fn read_val_record(d: &[u8], p: u64, fmt: u16) -> (r: Result<i16, TtfError>)
    ensures
        match val_record(d@, p as nat, fmt) {
            Ok(v) => r == Ok::<i16, TtfError>(v),
            Err(e) => r == Err::<i16, TtfError>(e),
        },
{
    if fmt > 0xF {
        return Err(TtfError::BadGposFormat);
    }
    let b0 = ((fmt >> 0u16) & 1) as u64;
    let b1 = ((fmt >> 1u16) & 1) as u64;
    let b2 = ((fmt >> 2u16) & 1) as u64;
    let b3 = ((fmt >> 3u16) & 1) as u64;
    let size = 2 * (b0 + b1 + b2 + b3);
    if past(p, size, d.len() as u64) {
        return Err(TtfError::Truncated);
    }
    if b2 == 1 {
        Ok(read_be16(d, (p + 2 * (b0 + b1)) as usize) as i16)
    } else {
        Ok(0)
    }
}

/// The size of a value record of format `fmt`, as `val_size` says.
fn val_size_exec(fmt: u16) -> (r: u64)
    ensures
        r == val_size(fmt),
        r <= 8,
{
    let b0 = ((fmt >> 0u16) & 1) as u64;
    let b1 = ((fmt >> 1u16) & 1) as u64;
    let b2 = ((fmt >> 2u16) & 1) as u64;
    let b3 = ((fmt >> 3u16) & 1) as u64;
    assert(forall|k: u16| (fmt >> k) & 1 <= 1) by (bit_vector);
    2 * (b0 + b1 + b2 + b3)
}

/// Reads a coverage table, as `coverage` says.
fn read_coverage(d: &[u8], p: u64) -> (r: Result<Vec<u16>, TtfError>)
    ensures
        match coverage(d@, p as nat) {
            Ok(s) => r matches Ok(v) && v@ == s,
            Err(e) => r matches Err(re) && re == e,
        },
{
    let n = d.len() as u64;
    if past(p, 2, n) {
        return Err(TtfError::Truncated);
    }
    let fmt = read_be16(d, p as usize);
    if fmt != 1 && fmt != 2 {
        return Err(TtfError::BadGposFormat);
    }
    if past(p, 4, n) {
        return Err(TtfError::Truncated);
    }
    let c = read_be16(d, p as usize + 2) as u64;
    let mut out: Vec<u16> = Vec::new();
    if fmt == 1 {
        if past(p + 4, 2 * c, n) {
            return Err(TtfError::Truncated);
        }
        let mut i: u64 = 0;
        while i < c
            invariant
                i <= c,
                p + 4 + 2 * c <= n,
                n == d@.len(),
                n <= usize::MAX,
                out@ == Seq::new(i as nat, |j: int| be16(d@, p + 4 + 2 * j) as u16),
            decreases c - i,
        {
            out.push(read_be16(d, (p + 4 + 2 * i) as usize));
            i = i + 1;
            assert(out@ =~= Seq::new(i as nat, |j: int| be16(d@, p + 4 + 2 * j) as u16));
        }
        Ok(out)
    } else if fmt == 2 {
        if past(p + 4, 6 * c, n) {
            return Err(TtfError::Truncated);
        }
        let mut k: u64 = 0;
        while k < c
            invariant
                k <= c,
                p + 4 + 6 * c <= n,
                n == d@.len(),
                n <= usize::MAX,
                out@ == cov_ranges(d@, (p + 4) as nat, k as nat),
            decreases c - k,
        {
            let r = (p + 4 + 6 * k) as usize;
            let s = read_be16(d, r) as u32;
            let e = read_be16(d, r + 2) as u32;
            let ghost before = out@;
            let mut g = s;
            if s > e {
                g = e + 1;
            }
            while g <= e
                invariant
                    s <= e ==> s <= g <= e + 1,
                    s > e ==> g == e + 1,
                    e <= 0xFFFF,
                    out@ == before + Seq::new(if s <= e { (g - s) as nat } else { 0 }, |i: int| (s + i) as u16),
                decreases e + 1 - g,
            {
                out.push(g as u16);
                g = g + 1;
                assert(out@ =~= before + Seq::new(if s <= e { (g - s) as nat } else { 0 }, |i: int| (s + i) as u16));
            }
            k = k + 1;
            assert(out@ =~= before + glyph_range(s as nat, e as nat));
        }
        Ok(out)
    } else {
        Err(TtfError::BadGposFormat)
    }
}

/// Reads a class definition table, as `class_def` says.
fn read_class_def(d: &[u8], p: u64) -> (r: Result<HashMap<u16, u16>, TtfError>)
    ensures
        match class_def(d@, p as nat) {
            Ok(m) => r matches Ok(h) && h@ == m,
            Err(e) => r matches Err(re) && re == e,
        },
{
    let n = d.len() as u64;
    if past(p, 2, n) {
        return Err(TtfError::Truncated);
    }
    let fmt = read_be16(d, p as usize);
    let mut m: HashMap<u16, u16> = HashMap::new();
    if fmt == 1 {
        if past(p, 6, n) {
            return Err(TtfError::Truncated);
        }
        let s = read_be16(d, p as usize + 2) as u64;
        let c = read_be16(d, p as usize + 4) as u64;
        if s + c > 0x1_0000 {
            if past(p + 6, 2 * (0x1_0000 - s) + 2, n) {
                return Err(TtfError::Truncated);
            }
            return Err(TtfError::Overflow);
        }
        if past(p + 6, 2 * c, n) {
            return Err(TtfError::Truncated);
        }
        let mut i: u64 = 0;
        assert(m@ =~= Map::new(|g: u16| s <= g < s + i, |g: u16| be16(d@, p + 6 + 2 * (g - s)) as u16));
        while i < c
            invariant
                i <= c,
                s + c <= 0x1_0000,
                p + 6 + 2 * c <= n,
                n == d@.len(),
                n <= usize::MAX,
                m@ == Map::new(|g: u16| s <= g < s + i, |g: u16| be16(d@, p + 6 + 2 * (g - s)) as u16),
            decreases c - i,
        {
            let v = read_be16(d, (p + 6 + 2 * i) as usize);
            m.insert((s + i) as u16, v);
            i = i + 1;
            assert(m@ =~= Map::new(|g: u16| s <= g < s + i, |g: u16| be16(d@, p + 6 + 2 * (g - s)) as u16));
        }
        Ok(m)
    } else if fmt == 2 {
        if past(p, 4, n) {
            return Err(TtfError::Truncated);
        }
        let k = read_be16(d, p as usize + 2) as u64;
        if past(p + 4, 6 * k, n) {
            return Err(TtfError::Truncated);
        }
        let mut j: u64 = 0;
        assert(m@ =~= class_ranges(d@, (p + 4) as nat, 0));
        while j < k
            invariant
                j <= k,
                p + 4 + 6 * k <= n,
                n == d@.len(),
                n <= usize::MAX,
                m@ == class_ranges(d@, (p + 4) as nat, j as nat),
            decreases k - j,
        {
            let r = (p + 4 + 6 * j) as usize;
            let s = read_be16(d, r) as u32;
            let e = read_be16(d, r + 2) as u32;
            let c = read_be16(d, r + 4);
            let ghost before = m@;
            let mut g = s;
            assert(m@ =~= before.union_prefer_right(Map::new(|x: u16| s <= x < g, |x: u16| c)));
            while g <= e
                invariant
                    s <= g,
                    g <= e + 1 || g == s,
                    e <= 0xFFFF,
                    m@ == before.union_prefer_right(Map::new(|x: u16| s <= x < g, |x: u16| c)),
                decreases e + 1 - g,
            {
                m.insert(g as u16, c);
                g = g + 1;
                assert(m@ =~= before.union_prefer_right(Map::new(|x: u16| s <= x < g, |x: u16| c)));
            }
            j = j + 1;
            assert(m@ =~= class_ranges(d@, (p + 4) as nat, j as nat));
        }
        Ok(m)
    } else {
        Err(TtfError::BadGposFormat)
    }
}

/// Reads `cnt` pair value records from `q0` on, as `pair_values` says, onto `out`.
fn read_pair_values(
    d: &[u8],
    q0: u64,
    cnt: u16,
    g1: u16,
    vf1: u16,
    vf2: u16,
    out: &mut Vec<(u32, i16)>,
) -> (r: Result<(), TtfError>)
    requires
        q0 <= 0x400_0000_0000,
    ensures
        match pair_values(d@, q0 as nat, cnt as nat, g1, vf1, vf2, old(out)@) {
            Ok(s) => r is Ok && final(out)@ == s,
            Err(e) => r == Err::<(), TtfError>(e),
        },
{
    let ghost total = pair_values(d@, q0 as nat, cnt as nat, g1, vf1, vf2, out@);
    let n = d.len() as u64;
    let s1 = val_size_exec(vf1);
    let s2 = val_size_exec(vf2);
    let mut q = q0;
    let mut j: u16 = 0;
    while j < cnt
        invariant
            j <= cnt,
            q <= q0 + 18 * j,
            q0 <= 0x400_0000_0000,
            n == d@.len(),
            n <= usize::MAX,
            s1 == val_size(vf1),
            s2 == val_size(vf2),
            s1 <= 8,
            s2 <= 8,
            total == pair_values(d@, q as nat, (cnt - j) as nat, g1, vf1, vf2, out@),
            total == pair_values(d@, q0 as nat, cnt as nat, g1, vf1, vf2, old(out)@),
        decreases cnt - j,
    {
        if past(q, 2, n) {
            return Err(TtfError::Truncated);
        }
        let a1 = match read_val_record(d, q + 2, vf1) {
            Err(e) => return Err(e),
            Ok(v) => v,
        };
        let a2 = match read_val_record(d, q + 2 + s1, vf2) {
            Err(e) => return Err(e),
            Ok(v) => v,
        };
        let k: i32 = a1 as i32 + a2 as i32;
        if k < -32768 || k > 32767 {
            return Err(TtfError::Overflow);
        }
        if k != 0 {
            let second = read_be16(d, q as usize) as u32;
            out.push((g1 as u32 * 0x1_0000 + second, k as i16));
        }
        q = q + 2 + s1 + s2;
        j = j + 1;
    }
    Ok(())
}

/// Reads `k` pairs of value records from `q0` on, as `val_pairs` says, onto `out`.
fn read_val_pairs(d: &[u8], q0: u64, k: u32, vf1: u16, vf2: u16, out: &mut Vec<(i16, i16)>) -> (r: Result<(), TtfError>)
    requires
        q0 <= 0x400_0000_0000,
    ensures
        match val_pairs(d@, q0 as nat, k as nat, vf1, vf2, old(out)@) {
            Ok(s) => r is Ok && final(out)@ == s,
            Err(e) => r == Err::<(), TtfError>(e),
        },
{
    let ghost total = val_pairs(d@, q0 as nat, k as nat, vf1, vf2, out@);
    let s1 = val_size_exec(vf1);
    let s2 = val_size_exec(vf2);
    let mut q = q0;
    let mut j: u32 = 0;
    while j < k
        invariant
            j <= k,
            q <= q0 + 16 * j,
            q0 <= 0x400_0000_0000,
            s1 == val_size(vf1),
            s2 == val_size(vf2),
            s1 <= 8,
            s2 <= 8,
            total == val_pairs(d@, q as nat, (k - j) as nat, vf1, vf2, out@),
            total == val_pairs(d@, q0 as nat, k as nat, vf1, vf2, old(out)@),
        decreases k - j,
    {
        let a1 = match read_val_record(d, q, vf1) {
            Err(e) => return Err(e),
            Ok(v) => v,
        };
        let a2 = match read_val_record(d, q + s1, vf2) {
            Err(e) => return Err(e),
            Ok(v) => v,
        };
        out.push((a1, a2));
        q = q + s1 + s2;
        j = j + 1;
    }
    Ok(())
}

proof fn lemma_class_row_err_stays(
    cd1: Map<u16, u16>,
    cd2: Map<u16, u16>,
    c1: nat,
    c2: nat,
    recs: Seq<(i16, i16)>,
    g1: u16,
    j: nat,
    m: nat,
    acc: Seq<(u32, i16)>,
)
    requires
        j <= m,
        class_row(cd1, cd2, c1, c2, recs, g1, j, acc) is Err,
    ensures
        class_row(cd1, cd2, c1, c2, recs, g1, m, acc) == class_row(cd1, cd2, c1, c2, recs, g1, j, acc),
    decreases m,
{
    if m > j {
        lemma_class_row_err_stays(cd1, cd2, c1, c2, recs, g1, j, (m - 1) as nat, acc);
    }
}

proof fn lemma_class_pairs_err_stays(
    cd1: Map<u16, u16>,
    cd2: Map<u16, u16>,
    c1: nat,
    c2: nat,
    recs: Seq<(i16, i16)>,
    first: Seq<u16>,
    n: nat,
    j: nat,
    m: nat,
)
    requires
        j <= m,
        class_pairs(cd1, cd2, c1, c2, recs, first, n, j) is Err,
    ensures
        class_pairs(cd1, cd2, c1, c2, recs, first, n, m) == class_pairs(cd1, cd2, c1, c2, recs, first, n, j),
    decreases m,
{
    if m > j {
        lemma_class_pairs_err_stays(cd1, cd2, c1, c2, recs, first, n, j, (m - 1) as nat);
    }
}

/// The class of `g`, as `class_of` says.
fn class_of_exec(cd: &HashMap<u16, u16>, g: u16) -> (r: u16)
    ensures
        r == class_of(cd@, g),
{
    match cd.get(&g) {
        Some(v) => *v,
        None => 0,
    }
}

/// The pairs by classes, as `class_pairs` says for all of `first`.
fn read_class_pairs(
    cd1: &HashMap<u16, u16>,
    cd2: &HashMap<u16, u16>,
    c1: u16,
    c2: u16,
    recs: &Vec<(i16, i16)>,
    first: &Vec<u16>,
    n: u16,
) -> (r: Result<Vec<(u32, i16)>, TtfError>)
    ensures
        match class_pairs(cd1@, cd2@, c1 as nat, c2 as nat, recs@, first@, n as nat, first@.len()) {
            Ok(s) => r matches Ok(v) && v@ == s,
            Err(e) => r matches Err(re) && re == e,
        },
{
    let mut out: Vec<(u32, i16)> = Vec::new();
    let mut k: usize = 0;
    while k < first.len()
        invariant
            k <= first@.len(),
            class_pairs(cd1@, cd2@, c1 as nat, c2 as nat, recs@, first@, n as nat, k as nat) == Ok::<
                Seq<(u32, i16)>,
                TtfError,
            >(out@),
        decreases first@.len() - k,
    {
        let g1 = first[k];
        let k1 = class_of_exec(cd1, g1);
        let ghost acc0 = out@;
        let mut g2: u16 = 0;
        while g2 < n
            invariant
                g2 <= n,
                k < first@.len(),
                g1 == first@[k as int],
                k1 == class_of(cd1@, g1),
                class_pairs(cd1@, cd2@, c1 as nat, c2 as nat, recs@, first@, n as nat, k as nat) == Ok::<
                    Seq<(u32, i16)>,
                    TtfError,
                >(acc0),
                class_row(cd1@, cd2@, c1 as nat, c2 as nat, recs@, g1, g2 as nat, acc0) == Ok::<
                    Seq<(u32, i16)>,
                    TtfError,
                >(out@),
            decreases n - g2,
        {
            let k2 = class_of_exec(cd2, g2);
            if k1 < c1 && k2 < c2 {
                assert(k1 as u64 * c2 as u64 <= 0xFFFF * 0xFFFF) by (nonlinear_arith)
                    requires
                        k1 <= 0xFFFF,
                        c2 <= 0xFFFF,
                ;
                let i = k1 as u64 * c2 as u64 + k2 as u64;
                if i < recs.len() as u64 {
                    let (v1, v2) = recs[i as usize];
                    let kern: i32 = v1 as i32 + v2 as i32;
                    if kern < -32768 || kern > 32767 {
                        proof {
                            lemma_class_row_err_stays(
                                cd1@,
                                cd2@,
                                c1 as nat,
                                c2 as nat,
                                recs@,
                                g1,
                                (g2 + 1) as nat,
                                n as nat,
                                acc0,
                            );
                            lemma_class_pairs_err_stays(
                                cd1@,
                                cd2@,
                                c1 as nat,
                                c2 as nat,
                                recs@,
                                first@,
                                n as nat,
                                (k + 1) as nat,
                                first@.len(),
                            );
                        }
                        return Err(TtfError::Overflow);
                    }
                    if kern != 0 {
                        out.push((g1 as u32 * 0x1_0000 + g2 as u32, kern as i16));
                    }
                }
            }
            g2 = g2 + 1;
        }
        k = k + 1;
    }
    Ok(out)
}

proof fn lemma_pair_sets_err_stays(
    d: Seq<u8>,
    idx: nat,
    first: Seq<u16>,
    vf1: u16,
    vf2: u16,
    j: nat,
    m: nat,
)
    requires
        j <= m,
        pair_sets(d, idx, first, vf1, vf2, j) is Err,
    ensures
        pair_sets(d, idx, first, vf1, vf2, m) == pair_sets(d, idx, first, vf1, vf2, j),
    decreases m,
{
    if m > j {
        lemma_pair_sets_err_stays(d, idx, first, vf1, vf2, j, (m - 1) as nat);
    }
}

/// Reads the pair sets of a format 1 pair adjustment, as `pair_sets` says.
fn read_pair_sets(d: &[u8], idx: u64, first: &Vec<u16>, vf1: u16, vf2: u16, psc: u16) -> (r: Result<
    Vec<(u32, i16)>,
    TtfError,
>)
    requires
        idx <= 0x200_0000_0000,
        first@.len() == psc,
        idx + 10 + 2 * psc <= d@.len(),
    ensures
        match pair_sets(d@, idx as nat, first@, vf1, vf2, psc as nat) {
            Ok(s) => r matches Ok(v) && v@ == s,
            Err(e) => r matches Err(re) && re == e,
        },
{
    let n = d.len() as u64;
    let mut out: Vec<(u32, i16)> = Vec::new();
    let mut k: u16 = 0;
    while k < psc
        invariant
            k <= psc,
            first@.len() == psc,
            idx <= 0x200_0000_0000,
            idx + 10 + 2 * psc <= n,
            n == d@.len(),
            n <= usize::MAX,
            pair_sets(d@, idx as nat, first@, vf1, vf2, k as nat) == Ok::<Seq<(u32, i16)>, TtfError>(out@),
        decreases psc - k,
    {
        let ps = idx + read_be16(d, (idx + 10 + 2 * k as u64) as usize) as u64;
        if past(ps, 2, n) {
            proof {
                lemma_pair_sets_err_stays(d@, idx as nat, first@, vf1, vf2, (k + 1) as nat, psc as nat);
            }
            return Err(TtfError::Truncated);
        }
        let cnt = read_be16(d, ps as usize);
        match read_pair_values(d, ps + 2, cnt, first[k as usize], vf1, vf2, &mut out) {
            Err(e) => {
                proof {
                    lemma_pair_sets_err_stays(d@, idx as nat, first@, vf1, vf2, (k + 1) as nat, psc as nat);
                }
                return Err(e);
            },
            Ok(()) => {},
        }
        k = k + 1;
    }
    Ok(out)
}

/// Reads a pair adjustment subtable, as `pair_adj` says; its start lies within the first 2^41
/// bytes, as every subtable start that `read_gpos_map` reaches through 32-bit offsets does.
fn read_pair_adj(d: &[u8], idx: u64) -> (r: Result<Vec<(u32, i16)>, TtfError>)
    requires
        idx <= 0x200_0000_0000,
    ensures
        match pair_adj(d@, idx as nat) {
            Ok(s) => r matches Ok(v) && v@ == s,
            Err(e) => r matches Err(re) && re == e,
        },
{
    reveal(pair_adj);
    let n = d.len() as u64;
    if past(idx, 4, n) {
        return Err(TtfError::Truncated);
    }
    let i = idx as usize;
    let format = read_be16(d, i);
    let first = match read_coverage(d, idx + read_be16(d, i + 2) as u64) {
        Err(e) => return Err(e),
        Ok(v) => v,
    };
    if past(idx, 8, n) {
        return Err(TtfError::Truncated);
    }
    let vf1 = read_be16(d, i + 4);
    let vf2 = read_be16(d, i + 6);
    if format == 1 {
        if past(idx, 10, n) {
            return Err(TtfError::Truncated);
        }
        let psc = read_be16(d, i + 8);
        if first.len() != psc as usize {
            return Err(TtfError::PairSetMismatch);
        }
        if past(idx + 10, 2 * psc as u64, n) {
            return Err(TtfError::Truncated);
        }
        read_pair_sets(d, idx, &first, vf1, vf2, psc)
    } else if format == 2 {
        if past(idx, 10, n) {
            return Err(TtfError::Truncated);
        }
        let cd1 = match read_class_def(d, idx + read_be16(d, i + 8) as u64) {
            Err(e) => return Err(e),
            Ok(m) => m,
        };
        if past(idx, 12, n) {
            return Err(TtfError::Truncated);
        }
        let cd2 = match read_class_def(d, idx + read_be16(d, i + 10) as u64) {
            Err(e) => return Err(e),
            Ok(m) => m,
        };
        if past(idx, 16, n) {
            return Err(TtfError::Truncated);
        }
        let c1 = read_be16(d, i + 12);
        let c2 = read_be16(d, i + 14);
        assert(c1 as u32 * c2 as u32 <= 0xFFFF * 0xFFFF) by (nonlinear_arith)
            requires
                c1 <= 0xFFFF,
                c2 <= 0xFFFF,
        ;
        let mut recs: Vec<(i16, i16)> = Vec::new();
        match read_val_pairs(d, idx + 16, c1 as u32 * c2 as u32, vf1, vf2, &mut recs) {
            Err(e) => return Err(e),
            Ok(()) => {},
        }
        read_class_pairs(&cd1, &cd2, c1, c2, &recs, &first, cd2.len() as u16)
    } else {
        Err(TtfError::BadGposFormat)
    }
}

/// Reads an extension positioning subtable, as `ext_pos` says.
fn read_ext_pos(d: &[u8], idx: u64) -> (r: Result<Vec<(u32, i16)>, TtfError>)
    requires
        idx <= 0x100_0000_0000,
    ensures
        match ext_pos(d@, idx as nat) {
            Ok(s) => r matches Ok(v) && v@ == s,
            Err(e) => r matches Err(re) && re == e,
        },
{
    reveal(ext_pos);
    let n = d.len() as u64;
    if past(idx, 2, n) {
        return Err(TtfError::Truncated);
    }
    let i = idx as usize;
    if read_be16(d, i) != 1 {
        return Err(TtfError::BadGposFormat);
    }
    if past(idx, 8, n) {
        return Err(TtfError::Truncated);
    }
    if read_be16(d, i + 2) == 2 {
        read_pair_adj(d, idx + read_be32(d, i + 4) as u64)
    } else {
        Ok(Vec::new())
    }
}

/// Whether every subtable start of `s` lies within the first 2^34 bytes, as those of a table
/// at a 32-bit offset do.
pub open spec fn subs_near(s: Seq<u64>) -> bool {
    forall|k: int| 0 <= k < s.len() ==> #[trigger] s[k] <= 0x4_0000_0000
}

/// `o` with the vector it may hold taken by its view.
pub open spec fn opt_view(o: Option<Vec<u16>>) -> Option<Seq<u16>> {
    match o {
        Some(v) => Some(v@),
        None => None,
    }
}

/// The lookups of `v`, each with its subtables taken by their view.
pub open spec fn lookups_view(v: Seq<(u16, Vec<u64>)>) -> Seq<(u16, Seq<u64>)> {
    Seq::new(v.len(), |j: int| (v[j].0, v[j].1@))
}

/// Reads the feature list at `f`, as `feature_scan` says.
fn read_features(d: &[u8], f: u64) -> (r: Result<Option<Vec<u16>>, TtfError>)
    requires
        f + 2 <= d@.len(),
        f <= 0x2_0000_0000,
    ensures
        match feature_scan(d@, f as nat, 0, be16(d@, f as int), None) {
            Ok(o) => r matches Ok(ro) && opt_view(ro) == o,
            Err(e) => r matches Err(re) && re == e,
        },
{
    let n = d.len() as u64;
    let cnt = read_be16(d, f as usize) as u64;
    let ghost total = feature_scan(d@, f as nat, 0, cnt as nat, None);
    let mut cur: Option<Vec<u16>> = None;
    let mut j: u64 = 0;
    while j < cnt
        invariant
            j <= cnt <= 0xFFFF,
            f + 2 <= n,
            f <= 0x2_0000_0000,
            n == d@.len(),
            n <= usize::MAX,
            cnt == be16(d@, f as int),
            total == feature_scan(d@, f as nat, j as nat, cnt as nat, opt_view(cur)),
            total == feature_scan(d@, f as nat, 0, cnt as nat, None),
        decreases cnt - j,
    {
        let rec = f + 2 + 6 * j;
        if past(rec, 6, n) {
            return Err(TtfError::Truncated);
        }
        let tag = read_be32(d, rec as usize);
        let fi = f + read_be16(d, rec as usize + 4) as u64;
        if past(fi, 4, n) {
            return Err(TtfError::Truncated);
        }
        let lc = read_be16(d, fi as usize + 2) as u64;
        if past(fi + 4, 2 * lc, n) {
            return Err(TtfError::Truncated);
        }
        let mut l: Vec<u16> = Vec::new();
        let mut k: u64 = 0;
        while k < lc
            invariant
                k <= lc,
                fi + 4 + 2 * lc <= n,
                n == d@.len(),
                n <= usize::MAX,
                l@ == Seq::new(k as nat, |i: int| be16(d@, fi + 4 + 2 * i) as u16),
            decreases lc - k,
        {
            l.push(read_be16(d, (fi + 4 + 2 * k) as usize));
            k = k + 1;
            assert(l@ =~= Seq::new(k as nat, |i: int| be16(d@, fi + 4 + 2 * i) as u16));
        }
        if tag == TAG_KERN_FEATURE {
            cur = Some(l);
        }
        j = j + 1;
    }
    Ok(cur)
}

/// Reads the lookup list at `l`, as `lookup_scan` says.
#[verifier::rlimit(50)]
fn read_lookups(d: &[u8], l: u64) -> (r: Result<Vec<(u16, Vec<u64>)>, TtfError>)
    requires
        l + 2 <= d@.len(),
        l <= 0x2_0000_0000,
    ensures
        match lookup_scan(d@, l as nat, 0, be16(d@, l as int), Seq::empty()) {
            Ok(s) => r matches Ok(v) && lookups_view(v@) == s,
            Err(e) => r matches Err(re) && re == e,
        },
        r matches Ok(v) ==> forall|j: int| 0 <= j < v@.len() ==> #[trigger] subs_near(v@[j].1@),
{
    let n = d.len() as u64;
    let cnt = read_be16(d, l as usize) as u64;
    let ghost total = lookup_scan(d@, l as nat, 0, cnt as nat, Seq::empty());
    let mut out: Vec<(u16, Vec<u64>)> = Vec::new();
    let mut j: u64 = 0;
    assert(lookups_view(out@) =~= Seq::empty());
    while j < cnt
        invariant
            j <= cnt <= 0xFFFF,
            l + 2 <= n,
            l <= 0x2_0000_0000,
            n == d@.len(),
            n <= usize::MAX,
            total == lookup_scan(d@, l as nat, j as nat, cnt as nat, lookups_view(out@)),
            total == lookup_scan(d@, l as nat, 0, cnt as nat, Seq::empty()),
            cnt == be16(d@, l as int),
            forall|a: int| 0 <= a < out@.len() ==> #[trigger] subs_near(out@[a].1@),
        decreases cnt - j,
    {
        let r = l + 2 + 2 * j;
        if past(r, 2, n) {
            return Err(TtfError::Truncated);
        }
        let li = l + read_be16(d, r as usize) as u64;
        if past(li, 6, n) {
            return Err(TtfError::Truncated);
        }
        let kind = read_be16(d, li as usize);
        let sc = read_be16(d, li as usize + 4) as u64;
        if past(li + 6, 2 * sc, n) {
            return Err(TtfError::Truncated);
        }
        let mut subs: Vec<u64> = Vec::new();
        let mut k: u64 = 0;
        while k < sc
            invariant
                k <= sc,
                li + 6 + 2 * sc <= n,
                li <= 0x2_0001_0000,
                n == d@.len(),
                n <= usize::MAX,
                subs@ == Seq::new(k as nat, |i: int| (li + be16(d@, li + 6 + 2 * i)) as u64),
                forall|i: int| 0 <= i < subs@.len() ==> #[trigger] subs@[i] <= 0x4_0000_0000,
            decreases sc - k,
        {
            subs.push(li + read_be16(d, (li + 6 + 2 * k) as usize) as u64);
            k = k + 1;
            assert(subs@ =~= Seq::new(k as nat, |i: int| (li + be16(d@, li + 6 + 2 * i)) as u64));
        }
        let ghost before = lookups_view(out@);
        let ghost sv = subs@;
        assert(sv =~= lookup_subs(d@, li as nat, sc as nat));
        assert(lookup_scan(d@, l as nat, j as nat, cnt as nat, before) == lookup_scan(
            d@,
            l as nat,
            (j + 1) as nat,
            cnt as nat,
            before.push((kind, sv)),
        ));
        let ghost old_out = out@;
        out.push((kind, subs));
        assert(lookups_view(out@) =~= before.push((kind, sv)));
        assert(subs_near(sv));
        assert forall|a: int| 0 <= a < out@.len() implies #[trigger] subs_near(out@[a].1@) by {
            if a < old_out.len() {
                assert(out@[a] == old_out[a]);
            }
        }
        j = j + 1;
    }
    Ok(out)
}

proof fn lemma_lookup_pairs_err_stays(d: Seq<u8>, kind: u16, subs: Seq<u64>, j: nat, m: nat)
    requires
        j <= m,
        lookup_pairs(d, kind, subs, j) is Err,
    ensures
        lookup_pairs(d, kind, subs, m) == lookup_pairs(d, kind, subs, j),
    decreases m,
{
    if m > j {
        lemma_lookup_pairs_err_stays(d, kind, subs, j, (m - 1) as nat);
    }
}

proof fn lemma_kern_lookups_err_stays(d: Seq<u8>, lks: Seq<(u16, Seq<u64>)>, idxs: Seq<u16>, j: nat, m: nat)
    requires
        j <= m,
        kern_lookups(d, lks, idxs, j) is Err,
    ensures
        kern_lookups(d, lks, idxs, m) == kern_lookups(d, lks, idxs, j),
    decreases m,
{
    if m > j {
        lemma_kern_lookups_err_stays(d, lks, idxs, j, (m - 1) as nat);
    }
}

/// Reads the kerning pairs of the lookups that `idxs` name, as `kern_lookups` says.
#[verifier::rlimit(50)]
fn read_kern_lookups(d: &[u8], lks: &Vec<(u16, Vec<u64>)>, idxs: &Vec<u16>) -> (r: Result<
    Vec<(u32, i16)>,
    TtfError,
>)
    requires
        forall|j: int| 0 <= j < lks@.len() ==> #[trigger] subs_near(lks@[j].1@),
    ensures
        match kern_lookups(d@, lookups_view(lks@), idxs@, idxs@.len()) {
            Ok(s) => r matches Ok(v) && v@ == s,
            Err(e) => r matches Err(re) && re == e,
        },
{
    let ghost lv = lookups_view(lks@);
    let mut out: Vec<(u32, i16)> = Vec::new();
    let mut i: usize = 0;
    while i < idxs.len()
        invariant
            i <= idxs@.len(),
            lv == lookups_view(lks@),
            forall|j: int| 0 <= j < lks@.len() ==> #[trigger] subs_near(lks@[j].1@),
            kern_lookups(d@, lv, idxs@, i as nat) == Ok::<Seq<(u32, i16)>, TtfError>(out@),
        decreases idxs@.len() - i,
    {
        let li = idxs[i] as usize;
        if li >= lks.len() {
            proof {
                lemma_kern_lookups_err_stays(d@, lv, idxs@, (i + 1) as nat, idxs@.len());
            }
            return Err(TtfError::BadLookupIndex);
        }
        let kind = lks[li].0;
        if kind == 2 || kind == 9 {
            let subs = &lks[li].1;
            let ghost acc0 = out@;
            let mut k: usize = 0;
            assert(acc0 + Seq::<(u32, i16)>::empty() =~= acc0);
            while k < subs.len()
                invariant
                    k <= subs@.len(),
                    kind == 2 || kind == 9,
                    i < idxs@.len(),
                    li == idxs@[i as int],
                    li < lks@.len(),
                    lv == lookups_view(lks@),
                    kind == lks@[li as int].0,
                    subs@ == lks@[li as int].1@,
                    kern_lookups(d@, lv, idxs@, i as nat) == Ok::<Seq<(u32, i16)>, TtfError>(acc0),
                    subs_near(subs@),
                    lookup_pairs(d@, kind, subs@, k as nat) matches Ok(b) && out@ == acc0 + b,
                decreases subs@.len() - k,
            {
                let ghost b0 = out@;
                let part = if kind == 2 {
                    read_pair_adj(d, subs[k])
                } else {
                    read_ext_pos(d, subs[k])
                };
                match part {
                    Err(e) => {
                        proof {
                            lemma_lookup_pairs_err_stays(d@, kind, subs@, (k + 1) as nat, subs@.len());
                            lemma_kern_lookups_err_stays(d@, lv, idxs@, (i + 1) as nat, idxs@.len());
                        }
                        return Err(e);
                    },
                    Ok(mut v) => {
                        let ghost pv = v@;
                        out.append(&mut v);
                        assert(out@ =~= b0 + pv);
                    },
                }
                k = k + 1;
                proof {
                    let b = lookup_pairs(d@, kind, subs@, k as nat)->Ok_0;
                    assert(out@ =~= acc0 + b);
                }
            }
        }
        i = i + 1;
    }
    Ok(out)
}

/// Reads the kerning pairs of the glyph positioning table at `g`, as `gpos_pairs` says.
fn read_gpos_pairs(d: &[u8], g: u32) -> (r: Result<Vec<(u32, i16)>, TtfError>)
    ensures
        match gpos_pairs(d@, g as nat) {
            Ok(s) => r matches Ok(v) && v@ == s,
            Err(e) => r matches Err(re) && re == e,
        },
{
    let n = d.len() as u64;
    let g0 = g as u64;
    if past(g0, 10, n) {
        return Err(TtfError::Truncated);
    }
    let gi = g as usize;
    if read_be32(d, gi) == 0x0001_0001 && past(g0, 14, n) {
        return Err(TtfError::Truncated);
    }
    let f = g0 + read_be16(d, gi + 6) as u64;
    if past(f, 2, n) {
        return Err(TtfError::Truncated);
    }
    let idxs = match read_features(d, f) {
        Err(e) => return Err(e),
        Ok(None) => return Ok(Vec::new()),
        Ok(Some(v)) => v,
    };
    let l = g0 + read_be16(d, gi + 8) as u64;
    if past(l, 2, n) {
        return Err(TtfError::Truncated);
    }
    let lks = match read_lookups(d, l) {
        Err(e) => return Err(e),
        Ok(v) => v,
    };
    read_kern_lookups(d, &lks, &idxs)
}

/// Reads the kerning pairs of the glyph positioning table at `g` into a map, as `gpos_map`
/// says.
pub fn read_gpos_map(d: &[u8], g: u32) -> (r: Result<HashMap<u32, i16>, TtfError>)
    ensures
        match gpos_map(d@, g as nat) {
            Ok(m) => r matches Ok(h) && h@ == m,
            Err(e) => r matches Err(re) && re == e,
        },
{
    let mut m: HashMap<u32, i16> = HashMap::new();
    if g == 0 {
        return Ok(m);
    }
    let pairs = match read_gpos_pairs(d, g) {
        Err(e) => return Err(e),
        Ok(v) => v,
    };
    let mut i: usize = 0;
    assert(pairs@.take(0) =~= Seq::<(u32, i16)>::empty());
    while i < pairs.len()
        invariant
            i <= pairs@.len(),
            m@ == pairs_map(pairs@.take(i as int)),
        decreases pairs@.len() - i,
    {
        let (k, v) = pairs[i];
        m.insert(k, v);
        assert(pairs@.take(i + 1).drop_last() =~= pairs@.take(i as int));
        i = i + 1;
    }
    assert(pairs@.take(i as int) =~= pairs@);
    Ok(m)
}

/// The value of a pair by classes comes from the record table read row by row: Class1Record
/// `k1` is the `k1`-th run of `c2` records, and the pair of a first glyph of class `k1` and a
/// second glyph of class `k2` takes its `k2`-th record, the sum of the two x advances, kept where
/// it is not 0; a glyph of a class past the counts makes no pair.
pub proof fn lemma_class_pair_row_major(
    cd1: Map<u16, u16>,
    cd2: Map<u16, u16>,
    c1: nat,
    c2: nat,
    recs: Seq<(i16, i16)>,
    g1: u16,
    g2: u16,
    acc: Seq<(u32, i16)>,
)
    requires
        recs.len() == c1 * c2,
    ensures
        ({
            let k1 = class_of(cd1, g1) as int;
            let k2 = class_of(cd2, g2) as int;
            &&& (k1 >= c1 || k2 >= c2) ==> class_pair(cd1, cd2, c1, c2, recs, g1, g2, acc) == Ok::<
                Seq<(u32, i16)>,
                TtfError,
            >(acc)
            &&& (k1 < c1 && k2 < c2) ==> {
                let row = recs.subrange(k1 * c2, k1 * c2 + c2);
                let v = row[k2].0 + row[k2].1;
                &&& row.len() == c2
                &&& class_pair(cd1, cd2, c1, c2, recs, g1, g2, acc) == if v < i16::MIN || v > i16::MAX {
                    Err::<Seq<(u32, i16)>, TtfError>(TtfError::Overflow)
                } else if v != 0 {
                    Ok::<Seq<(u32, i16)>, TtfError>(acc.push((pair_key(g1 as nat, g2 as nat), v as i16)))
                } else {
                    Ok::<Seq<(u32, i16)>, TtfError>(acc)
                }
            }
        }),
{
    let k1 = class_of(cd1, g1) as int;
    let k2 = class_of(cd2, g2) as int;
    if k1 < c1 && k2 < c2 {
        assert(k1 * c2 + c2 <= c1 * c2) by (nonlinear_arith)
            requires
                0 <= k1 < c1,
                c2 >= 0,
        ;
        assert(k1 * c2 >= 0) by (nonlinear_arith)
            requires
                k1 >= 0,
                c2 >= 0,
        ;
        let row = recs.subrange(k1 * c2, k1 * c2 + c2);
        assert(row[k2] == recs[k1 * c2 + k2]);
    }
}

proof fn lemma_low_bits(f: u16)
    by (bit_vector)
    ensures
        (f >> 0u16) & 1 == f % 2,
        (f >> 1u16) & 1 == (f / 2) % 2,
        (f >> 2u16) & 1 == (f / 4) % 2,
        (f >> 3u16) & 1 == (f / 8) % 2,
{
}

/// A value record holds a big-endian 16-bit value for each of the low four bits set in its format
/// (x placement, y placement, x advance, y advance, in that order): its size is two bytes per
/// set bit, and its x advance, where bit 2 is set, is the signed value after the x and y
/// placements that the format holds; without bit 2 the x advance is 0.
pub proof fn lemma_value_record_layout(d: Seq<u8>, p: nat, fmt: u16)
    requires
        fmt <= 0xF,
    ensures
        val_size(fmt) == 2 * (fmt % 2 + (fmt / 2) % 2 + (fmt / 4) % 2 + (fmt / 8) % 2),
        p + val_size(fmt) > d.len() ==> val_record(d, p, fmt) == Err::<i16, TtfError>(TtfError::Truncated),
        p + val_size(fmt) <= d.len() && (fmt / 4) % 2 == 0 ==> val_record(d, p, fmt) == Ok::<i16, TtfError>(0),
        p + val_size(fmt) <= d.len() && (fmt / 4) % 2 == 1 ==> {
            let o = (p + 2 * (fmt % 2 + (fmt / 2) % 2)) as int;
            val_record(d, p, fmt) == Ok::<i16, TtfError>(((d[o] as nat * 256 + d[o + 1] as nat) as u16) as i16)
        },
{
    lemma_low_bits(fmt);
    if p + val_size(fmt) <= d.len() && (fmt / 4) % 2 == 1 {
        let o = (p + 2 * (fmt % 2 + (fmt / 2) % 2)) as int;
        crate::util::bytes::lemma_be_value_2(d.subrange(o, o + 2));
    }
}

/// A format 1 pair value record is the big-endian second glyph followed by the two value
/// records: the pair of `g1` with that glyph, keyed `g1 << 16 | second`, takes the sum of the
/// two x advances, kept where it is not 0, and the next record follows right after.
pub proof fn lemma_pair_value_record(
    d: Seq<u8>,
    q: nat,
    n: nat,
    g1: u16,
    vf1: u16,
    vf2: u16,
    acc: Seq<(u32, i16)>,
)
    requires
        n > 0,
        q + 2 <= d.len(),
    ensures
        ({
            let second = d[q as int] as nat * 256 + d[q as int + 1] as nat;
            let s1 = val_size(vf1);
            let s2 = val_size(vf2);
            pair_values(d, q, n, g1, vf1, vf2, acc) == match val_record(d, q + 2, vf1) {
                Err(e) => Err(e),
                Ok(a1) => match val_record(d, q + 2 + s1, vf2) {
                    Err(e) => Err(e),
                    Ok(a2) => {
                        let k = a1 + a2;
                        if k < i16::MIN || k > i16::MAX {
                            Err(TtfError::Overflow)
                        } else {
                            pair_values(
                                d,
                                q + 2 + s1 + s2,
                                (n - 1) as nat,
                                g1,
                                vf1,
                                vf2,
                                if k != 0 {
                                    acc.push(((g1 as nat * 0x1_0000 + second) as u32, k as i16))
                                } else {
                                    acc
                                },
                            )
                        }
                    },
                },
            }
        }),
{
    crate::util::bytes::lemma_be_value_2(d.subrange(q as int, q as int + 2));
}

proof fn lemma_be16_at(d: Seq<u8>, i: int)
    requires
        0 <= i,
        i + 2 <= d.len(),
    ensures
        be16(d, i) == d[i] as nat * 256 + d[i + 1] as nat,
{
    crate::util::bytes::lemma_be_value_2(d.subrange(i, i + 2));
}

/// A coverage table starts with its big-endian format and count. Format 1 lists the glyphs
/// themselves, glyph `i` the big-endian 16-bit value `2 * i` bytes after those four bytes; format
/// 2 lists 6-byte range records, each adding its glyphs from its start through its end
/// inclusive, in order.
pub proof fn lemma_coverage_layout(d: Seq<u8>, p: nat, k: nat)
    requires
        p + 4 <= d.len(),
    ensures
        ({
            let q = p as int;
            let fmt = d[q] as nat * 256 + d[q + 1] as nat;
            let c = d[q + 2] as nat * 256 + d[q + 3] as nat;
            &&& fmt == 1 && p + 4 + 2 * c <= d.len() ==> coverage(d, p) is Ok && coverage(d, p)->Ok_0.len() == c
                && forall|i: int|
                0 <= i < c ==> #[trigger] coverage(d, p)->Ok_0[i] == (d[q + 4 + 2 * i] as nat * 256 + d[q + 5 + 2
                    * i] as nat) as u16
            &&& fmt == 2 && p + 4 + 6 * c <= d.len() ==> coverage(d, p) == Ok::<Seq<u16>, TtfError>(
                cov_ranges(d, p + 4, c),
            )
            &&& fmt != 1 && fmt != 2 ==> coverage(d, p) == Err::<Seq<u16>, TtfError>(TtfError::BadGposFormat)
        }),
        ({
            let r = (p + 4 + 6 * k) as int;
            let s = d[r] as nat * 256 + d[r + 1] as nat;
            let e = d[r + 2] as nat * 256 + d[r + 3] as nat;
            let more = cov_ranges(d, p + 4, k + 1);
            let before = cov_ranges(d, p + 4, k);
            r + 4 <= d.len() ==> {
                &&& more.len() == before.len() + (if e >= s { e - s + 1 } else { 0int })
                &&& forall|j: int| 0 <= j < before.len() ==> #[trigger] more[j] == before[j]
                &&& forall|j: int|
                    before.len() <= j < more.len() ==> #[trigger] more[j] == (s + (j - before.len())) as u16
            }
        }),
{
    let q = p as int;
    lemma_be16_at(d, q);
    lemma_be16_at(d, q + 2);
    let c = d[q + 2] as nat * 256 + d[q + 3] as nat;
    let fmt = d[q] as nat * 256 + d[q + 1] as nat;
    if fmt == 1 && p + 4 + 2 * c <= d.len() {
        assert forall|i: int| 0 <= i < c implies #[trigger] coverage(d, p)->Ok_0[i] == (d[q + 4 + 2 * i] as nat
            * 256 + d[q + 5 + 2 * i] as nat) as u16 by {
            lemma_be16_at(d, q + 4 + 2 * i);
        }
    }
    let r = (p + 4 + 6 * k) as int;
    if r + 4 <= d.len() {
        lemma_be16_at(d, r);
        lemma_be16_at(d, r + 2);
    }
}

/// A class definition table starts with its big-endian format. Format 1 gives the glyphs from
/// its start glyph on, one after another, the big-endian 16-bit classes that follow its start
/// and count, glyph `start + i` the one `2 * i` bytes in, and no class to any other glyph; format
/// 2 reads 6-byte range records (start, end, class), each giving its class to the glyphs from
/// its start through its end inclusive, a later record over an earlier one.
pub proof fn lemma_class_def_layout(d: Seq<u8>, p: nat, k: nat, g: u16)
    requires
        p + 6 <= d.len(),
    ensures
        ({
            let q = p as int;
            let fmt = d[q] as nat * 256 + d[q + 1] as nat;
            let s = d[q + 2] as nat * 256 + d[q + 3] as nat;
            let c = d[q + 4] as nat * 256 + d[q + 5] as nat;
            fmt == 1 && s + c <= 0x1_0000 && p + 6 + 2 * c <= d.len() ==> {
                &&& class_def(d, p) is Ok
                &&& (s <= g < s + c) ==> class_of(class_def(d, p)->Ok_0, g) == (d[q + 6 + 2 * (g - s)] as nat * 256
                    + d[q + 7 + 2 * (g - s)] as nat) as u16
                &&& !(s <= g < s + c) ==> class_of(class_def(d, p)->Ok_0, g) == 0
            }
        }),
        ({
            let r = (p + 4 + 6 * k) as int;
            let s = d[r] as nat * 256 + d[r + 1] as nat;
            let e = d[r + 2] as nat * 256 + d[r + 3] as nat;
            let c = d[r + 4] as nat * 256 + d[r + 5] as nat;
            r + 6 <= d.len() ==> {
                &&& (s <= g <= e) ==> class_of(class_ranges(d, p + 4, k + 1), g) == c as u16
                &&& !(s <= g <= e) ==> class_of(class_ranges(d, p + 4, k + 1), g) == class_of(
                    class_ranges(d, p + 4, k),
                    g,
                )
            }
        }),
{
    let q = p as int;
    lemma_be16_at(d, q);
    lemma_be16_at(d, q + 2);
    lemma_be16_at(d, q + 4);
    let s = d[q + 2] as nat * 256 + d[q + 3] as nat;
    let c = d[q + 4] as nat * 256 + d[q + 5] as nat;
    if s <= g < s + c && p + 6 + 2 * c <= d.len() {
        lemma_be16_at(d, q + 6 + 2 * (g - s));
    }
    let r = (p + 4 + 6 * k) as int;
    if r + 6 <= d.len() {
        lemma_be16_at(d, r);
        lemma_be16_at(d, r + 2);
        lemma_be16_at(d, r + 4);
    }
}

/// The value record pairs of a class pair table lie one after another, each the first glyph's
/// record then the second's: pair `j` of the `n` from `q` on is read at `q + j * (s1 + s2)` and
/// `q + j * (s1 + s2) + s1`, `s1` and `s2` the sizes of the two value formats, and the pairs
/// come after `acc` in that order.
pub proof fn lemma_val_pairs_layout(d: Seq<u8>, q: nat, n: nat, vf1: u16, vf2: u16, acc: Seq<(i16, i16)>)
    requires
        val_pairs(d, q, n, vf1, vf2, acc) is Ok,
    ensures
        ({
            let r = val_pairs(d, q, n, vf1, vf2, acc)->Ok_0;
            let sz = val_size(vf1) + val_size(vf2);
            &&& r.len() == acc.len() + n
            &&& forall|j: int| 0 <= j < acc.len() ==> #[trigger] r[j] == acc[j]
            &&& forall|j: int|
                0 <= j < n ==> #[trigger] r[acc.len() + j] == (
                    val_record(d, (q + j * sz) as nat, vf1)->Ok_0,
                    val_record(d, (q + j * sz + val_size(vf1)) as nat, vf2)->Ok_0,
                ) && val_record(d, (q + j * sz) as nat, vf1) is Ok && val_record(
                    d,
                    (q + j * sz + val_size(vf1)) as nat,
                    vf2,
                ) is Ok
        }),
    decreases n,
{
    if n > 0 {
        let s1 = val_size(vf1);
        let sz = val_size(vf1) + val_size(vf2);
        let a1 = val_record(d, q, vf1)->Ok_0;
        let a2 = val_record(d, q + s1, vf2)->Ok_0;
        let acc2 = acc.push((a1, a2));
        lemma_val_pairs_layout(d, q + sz, (n - 1) as nat, vf1, vf2, acc2);
        let r = val_pairs(d, q, n, vf1, vf2, acc)->Ok_0;
        assert forall|j: int| 0 <= j < n implies #[trigger] r[acc.len() + j] == (
            val_record(d, (q + j * sz) as nat, vf1)->Ok_0,
            val_record(d, (q + j * sz + val_size(vf1)) as nat, vf2)->Ok_0,
        ) && val_record(d, (q + j * sz) as nat, vf1) is Ok && val_record(
            d,
            (q + j * sz + val_size(vf1)) as nat,
            vf2,
        ) is Ok by {
            if j == 0 {
                assert(q + j * sz == q) by (nonlinear_arith)
                    requires
                        j == 0,
                ;
                assert(r[acc.len() + j] == acc2[acc.len() as int]);
            } else {
                assert(q + sz + (j - 1) * sz == q + j * sz) by (nonlinear_arith);
                assert(r[acc.len() + j] == r[acc2.len() + (j - 1)]);
            }
        }
        assert forall|j: int| 0 <= j < acc.len() implies #[trigger] r[j] == acc[j] by {
            assert(r[j] == acc2[j]);
        }
    }
}

/// A pair adjustment subtable starts with its big-endian format, the offset of its coverage
/// table and its two value formats. Format 1 then holds the pair set count, one pair set per
/// covered glyph, and the pair set offsets: the pairs of the `k`-th covered glyph come from the
/// pair set at the subtable plus the `k`-th offset, `2 * k` bytes past the count, which holds
/// its pair value record count and then the records. Format 2 then holds the offsets of the
/// class definitions of the first and of the second glyphs, the two class counts, and the value
/// record pairs.
pub proof fn lemma_pair_adj_layout(d: Seq<u8>, idx: nat, k: nat)
    requires
        pair_adj(d, idx) is Ok,
    ensures
        ({
            let q = idx as int;
            let fmt = d[q] as nat * 256 + d[q + 1] as nat;
            let cov = idx + (d[q + 2] as nat * 256 + d[q + 3] as nat);
            let vf1 = (d[q + 4] as nat * 256 + d[q + 5] as nat) as u16;
            let vf2 = (d[q + 6] as nat * 256 + d[q + 7] as nat) as u16;
            let first = coverage(d, cov)->Ok_0;
            &&& idx + 8 <= d.len()
            &&& coverage(d, cov) is Ok
            &&& fmt == 1 || fmt == 2
            &&& fmt == 1 ==> {
                &&& idx + 10 + 2 * first.len() <= d.len()
                &&& d[q + 8] as nat * 256 + d[q + 9] as nat == first.len()
                &&& pair_adj(d, idx) == pair_sets(d, idx, first, vf1, vf2, first.len())
                &&& k < first.len() ==> {
                    let ps = idx + (d[q + 10 + 2 * k] as nat * 256 + d[q + 11 + 2 * k] as nat);
                    pair_sets(d, idx, first, vf1, vf2, k + 1) == match pair_sets(d, idx, first, vf1, vf2, k) {
                        Err(e) => Err(e),
                        Ok(acc) => if ps + 2 > d.len() {
                            Err(TtfError::Truncated)
                        } else {
                            pair_values(
                                d,
                                ps + 2,
                                d[ps as int] as nat * 256 + d[ps as int + 1] as nat,
                                first[k as int],
                                vf1,
                                vf2,
                                acc,
                            )
                        },
                    }
                }
            }
            &&& fmt == 2 ==> {
                let cd1 = class_def(d, idx + (d[q + 8] as nat * 256 + d[q + 9] as nat));
                let cd2 = class_def(d, idx + (d[q + 10] as nat * 256 + d[q + 11] as nat));
                let c1 = d[q + 12] as nat * 256 + d[q + 13] as nat;
                let c2 = d[q + 14] as nat * 256 + d[q + 15] as nat;
                let recs = val_pairs(d, idx + 16, c1 * c2, vf1, vf2, Seq::empty());
                &&& idx + 16 <= d.len()
                &&& cd1 is Ok && cd2 is Ok && recs is Ok
                &&& pair_adj(d, idx) == class_pairs(
                    cd1->Ok_0,
                    cd2->Ok_0,
                    c1,
                    c2,
                    recs->Ok_0,
                    first,
                    (cd2->Ok_0.len() as u16) as nat,
                    first.len(),
                )
            }
        }),
{
    reveal(pair_adj);
    let q = idx as int;
    lemma_be16_at(d, q);
    lemma_be16_at(d, q + 2);
    lemma_be16_at(d, q + 4);
    lemma_be16_at(d, q + 6);
    if idx + 10 <= d.len() {
        lemma_be16_at(d, q + 8);
    }
    if idx + 12 <= d.len() {
        lemma_be16_at(d, q + 10);
    }
    if idx + 16 <= d.len() {
        lemma_be16_at(d, q + 12);
        lemma_be16_at(d, q + 14);
    }
    let fmt = d[q] as nat * 256 + d[q + 1] as nat;
    let cov = idx + (d[q + 2] as nat * 256 + d[q + 3] as nat);
    let first = coverage(d, cov)->Ok_0;
    if fmt == 1 && k < first.len() {
        lemma_be16_at(d, q + 10 + 2 * k);
        let ps = idx + (d[q + 10 + 2 * k] as nat * 256 + d[q + 11 + 2 * k] as nat);
        if ps + 2 <= d.len() {
            lemma_be16_at(d, ps as int);
        }
    }
}

} // verus!
