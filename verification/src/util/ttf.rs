use std::collections::HashMap;
use vstd::prelude::*;
use crate::util::bytes::{be_value, lemma_be_value_2, lemma_be_value_4};
use crate::util::gpos::{gpos_map, read_gpos_map};

verus! {

broadcast use vstd::std_specs::hash::group_hash_axioms;

/// Why a TrueType font was refused.
#[derive(Debug, Clone, Copy, PartialEq, Eq, Structural)]
pub enum TtfError {
    /// A table or record runs past the end of the font.
    Truncated,
    /// A count, offset or coordinate does not fit in its integer type.
    Overflow,
    /// The font holds no glyphs.
    NoGlyphs,
    /// The horizontal or vertical metrics table has no entries for a font that has glyphs.
    NoMetrics,
    /// A character map names a platform other than Unicode, Macintosh, ISO or Microsoft.
    BadPlatform,
    /// No character map of a supported encoding.
    NoCharMap,
    /// The chosen character map is neither format 4 nor format 12.
    BadCharMapFormat,
    /// A character map maps a code that is no Unicode scalar value.
    BadChar,
    /// A glyph index lies past the last glyph.
    BadGlyphIndex,
    /// A glyph's point flags repeat past its last point.
    BadFlags,
    /// A composite glyph places its parts by point numbers.
    PointMatching,
    /// A transformed point of a composite glyph leaves the `i16` range.
    PointRange,
    /// The kerning table is not version 0.
    BadKernVersion,
    /// The kerning table holds no subtables.
    NoKernTables,
    /// A kerning subtable of format 2.
    KernFormat2,
    /// Composite glyphs nest deeper than `MAX_GLYPH_DEPTH`.
    TooDeep,
    /// A coverage, class definition, pair adjustment, extension or value record format of the
    /// glyph positioning table that the reader does not know.
    BadGposFormat,
    /// A pair adjustment has another number of pair sets than its coverage has glyphs.
    PairSetMismatch,
    /// A kerning feature names a lookup past the last.
    BadLookupIndex,
}

/// The 16-bit big-endian value at `i`.
pub open spec fn be16(d: Seq<u8>, i: int) -> nat {
    be_value(d.subrange(i, i + 2))
}

/// The 32-bit big-endian value at `i`.
pub open spec fn be32(d: Seq<u8>, i: int) -> nat {
    be_value(d.subrange(i, i + 4))
}

/// The 16-bit big-endian value at `i`, signed.
pub open spec fn bei16(d: Seq<u8>, i: int) -> i16 {
    be16(d, i) as u16 as i16
}

/// Reads the 16-bit big-endian value at `i`.
pub fn read_be16(d: &[u8], i: usize) -> (r: u16)
    requires
        i + 2 <= d@.len(),
    ensures
        r == be16(d@, i as int),
{
    proof {
        lemma_be_value_2(d@.subrange(i as int, i + 2));
    }
    (d[i] as u16) * 0x100 + d[i + 1] as u16
}

/// Reads the 32-bit big-endian value at `i`.
pub fn read_be32(d: &[u8], i: usize) -> (r: u32)
    requires
        i + 4 <= d@.len(),
    ensures
        r == be32(d@, i as int),
{
    proof {
        lemma_be_value_4(d@.subrange(i as int, i + 4));
    }
    (d[i] as u32) * 0x100_0000 + (d[i + 1] as u32) * 0x1_0000 + (d[i + 2] as u32) * 0x100 + d[i
        + 3] as u32
}

/// Where the tables that the font reader uses start; 0 for a table that is absent.
#[derive(Debug, Clone, Copy, PartialEq, Eq, Structural)]
pub struct TableOffs {
    pub maxp: u32,
    pub head: u32,
    pub loca: u32,
    pub glyf: u32,
    pub cmap: u32,
    pub hhea: u32,
    pub hmtx: u32,
    pub vhea: u32,
    pub vmtx: u32,
    pub kern: u32,
    pub gpos: u32,
}

pub const TAG_LOCA: u32 = 0x6C6F_6361;

pub const TAG_MAXP: u32 = 0x6D61_7870;

pub const TAG_HEAD: u32 = 0x6865_6164;

pub const TAG_GLYF: u32 = 0x676C_7966;

pub const TAG_CMAP: u32 = 0x636D_6170;

pub const TAG_HHEA: u32 = 0x6868_6561;

pub const TAG_HMTX: u32 = 0x686D_7478;

pub const TAG_VHEA: u32 = 0x7668_6561;

pub const TAG_VMTX: u32 = 0x766D_7478;

pub const TAG_KERN: u32 = 0x6B65_726E;

pub const TAG_GPOS: u32 = 0x4750_4F53;

/// No table found yet.
pub open spec fn no_tables() -> TableOffs {
    TableOffs {
        maxp: 0,
        head: 0,
        loca: 0,
        glyf: 0,
        cmap: 0,
        hhea: 0,
        hmtx: 0,
        vhea: 0,
        vmtx: 0,
        kern: 0,
        gpos: 0,
    }
}

/// `t` with the table tagged `tag` found at `off`; unknown tags change nothing.
pub open spec fn with_table(t: TableOffs, tag: nat, off: u32) -> TableOffs {
    if tag == TAG_LOCA {
        TableOffs { loca: off, ..t }
    } else if tag == TAG_MAXP {
        TableOffs { maxp: off, ..t }
    } else if tag == TAG_HEAD {
        TableOffs { head: off, ..t }
    } else if tag == TAG_GLYF {
        TableOffs { glyf: off, ..t }
    } else if tag == TAG_CMAP {
        TableOffs { cmap: off, ..t }
    } else if tag == TAG_HHEA {
        TableOffs { hhea: off, ..t }
    } else if tag == TAG_HMTX {
        TableOffs { hmtx: off, ..t }
    } else if tag == TAG_VHEA {
        TableOffs { vhea: off, ..t }
    } else if tag == TAG_VMTX {
        TableOffs { vmtx: off, ..t }
    } else if tag == TAG_KERN {
        TableOffs { kern: off, ..t }
    } else if tag == TAG_GPOS {
        TableOffs { gpos: off, ..t }
    } else {
        t
    }
}

/// The tables found in the first `k` entries of the table directory; a later entry of the same
/// tag wins.
pub open spec fn table_dir(d: Seq<u8>, k: nat) -> TableOffs
    decreases k,
{
    if k == 0 {
        no_tables()
    } else {
        let e = 12 + 16 * (k - 1);
        with_table(table_dir(d, (k - 1) as nat), be32(d, e), be32(d, e + 8) as u32)
    }
}

/// What reading the table directory gives.
pub open spec fn ttf_tables(d: Seq<u8>) -> Result<TableOffs, TtfError> {
    if d.len() < 6 {
        Err(TtfError::Truncated)
    } else if be16(d, 4) > 0 && 12 + 16 * be16(d, 4) > d.len() {
        Err(TtfError::Truncated)
    } else {
        Ok(table_dir(d, be16(d, 4)))
    }
}

/// Reads the table directory, as `ttf_tables` says.
pub fn read_table_offs(d: &[u8]) -> (r: Result<TableOffs, TtfError>)
    ensures
        r == ttf_tables(d@),
{
    let n = d.len();
    if n < 6 {
        return Err(TtfError::Truncated);
    }
    let nt = read_be16(d, 4);
    if nt > 0 && (n as u64) < 12 + 16 * nt as u64 {
        return Err(TtfError::Truncated);
    }
    let mut t = TableOffs {
        maxp: 0,
        head: 0,
        loca: 0,
        glyf: 0,
        cmap: 0,
        hhea: 0,
        hmtx: 0,
        vhea: 0,
        vmtx: 0,
        kern: 0,
        gpos: 0,
    };
    let mut k: u16 = 0;
    while k < nt
        invariant
            k <= nt,
            n == d@.len(),
            nt == be16(d@, 4),
            nt > 0 ==> 12 + 16 * nt <= n,
            t == table_dir(d@, k as nat),
        decreases nt - k,
    {
        let e = 12 + 16 * k as usize;
        let tag = read_be32(d, e);
        let off = read_be32(d, e + 8);
        if tag == TAG_LOCA {
            t.loca = off;
        } else if tag == TAG_MAXP {
            t.maxp = off;
        } else if tag == TAG_HEAD {
            t.head = off;
        } else if tag == TAG_GLYF {
            t.glyf = off;
        } else if tag == TAG_CMAP {
            t.cmap = off;
        } else if tag == TAG_HHEA {
            t.hhea = off;
        } else if tag == TAG_HMTX {
            t.hmtx = off;
        } else if tag == TAG_VHEA {
            t.vhea = off;
        } else if tag == TAG_VMTX {
            t.vmtx = off;
        } else if tag == TAG_KERN {
            t.kern = off;
        } else if tag == TAG_GPOS {
            t.gpos = off;
        }
        k = k + 1;
    }
    Ok(t)
}

/// What the `maxp` and `head` tables give.
#[derive(Debug, Clone, Copy, PartialEq, Eq, Structural)]
pub struct Head {
    pub num_glyphs: u16,
    pub em_units: u16,
    pub glob_xmin: i16,
    pub glob_ymin: i16,
    pub glob_xmax: i16,
    pub glob_ymax: i16,
    pub lowest_rec_ppem: u16,
    /// The size of a glyph location: 2 or 4 bytes.
    pub loc_bytes: u16,
}

/// What reading the glyph count and the `head` table gives.
pub open spec fn ttf_head(d: Seq<u8>, t: TableOffs) -> Result<Head, TtfError> {
    if t.maxp + 6 > d.len() {
        Err(TtfError::Truncated)
    } else if t.head + 52 > d.len() {
        Err(TtfError::Truncated)
    } else {
        let h = t.head as int;
        Ok(
            Head {
                num_glyphs: be16(d, t.maxp + 4) as u16,
                em_units: be16(d, h + 18) as u16,
                glob_xmin: bei16(d, h + 36),
                glob_ymin: bei16(d, h + 38),
                glob_xmax: bei16(d, h + 40),
                glob_ymax: bei16(d, h + 42),
                lowest_rec_ppem: be16(d, h + 46) as u16,
                loc_bytes: if be16(d, h + 50) == 0 { 2 } else { 4 },
            },
        )
    }
}

/// Reads the glyph count and the `head` table, as `ttf_head` says.
pub fn read_head(d: &[u8], t: &TableOffs) -> (r: Result<Head, TtfError>)
    ensures
        r == ttf_head(d@, *t),
{
    let n = d.len() as u64;
    if t.maxp as u64 + 6 > n {
        return Err(TtfError::Truncated);
    }
    if t.head as u64 + 52 > n {
        return Err(TtfError::Truncated);
    }
    let m = t.maxp as usize;
    let h = t.head as usize;
    Ok(
        Head {
            num_glyphs: read_be16(d, m + 4),
            em_units: read_be16(d, h + 18),
            glob_xmin: read_be16(d, h + 36) as i16,
            glob_ymin: read_be16(d, h + 38) as i16,
            glob_xmax: read_be16(d, h + 40) as i16,
            glob_ymax: read_be16(d, h + 42) as i16,
            lowest_rec_ppem: read_be16(d, h + 46),
            loc_bytes: if read_be16(d, h + 50) == 0 { 2 } else { 4 },
        },
    )
}

impl Head {
    /// The width of the box that holds every glyph.
    pub fn max_width(&self) -> (r: u16)
        requires
            i16::MIN <= self.glob_xmax - self.glob_xmin <= i16::MAX,
        ensures
            r == (self.glob_xmax - self.glob_xmin) as i16 as u16,
    {
        (self.glob_xmax - self.glob_xmin) as u16
    }

    /// The height of the box that holds every glyph.
    pub fn max_height(&self) -> (r: u16)
        requires
            i16::MIN <= self.glob_ymax - self.glob_ymin <= i16::MAX,
        ensures
            r == (self.glob_ymax - self.glob_ymin) as i16 as u16,
    {
        (self.glob_ymax - self.glob_ymin) as u16
    }
}

/// The start of glyph `k` in the font: the `glyf` table's start plus its `loca` entry, doubled
/// for 2-byte entries.
pub open spec fn glyph_loc(d: Seq<u8>, t: TableOffs, loc_bytes: u16, k: nat) -> nat {
    (t.glyf + if loc_bytes == 2 {
        be16(d, t.loca + 2 * k) * 2
    } else {
        be32(d, t.loca + 4 * k)
    }) as nat
}

/// The first `k` glyph starts, or the first fault in reading them.
pub open spec fn glyph_locs(d: Seq<u8>, t: TableOffs, loc_bytes: u16, k: nat) -> Result<Seq<u32>, TtfError>
    decreases k,
{
    if k == 0 {
        Ok(Seq::empty())
    } else {
        match glyph_locs(d, t, loc_bytes, (k - 1) as nat) {
            Err(e) => Err(e),
            Ok(s) => {
                let j = (k - 1) as nat;
                if t.loca + (if loc_bytes == 2 { 2 * j + 2 } else { 4 * j + 4 }) > d.len() {
                    Err(TtfError::Truncated)
                } else if glyph_loc(d, t, loc_bytes, j) > u32::MAX {
                    Err(TtfError::Overflow)
                } else {
                    Ok(s.push(glyph_loc(d, t, loc_bytes, j) as u32))
                }
            },
        }
    }
}

proof fn lemma_locs_err_stays(d: Seq<u8>, t: TableOffs, loc_bytes: u16, j: nat, m: nat)
    requires
        j <= m,
        glyph_locs(d, t, loc_bytes, j) is Err,
    ensures
        glyph_locs(d, t, loc_bytes, m) == glyph_locs(d, t, loc_bytes, j),
    decreases m - j,
{
    if j < m {
        lemma_locs_err_stays(d, t, loc_bytes, j, (m - 1) as nat);
    }
}

/// What reading the glyph locations gives: one start per glyph and one past the last.
pub open spec fn ttf_glyph_offs(d: Seq<u8>, t: TableOffs, h: Head) -> Result<Seq<u32>, TtfError> {
    if h.num_glyphs == u16::MAX {
        Err(TtfError::Overflow)
    } else {
        glyph_locs(d, t, h.loc_bytes, (h.num_glyphs + 1) as nat)
    }
}

/// Reads the glyph locations, as `ttf_glyph_offs` says.
pub fn read_glyph_offs(d: &[u8], t: &TableOffs, h: &Head) -> (r: Result<Vec<u32>, TtfError>)
    ensures
        match ttf_glyph_offs(d@, *t, *h) {
            Ok(s) => r matches Ok(v) && v@ == s,
            Err(e) => r matches Err(re) && re == e,
        },
        r matches Ok(v) ==> v@.len() == h.num_glyphs + 1,
{
    if h.num_glyphs == u16::MAX {
        return Err(TtfError::Overflow);
    }
    let count = h.num_glyphs + 1;
    let n = d.len() as u64;
    let mut out: Vec<u32> = Vec::new();
    let mut k: u16 = 0;
    while k < count
        invariant
            k <= count,
            count == h.num_glyphs + 1,
            n == d@.len(),
            n <= usize::MAX,
            glyph_locs(d@, *t, h.loc_bytes, k as nat) == Ok::<Seq<u32>, TtfError>(out@),
            out@.len() == k,
        decreases count - k,
    {
        let v: u64 = if h.loc_bytes == 2 {
            if t.loca as u64 + 2 * k as u64 + 2 > n {
                proof {
                    lemma_locs_err_stays(d@, *t, h.loc_bytes, (k + 1) as nat, count as nat);
                }
                return Err(TtfError::Truncated);
            }
            read_be16(d, t.loca as usize + 2 * k as usize) as u64 * 2
        } else {
            if t.loca as u64 + 4 * k as u64 + 4 > n {
                proof {
                    lemma_locs_err_stays(d@, *t, h.loc_bytes, (k + 1) as nat, count as nat);
                }
                return Err(TtfError::Truncated);
            }
            read_be32(d, t.loca as usize + 4 * k as usize) as u64
        };
        let off = t.glyf as u64 + v;
        if off > u32::MAX as u64 {
            proof {
                lemma_locs_err_stays(d@, *t, h.loc_bytes, (k + 1) as nat, count as nat);
            }
            return Err(TtfError::Overflow);
        }
        out.push(off as u32);
        k = k + 1;
    }
    Ok(out)
}

/// The `n` pairs of signed 16-bit values from `at` on.
pub open spec fn metric_pairs(d: Seq<u8>, at: int, n: nat) -> Seq<(i16, i16)> {
    Seq::new(n, |k: int| (bei16(d, at + 4 * k), bei16(d, at + 4 * k + 2)))
}

/// `m` with every entry from `keep` on replaced by the one before it.
pub open spec fn fill_from(m: Seq<(i16, i16)>, keep: nat) -> Seq<(i16, i16)> {
    Seq::new(m.len(), |i: int| if i >= keep { m[keep - 1] } else { m[i] })
}

/// Ascent, descent, line gap (0 for vertical metrics) and a `(advance, bearing)` pair per glyph.
pub type Metrics = (i16, i16, i16, Seq<(i16, i16)>);

/// What reading horizontal (`vertical` false) or vertical metrics gives for `ng` glyphs, from
/// the header table at `hdr` and the metrics table at `mtx`. Glyphs past the last entry take
/// the last entry's values.
pub open spec fn ttf_metrics(d: Seq<u8>, hdr: u32, mtx: u32, ng: nat, vertical: bool) -> Result<
    Metrics,
    TtfError,
> {
    let count_at = if vertical { hdr + 34 } else { hdr + 37 };
    if count_at + 2 > d.len() {
        Err(TtfError::Truncated)
    } else if mtx + 4 * ng > d.len() {
        Err(TtfError::Truncated)
    } else {
        let keep = be16(d, count_at);
        let m = metric_pairs(d, mtx as int, ng);
        if keep < ng && keep == 0 {
            Err(TtfError::NoMetrics)
        } else {
            Ok(
                (
                    bei16(d, hdr + 4),
                    bei16(d, hdr + 6),
                    if vertical { 0 } else { bei16(d, hdr + 8) },
                    if keep < ng { fill_from(m, keep) } else { m },
                ),
            )
        }
    }
}

/// Reads horizontal or vertical metrics, as `ttf_metrics` says.
pub fn read_metrics(d: &[u8], hdr: u32, mtx: u32, ng: usize, vertical: bool) -> (r: Result<
    (i16, i16, i16, Vec<(i16, i16)>),
    TtfError,
>)
    requires
        ng <= 0x1_0000,
    ensures
        match ttf_metrics(d@, hdr, mtx, ng as nat, vertical) {
            Ok((a, b, c, m)) => r matches Ok((ra, rb, rc, rm)) && ra == a && rb == b && rc == c
                && rm@ == m,
            Err(e) => r matches Err(re) && re == e,
        },
{
    let n = d.len() as u64;
    let count_at: u64 = if vertical { hdr as u64 + 34 } else { hdr as u64 + 37 };
    if count_at + 2 > n {
        return Err(TtfError::Truncated);
    }
    if mtx as u64 + 4 * (ng as u64) > n {
        return Err(TtfError::Truncated);
    }
    let keep = read_be16(d, count_at as usize) as usize;
    let mut m: Vec<(i16, i16)> = Vec::new();
    let mut k: usize = 0;
    while k < ng
        invariant
            k <= ng,
            ng <= 0x1_0000,
            n == d@.len(),
            n <= usize::MAX,
            mtx + 4 * ng <= n,
            m@ == metric_pairs(d@, mtx as int, k as nat),
        decreases ng - k,
    {
        let at = mtx as usize + 4 * k;
        let a = read_be16(d, at) as i16;
        let b = read_be16(d, at + 2) as i16;
        m.push((a, b));
        k = k + 1;
        assert(m@ =~= metric_pairs(d@, mtx as int, k as nat));
    }
    if keep < ng {
        if keep == 0 {
            return Err(TtfError::NoMetrics);
        }
        let last = m[keep - 1];
        let mut i: usize = keep;
        while i < ng
            invariant
                0 < keep <= i <= ng,
                m@.len() == ng,
                last == metric_pairs(d@, mtx as int, ng as nat)[keep - 1],
                forall|j: int|
                    0 <= j < ng ==> #[trigger] m@[j] == if keep <= j < i {
                        last
                    } else {
                        metric_pairs(d@, mtx as int, ng as nat)[j]
                    },
            decreases ng - i,
        {
            m.set(i, last);
            i = i + 1;
        }
        assert(m@ =~= fill_from(metric_pairs(d@, mtx as int, ng as nat), keep as nat));
    }
    let asc = read_be16(d, hdr as usize + 4) as i16;
    let desc = read_be16(d, hdr as usize + 6) as i16;
    let gap: i16 = if vertical { 0 } else { read_be16(d, hdr as usize + 8) as i16 };
    Ok((asc, desc, gap, m))
}

/// `v` is a Unicode scalar value: at most 0x10FFFF and no surrogate.
pub open spec fn is_scalar(v: nat) -> bool {
    v <= 0x10FFFF && !(0xD800 <= v <= 0xDFFF)
}

/// The code of `c`.
pub open spec fn char_code(c: char) -> nat {
    (c as u32) as nat
}

/// The character of code `v`.
pub open spec fn char_of(v: nat) -> char {
    choose|c: char| #[trigger] char_code(c) == v
}

/// `char::from_u32`: the character of code `v`, or `None` where `v` is no Unicode scalar value,
/// as std documents it.
#[verifier::external_body]
fn char_from_u32(v: u32) -> (r: Option<char>)
    ensures
        r is Some <==> is_scalar(v as nat),
        r matches Some(c) ==> char_code(c) == v && c == char_of(v as nat),
{
    char::from_u32(v)
}

/// The character that marks a glyph that no code maps to.
pub open spec fn unmapped() -> char {
    '\0'
}

/// The character given to glyph 0 when no code maps to it.
pub const MISSING_GLYPH_CHAR: char = '\u{65535}';

/// The glyph-to-character table built so far, and whether some code mapped to glyph 0.
pub type CmapState = (Seq<char>, bool);

/// Code `code` maps to glyph `g`: the glyph gets the character unless it has one already.
pub open spec fn map_glyph(st: CmapState, g: nat, code: nat) -> Result<CmapState, TtfError> {
    if g >= st.0.len() {
        Err(TtfError::BadGlyphIndex)
    } else if st.0[g as int] == unmapped() {
        if !is_scalar(code) {
            Err(TtfError::BadChar)
        } else {
            Ok((st.0.update(g as int, char_of(code)), st.1 || g == 0))
        }
    } else {
        Ok((st.0, st.1 || g == 0))
    }
}

/// The subtable chosen so far and the Unicode encoding it has (-1 for none), after the first
/// `k` encoding records of the `cmap` table at `cmap`.
pub open spec fn cmap_select(d: Seq<u8>, cmap: nat, k: nat) -> Result<(nat, int), TtfError>
    decreases k,
{
    if k == 0 {
        Ok((0, -1))
    } else {
        match cmap_select(d, cmap, (k - 1) as nat) {
            Err(e) => Err(e),
            Ok((off, sel)) => {
                let r = cmap + 4 + 8 * (k - 1);
                if r + 8 > d.len() {
                    Err(TtfError::Truncated)
                } else {
                    let platform = be16(d, r);
                    let enc = be16(d, r + 2);
                    let sub = be32(d, r + 4);
                    if platform == 0 {
                        if (enc == 0 || enc == 1 || enc == 3 || enc == 4) && enc > sel {
                            Ok((sub, enc as int))
                        } else {
                            Ok((off, sel))
                        }
                    } else if platform == 1 || platform == 2 {
                        Ok((off, sel))
                    } else if platform == 3 {
                        if sel == -1 && (enc == 1 || enc == 10) {
                            Ok((sub, sel))
                        } else {
                            Ok((off, sel))
                        }
                    } else {
                        Err(TtfError::BadPlatform)
                    }
                }
            },
        }
    }
}

/// Format 4: the end code of segment `i`.
pub open spec fn f4_end(d: Seq<u8>, at: nat, seg: nat, i: nat) -> nat {
    be16(d, (at + 14 + 2 * i) as int)
}

/// Format 4: the start code of segment `i`.
pub open spec fn f4_start(d: Seq<u8>, at: nat, seg: nat, i: nat) -> nat {
    be16(d, (at + 16 + 2 * seg + 2 * i) as int)
}

/// Format 4: the delta of segment `i`.
pub open spec fn f4_delta(d: Seq<u8>, at: nat, seg: nat, i: nat) -> nat {
    be16(d, (at + 16 + 4 * seg + 2 * i) as int)
}

/// Format 4: where the range offset of segment `i` lies.
pub open spec fn f4_roff_at(at: nat, seg: nat, i: nat) -> nat {
    at + 16 + 6 * seg + 2 * i
}

/// Format 4: the glyph of `code` in segment `i`: the code plus the delta, or the entry of the
/// glyph array that the range offset points at, plus the delta unless it is 0.
pub open spec fn f4_glyph(d: Seq<u8>, at: nat, seg: nat, i: nat, code: nat) -> Result<nat, TtfError> {
    let delta = f4_delta(d, at, seg, i);
    let roff = be16(d, f4_roff_at(at, seg, i) as int);
    if roff == 0 {
        Ok((code + delta) % 0x1_0000)
    } else {
        let loc = f4_roff_at(at, seg, i) + roff + 2 * (code - f4_start(d, at, seg, i));
        if loc + 2 > d.len() {
            Err(TtfError::Truncated)
        } else {
            let v = be16(d, loc as int);
            Ok(if v != 0 { (v + delta) % 0x1_0000 } else { 0 })
        }
    }
}

#[verifier::opaque]
/// Format 4: maps the codes `cur..=end` of segment `i`.
pub open spec fn f4_codes(d: Seq<u8>, at: nat, seg: nat, i: nat, cur: nat, end: nat, st: CmapState) -> Result<
    CmapState,
    TtfError,
>
    decreases end + 1 - cur,
{
    if cur > end {
        Ok(st)
    } else {
        match f4_glyph(d, at, seg, i, cur) {
            Err(e) => Err(e),
            Ok(g) => match map_glyph(st, g, cur) {
                Err(e) => Err(e),
                Ok(st2) => if cur >= 0xFFFF {
                    Err(TtfError::Overflow)
                } else {
                    f4_codes(d, at, seg, i, cur + 1, end, st2)
                },
            },
        }
    }
}

#[verifier::opaque]
/// Format 4: maps the segments from `i` on, stopping at the one that starts at 0xFFFF.
pub open spec fn f4_segs(d: Seq<u8>, at: nat, seg: nat, i: nat, st: CmapState) -> Result<CmapState, TtfError>
    decreases seg - i,
{
    if i >= seg {
        Ok(st)
    } else if f4_start(d, at, seg, i) == 0xFFFF {
        Ok(st)
    } else {
        match f4_codes(d, at, seg, i, f4_start(d, at, seg, i), f4_end(d, at, seg, i), st) {
            Err(e) => Err(e),
            Ok(st2) => f4_segs(d, at, seg, i + 1, st2),
        }
    }
}

#[verifier::opaque]
/// Format 12: maps the codes `start + off` for `off` in `off..cnt` to glyphs `sg + off`.
pub open spec fn f12_codes(start: nat, sg: nat, off: nat, cnt: nat, st: CmapState) -> Result<CmapState, TtfError>
    decreases cnt - off,
{
    if off >= cnt {
        Ok(st)
    } else if sg + off > u32::MAX {
        Err(TtfError::Overflow)
    } else {
        match map_glyph(st, sg + off, start + off) {
            Err(e) => Err(e),
            Ok(st2) => f12_codes(start, sg, off + 1, cnt, st2),
        }
    }
}

#[verifier::opaque]
/// Format 12: maps the groups from `j` on.
pub open spec fn f12_groups(d: Seq<u8>, at: nat, groups: nat, j: nat, st: CmapState) -> Result<
    CmapState,
    TtfError,
>
    decreases groups - j,
{
    if j >= groups {
        Ok(st)
    } else {
        let q = at + 16 + 12 * j;
        if q + 12 > d.len() {
            Err(TtfError::Truncated)
        } else {
            let start = be32(d, q as int);
            let end = be32(d, (q + 4) as int);
            let sg = be32(d, (q + 8) as int);
            if end < start || end - start + 1 > u32::MAX {
                Err(TtfError::Overflow)
            } else {
                match f12_codes(start, sg, 0, (end - start + 1) as nat, st) {
                    Err(e) => Err(e),
                    Ok(st2) => f12_groups(d, at, groups, j + 1, st2),
                }
            }
        }
    }
}

/// What reading the character map at `cmap` gives: a character per glyph, `\0` where no code
/// maps to it, and `MISSING_GLYPH_CHAR` for glyph 0 when no code maps to it.
pub open spec fn ttf_cmap(d: Seq<u8>, cmap: nat, ng: nat) -> Result<Seq<char>, TtfError> {
    if ng == 0 {
        Err(TtfError::NoGlyphs)
    } else if cmap + 4 > d.len() {
        Err(TtfError::Truncated)
    } else {
        match cmap_select(d, cmap, be16(d, (cmap + 2) as int)) {
            Err(e) => Err(e),
            Ok((sub, _sel)) => {
                let at = cmap + sub;
                let init: CmapState = (Seq::new(ng, |_i: int| unmapped()), false);
                if sub == 0 {
                    Err(TtfError::NoCharMap)
                } else if at + 2 > d.len() {
                    Err(TtfError::Truncated)
                } else {
                    let fmt = be16(d, at as int);
                    let res = if fmt == 4 {
                        if at + 8 > d.len() {
                            Err(TtfError::Truncated)
                        } else {
                            let seg = be16(d, (at + 6) as int) / 2;
                            if at + 16 + 8 * seg > d.len() {
                                Err(TtfError::Truncated)
                            } else {
                                f4_segs(d, at, seg, 0, init)
                            }
                        }
                    } else if fmt == 12 {
                        if at + 16 > d.len() {
                            Err(TtfError::Truncated)
                        } else {
                            f12_groups(d, at, be32(d, (at + 12) as int), 0, init)
                        }
                    } else {
                        Err(TtfError::BadCharMapFormat)
                    };
                    match res {
                        Err(e) => Err(e),
                        Ok((m, missing)) => Ok(
                            if !missing {
                                m.update(0, MISSING_GLYPH_CHAR)
                            } else {
                                m
                            },
                        ),
                    }
                }
            },
        }
    }
}

proof fn lemma_f4_codes(d: Seq<u8>, at: nat, seg: nat, i: nat, cur: nat, end: nat, st: CmapState)
    ensures
        f4_codes(d, at, seg, i, cur, end, st) == if cur > end {
            Ok(st)
        } else {
            match f4_glyph(d, at, seg, i, cur) {
                Err(e) => Err(e),
                Ok(g) => match map_glyph(st, g, cur) {
                    Err(e) => Err(e),
                    Ok(st2) => if cur >= 0xFFFF {
                        Err(TtfError::Overflow)
                    } else {
                        f4_codes(d, at, seg, i, cur + 1, end, st2)
                    },
                },
            }
        },
{
    reveal(f4_codes);
}

proof fn lemma_f4_segs(d: Seq<u8>, at: nat, seg: nat, i: nat, st: CmapState)
    ensures
        f4_segs(d, at, seg, i, st) == if i >= seg {
            Ok(st)
        } else if f4_start(d, at, seg, i) == 0xFFFF {
            Ok(st)
        } else {
            match f4_codes(d, at, seg, i, f4_start(d, at, seg, i), f4_end(d, at, seg, i), st) {
                Err(e) => Err(e),
                Ok(st2) => f4_segs(d, at, seg, i + 1, st2),
            }
        },
{
    reveal(f4_segs);
}

proof fn lemma_f12_codes(start: nat, sg: nat, off: nat, cnt: nat, st: CmapState)
    ensures
        f12_codes(start, sg, off, cnt, st) == if off >= cnt {
            Ok(st)
        } else if sg + off > u32::MAX {
            Err(TtfError::Overflow)
        } else {
            match map_glyph(st, sg + off, start + off) {
                Err(e) => Err(e),
                Ok(st2) => f12_codes(start, sg, off + 1, cnt, st2),
            }
        },
{
    reveal(f12_codes);
}

proof fn lemma_f12_groups(d: Seq<u8>, at: nat, groups: nat, j: nat, st: CmapState)
    ensures
        f12_groups(d, at, groups, j, st) == if j >= groups {
            Ok(st)
        } else {
            let q = at + 16 + 12 * j;
            if q + 12 > d.len() {
                Err(TtfError::Truncated)
            } else {
                let start = be32(d, q as int);
                let end = be32(d, (q + 4) as int);
                let sg = be32(d, (q + 8) as int);
                if end < start || end - start + 1 > u32::MAX {
                    Err(TtfError::Overflow)
                } else {
                    match f12_codes(start, sg, 0, (end - start + 1) as nat, st) {
                        Err(e) => Err(e),
                        Ok(st2) => f12_groups(d, at, groups, j + 1, st2),
                    }
                }
            }
        },
{
    reveal(f12_groups);
}

fn map_glyph_exec(m: &mut Vec<char>, missing: &mut bool, g: u64, code: u32) -> (r: Result<(), TtfError>)
    ensures
        match map_glyph((old(m)@, *old(missing)), g as nat, code as nat) {
            Ok(st) => r is Ok && final(m)@ == st.0 && *final(missing) == st.1,
            Err(e) => r == Err::<(), TtfError>(e),
        },
        final(m)@.len() == old(m)@.len(),
{
    if g >= m.len() as u64 {
        return Err(TtfError::BadGlyphIndex);
    }
    let gi = g as usize;
    if m[gi] == '\0' {
        match char_from_u32(code) {
            None => {
                return Err(TtfError::BadChar);
            },
            Some(c) => {
                m.set(gi, c);
            },
        }
    }
    *missing = *missing || g == 0;
    Ok(())
}

fn select_cmap(d: &[u8], cmap: u64, nt: u16) -> (r: Result<(u64, i32), TtfError>)
    requires
        cmap <= u32::MAX,
    ensures
        match cmap_select(d@, cmap as nat, nt as nat) {
            Ok((off, sel)) => r matches Ok((ro, rs)) && ro == off && rs == sel,
            Err(e) => r == Err::<(u64, i32), TtfError>(e),
        },
        r matches Ok((ro, _)) ==> ro <= u32::MAX,
{
    let n = d.len() as u64;
    let mut off: u64 = 0;
    let mut sel: i32 = -1;
    let mut k: u16 = 0;
    while k < nt
        invariant
            k <= nt,
            n == d@.len(),
            n <= usize::MAX,
            cmap <= u32::MAX,
            off <= u32::MAX,
            -1 <= sel <= 0xFFFF,
            cmap_select(d@, cmap as nat, k as nat) == Ok::<(nat, int), TtfError>((off as nat, sel as int)),
        decreases nt - k,
    {
        let r = cmap + 4 + 8 * k as u64;
        if r + 8 > n {
            proof {
                lemma_select_err_stays(d@, cmap as nat, (k + 1) as nat, nt as nat);
            }
            return Err(TtfError::Truncated);
        }
        let ri = r as usize;
        let platform = read_be16(d, ri);
        let enc = read_be16(d, ri + 2);
        let sub = read_be32(d, ri + 4);
        if platform == 0 {
            if (enc == 0 || enc == 1 || enc == 3 || enc == 4) && enc as i32 > sel {
                off = sub as u64;
                sel = enc as i32;
            }
        } else if platform == 1 || platform == 2 {
        } else if platform == 3 {
            if sel == -1 && (enc == 1 || enc == 10) {
                off = sub as u64;
            }
        } else {
            proof {
                lemma_select_err_stays(d@, cmap as nat, (k + 1) as nat, nt as nat);
            }
            return Err(TtfError::BadPlatform);
        }
        k = k + 1;
    }
    Ok((off, sel))
}

proof fn lemma_select_err_stays(d: Seq<u8>, cmap: nat, j: nat, m: nat)
    requires
        j <= m,
        cmap_select(d, cmap, j) is Err,
    ensures
        cmap_select(d, cmap, m) == cmap_select(d, cmap, j),
    decreases m - j,
{
    if j < m {
        lemma_select_err_stays(d, cmap, j, (m - 1) as nat);
    }
}

/// Maps the format 4 segments, as `f4_segs` says.
fn read_f4(d: &[u8], at: u64, seg: u64, m: &mut Vec<char>, missing: &mut bool) -> (r: Result<(), TtfError>)
    requires
        at + 16 + 8 * seg <= d@.len(),
    ensures
        match f4_segs(d@, at as nat, seg as nat, 0, (old(m)@, *old(missing))) {
            Ok(st) => r is Ok && final(m)@ == st.0 && *final(missing) == st.1,
            Err(e) => r == Err::<(), TtfError>(e),
        },
        final(m)@.len() == old(m)@.len(),
{
    let ghost total = f4_segs(d@, at as nat, seg as nat, 0, (m@, *missing));
    let n = d.len() as u64;
    let mut i: u64 = 0;
    while i < seg
        invariant
            i <= seg,
            n == d@.len(),
            n <= usize::MAX,
            at + 16 + 8 * seg <= n,
            total == f4_segs(d@, at as nat, seg as nat, i as nat, (m@, *missing)),
            total == f4_segs(d@, at as nat, seg as nat, 0, (old(m)@, *old(missing))),
            m@.len() == old(m)@.len(),
        decreases seg - i,
    {
        proof {
            lemma_f4_segs(d@, at as nat, seg as nat, i as nat, (m@, *missing));
        }
        let start = read_be16(d, (at + 16 + 2 * seg + 2 * i) as usize);
        let end = read_be16(d, (at + 14 + 2 * i) as usize);
        assert(start == f4_start(d@, at as nat, seg as nat, i as nat));
        assert(end == f4_end(d@, at as nat, seg as nat, i as nat));
        if start == 0xFFFF {
            return Ok(());
        }
        let delta = read_be16(d, (at + 16 + 4 * seg + 2 * i) as usize);
        let roff_at = at + 16 + 6 * seg + 2 * i;
        let roff = read_be16(d, roff_at as usize);
        let mut cur: u16 = start;
        while cur <= end
            invariant
                start <= cur,
                start == f4_start(d@, at as nat, seg as nat, i as nat),
                end == f4_end(d@, at as nat, seg as nat, i as nat),
                delta == f4_delta(d@, at as nat, seg as nat, i as nat),
                roff_at == f4_roff_at(at as nat, seg as nat, i as nat),
                roff == be16(d@, roff_at as int),
                total == f4_segs(d@, at as nat, seg as nat, 0, (old(m)@, *old(missing))),
                m@.len() == old(m)@.len(),
                i < seg,
                n == d@.len(),
                n <= usize::MAX,
                at + 16 + 8 * seg <= n,
                total == match f4_codes(d@, at as nat, seg as nat, i as nat, cur as nat, end as nat, (m@, *missing)) {
                    Err(e) => Err(e),
                    Ok(st2) => f4_segs(d@, at as nat, seg as nat, (i + 1) as nat, st2),
                },
            decreases end + 1 - cur,
        {
            proof {
                lemma_f4_codes(d@, at as nat, seg as nat, i as nat, cur as nat, end as nat, (m@, *missing));
            }
            let g: u64 = if roff == 0 {
                cur.wrapping_add(delta) as u64
            } else {
                let step: u64 = roff as u64 + 2 * (cur - start) as u64;
                if n - roff_at < step + 2 {
                    return Err(TtfError::Truncated);
                }
                let loc = roff_at + step;
                let v = read_be16(d, loc as usize);
                if v != 0 {
                    v.wrapping_add(delta) as u64
                } else {
                    0
                }
            };
            match map_glyph_exec(m, missing, g, cur as u32) {
                Err(e) => {
                    return Err(e);
                },
                Ok(()) => {},
            }
            if cur == 0xFFFF {
                return Err(TtfError::Overflow);
            }
            cur = cur + 1;
        }
        proof {
            lemma_f4_codes(d@, at as nat, seg as nat, i as nat, cur as nat, end as nat, (m@, *missing));
        }
        i = i + 1;
    }
    proof {
        lemma_f4_segs(d@, at as nat, seg as nat, i as nat, (m@, *missing));
    }
    Ok(())
}

/// Maps the format 12 groups, as `f12_groups` says.
fn read_f12(d: &[u8], at: u64, groups: u32, m: &mut Vec<char>, missing: &mut bool) -> (r: Result<(), TtfError>)
    requires
        at + 16 <= d@.len(),
    ensures
        match f12_groups(d@, at as nat, groups as nat, 0, (old(m)@, *old(missing))) {
            Ok(st) => r is Ok && final(m)@ == st.0 && *final(missing) == st.1,
            Err(e) => r == Err::<(), TtfError>(e),
        },
        final(m)@.len() == old(m)@.len(),
{
    let ghost total = f12_groups(d@, at as nat, groups as nat, 0, (m@, *missing));
    let n = d.len() as u64;
    let mut j: u32 = 0;
    while j < groups
        invariant
            j <= groups,
            n == d@.len(),
            n <= usize::MAX,
            at + 16 <= n,
            total == f12_groups(d@, at as nat, groups as nat, j as nat, (m@, *missing)),
            total == f12_groups(d@, at as nat, groups as nat, 0, (old(m)@, *old(missing))),
            m@.len() == old(m)@.len(),
        decreases groups - j,
    {
        proof {
            lemma_f12_groups(d@, at as nat, groups as nat, j as nat, (m@, *missing));
        }
        if n - at - 16 < 12 * j as u64 + 12 {
            return Err(TtfError::Truncated);
        }
        let q = at + 16 + 12 * j as u64;
        let start = read_be32(d, q as usize);
        let end = read_be32(d, q as usize + 4);
        let sg = read_be32(d, q as usize + 8);
        if end < start || end - start == u32::MAX {
            return Err(TtfError::Overflow);
        }
        let cnt: u64 = (end - start) as u64 + 1;
        let mut off: u64 = 0;
        while off < cnt
            invariant
                off <= cnt,
                cnt == end - start + 1,
                start <= end,
                total == f12_groups(d@, at as nat, groups as nat, 0, (old(m)@, *old(missing))),
                m@.len() == old(m)@.len(),
                j < groups,
                n == d@.len(),
                n <= usize::MAX,
                at + 16 <= n,
                total == match f12_codes(start as nat, sg as nat, off as nat, cnt as nat, (m@, *missing)) {
                    Err(e) => Err(e),
                    Ok(st2) => f12_groups(d@, at as nat, groups as nat, (j + 1) as nat, st2),
                },
            decreases cnt - off,
        {
            proof {
                lemma_f12_codes(start as nat, sg as nat, off as nat, cnt as nat, (m@, *missing));
            }
            let g = sg as u64 + off;
            if g > u32::MAX as u64 {
                return Err(TtfError::Overflow);
            }
            match map_glyph_exec(m, missing, g, (start as u64 + off) as u32) {
                Err(e) => {
                    return Err(e);
                },
                Ok(()) => {},
            }
            off = off + 1;
        }
        proof {
            lemma_f12_codes(start as nat, sg as nat, off as nat, cnt as nat, (m@, *missing));
        }
        j = j + 1;
    }
    proof {
        lemma_f12_groups(d@, at as nat, groups as nat, j as nat, (m@, *missing));
    }
    Ok(())
}

/// Reads the character map, as `ttf_cmap` says.
pub fn read_idx2uni(d: &[u8], cmap: u32, ng: u16) -> (r: Result<Vec<char>, TtfError>)
    ensures
        match ttf_cmap(d@, cmap as nat, ng as nat) {
            Ok(s) => r matches Ok(v) && v@ == s,
            Err(e) => r matches Err(re) && re == e,
        },
        r matches Ok(v) ==> v@.len() == ng,
{
    if ng == 0 {
        return Err(TtfError::NoGlyphs);
    }
    let n = d.len() as u64;
    if cmap as u64 + 4 > n {
        return Err(TtfError::Truncated);
    }
    let nt = read_be16(d, cmap as usize + 2);
    let (sub, _sel) = match select_cmap(d, cmap as u64, nt) {
        Ok(v) => v,
        Err(e) => {
            return Err(e);
        },
    };
    if sub == 0 {
        return Err(TtfError::NoCharMap);
    }
    let at = cmap as u64 + sub;
    if at + 2 > n {
        return Err(TtfError::Truncated);
    }
    let mut m: Vec<char> = Vec::new();
    let mut k: u16 = 0;
    while k < ng
        invariant
            k <= ng,
            m@ == Seq::new(k as nat, |_i: int| unmapped()),
        decreases ng - k,
    {
        m.push('\0');
        k = k + 1;
        assert(m@ =~= Seq::new(k as nat, |_i: int| unmapped()));
    }
    let mut missing = false;
    let fmt = read_be16(d, at as usize);
    if fmt == 4 {
        if at + 8 > n {
            return Err(TtfError::Truncated);
        }
        let seg = read_be16(d, at as usize + 6) as u64 / 2;
        if at + 16 + 8 * seg > n {
            return Err(TtfError::Truncated);
        }
        match read_f4(d, at, seg, &mut m, &mut missing) {
            Err(e) => {
                return Err(e);
            },
            Ok(()) => {},
        }
    } else if fmt == 12 {
        if at + 16 > n {
            return Err(TtfError::Truncated);
        }
        let groups = read_be32(d, at as usize + 12);
        match read_f12(d, at, groups, &mut m, &mut missing) {
            Err(e) => {
                return Err(e);
            },
            Ok(()) => {},
        }
    } else {
        return Err(TtfError::BadCharMapFormat);
    }
    if !missing {
        m.set(0, MISSING_GLYPH_CHAR);
    }
    Ok(m)
}

/// A glyph's box and spacing, in font units.
#[derive(Debug, Clone, Copy, PartialEq, Eq, Structural, Default)]
pub struct GlyphMetrics {
    pub xmin: i16,
    pub ymin: i16,
    pub xmax: i16,
    pub ymax: i16,
    pub advance_width: i16,
    pub left_side_bearing: i16,
    pub advance_height: i16,
    pub top_side_bearing: i16,
}

impl GlyphMetrics {
    /// The width of the glyph's box.
    pub fn width(&self) -> (r: i16)
        requires
            i16::MIN <= self.xmax - self.xmin <= i16::MAX,
        ensures
            r == self.xmax - self.xmin,
    {
        self.xmax - self.xmin
    }

    /// The height of the glyph's box.
    pub fn height(&self) -> (r: i16)
        requires
            i16::MIN <= self.ymax - self.ymin <= i16::MAX,
        ensures
            r == self.ymax - self.ymin,
    {
        self.ymax - self.ymin
    }
}

/// The metrics of a glyph with a box and no spacing yet.
pub open spec fn boxed(xmin: i16, ymin: i16, xmax: i16, ymax: i16) -> GlyphMetrics {
    GlyphMetrics {
        xmin,
        ymin,
        xmax,
        ymax,
        advance_width: 0,
        left_side_bearing: 0,
        advance_height: 0,
        top_side_bearing: 0,
    }
}

#[verifier::opaque]
/// The flags of the outline points read so far and where reading goes on, or the first fault.
pub open spec fn read_flags(d: Seq<u8>, p: nat, i: nat, np: nat, flags: Seq<u8>) -> Result<(Seq<u8>, nat), TtfError>
    decreases np - i,
{
    if i >= np {
        Ok((flags, p))
    } else if p + 1 > d.len() {
        Err(TtfError::Truncated)
    } else {
        let f = d[p as int];
        if (f >> 3u8) & 1 == 1 {
            if p + 2 > d.len() {
                Err(TtfError::Truncated)
            } else {
                let reps = d[(p + 1) as int] as nat;
                if i + reps >= np {
                    Err(TtfError::BadFlags)
                } else {
                    read_flags(
                        d,
                        p + 2,
                        i + reps + 1,
                        np,
                        flags + Seq::new(reps + 1, |_k: int| f),
                    )
                }
            }
        } else {
            read_flags(d, p + 1, i + 1, np, flags.push(f))
        }
    }
}

#[verifier::opaque]
/// One pass over the coordinates of the outline points: the values from point `i` on, starting
/// from `val`, and where reading ends. A coordinate is a byte added or taken away, a 16-bit
/// delta, or the one before, as the flag's bits `size` and `same` say.
pub open spec fn read_coord_pass(
    d: Seq<u8>,
    p: nat,
    flags: Seq<u8>,
    i: nat,
    val: int,
    vals: Seq<i16>,
    size: u8,
    same: u8,
) -> Result<(Seq<i16>, nat), TtfError>
    decreases flags.len() - i,
{
    if i >= flags.len() {
        Ok((vals, p))
    } else {
        let f = flags[i as int];
        if (f >> size) & 1 == 1 {
            if p + 1 > d.len() {
                Err(TtfError::Truncated)
            } else {
                let nv = if (f >> same) & 1 == 1 {
                    val + d[p as int]
                } else {
                    val - d[p as int]
                };
                if nv < i16::MIN || nv > i16::MAX {
                    Err(TtfError::Overflow)
                } else {
                    read_coord_pass(d, p + 1, flags, i + 1, nv, vals.push(nv as i16), size, same)
                }
            }
        } else if (f >> same) & 1 == 0 {
            if p + 2 > d.len() {
                Err(TtfError::Truncated)
            } else {
                let nv = val + bei16(d, p as int);
                if nv < i16::MIN || nv > i16::MAX {
                    Err(TtfError::Overflow)
                } else {
                    read_coord_pass(d, p + 2, flags, i + 1, nv, vals.push(nv as i16), size, same)
                }
            }
        } else {
            read_coord_pass(d, p, flags, i + 1, val, vals.push(val as i16), size, same)
        }
    }
}

/// The largest of the first `k` values of `s`.
pub open spec fn max_prefix(s: Seq<u16>, k: nat) -> nat
    decreases k,
{
    if k == 0 {
        0
    } else {
        let m = max_prefix(s, (k - 1) as nat);
        if s[k - 1] as nat > m {
            s[k - 1] as nat
        } else {
            m
        }
    }
}

/// The points of a simple glyph: `(x, y, on the curve)`.
pub open spec fn zip_points(xs: Seq<i16>, ys: Seq<i16>, flags: Seq<u8>) -> Seq<(i16, i16, bool)> {
    Seq::new(flags.len(), |i: int| (xs[i], ys[i], flags[i] & 1 == 1))
}

/// A glyph's metrics, points, contour ends and index.
pub type GlyphSpec = (GlyphMetrics, Seq<(i16, i16, bool)>, Seq<u16>, u16);

/// What reading the simple glyph whose `cc` contours follow its contour count at `off` gives.
pub open spec fn ttf_simple_glyph(d: Seq<u8>, off: nat, cc: nat) -> Result<GlyphSpec, TtfError> {
    let e = off + 10;
    if e + 2 * cc > d.len() {
        Err(TtfError::Truncated)
    } else {
        let ends = Seq::new(cc, |k: int| be16(d, e + 2 * k) as u16);
        let top = max_prefix(ends, cc);
        if top == u16::MAX {
            Err(TtfError::Overflow)
        } else if e + 2 * cc + 2 > d.len() {
            Err(TtfError::Truncated)
        } else {
            let p = e + 2 * cc + 2 + be16(d, (e + 2 * cc) as int);
            match read_flags(d, p, 0, top + 1, Seq::empty()) {
                Err(e) => Err(e),
                Ok((flags, p2)) => match read_coord_pass(d, p2, flags, 0, 0, Seq::empty(), 1, 4) {
                    Err(e) => Err(e),
                    Ok((xs, p3)) => match read_coord_pass(d, p3, flags, 0, 0, Seq::empty(), 2, 5) {
                        Err(e) => Err(e),
                        Ok((ys, _p4)) => Ok(
                            (
                                boxed(
                                    bei16(d, (off + 2) as int),
                                    bei16(d, (off + 4) as int),
                                    bei16(d, (off + 6) as int),
                                    bei16(d, (off + 8) as int),
                                ),
                                zip_points(xs, ys, flags),
                                ends,
                                0,
                            ),
                        ),
                    },
                },
            }
        }
    }
}

proof fn lemma_read_flags(d: Seq<u8>, p: nat, i: nat, np: nat, flags: Seq<u8>)
    ensures
        read_flags(d, p, i, np, flags) == if i >= np {
            Ok((flags, p))
        } else if p + 1 > d.len() {
            Err(TtfError::Truncated)
        } else {
            let f = d[p as int];
            if (f >> 3u8) & 1 == 1 {
                if p + 2 > d.len() {
                    Err(TtfError::Truncated)
                } else {
                    let reps = d[(p + 1) as int] as nat;
                    if i + reps >= np {
                        Err(TtfError::BadFlags)
                    } else {
                        read_flags(d, p + 2, i + reps + 1, np, flags + Seq::new(reps + 1, |_k: int| f))
                    }
                }
            } else {
                read_flags(d, p + 1, i + 1, np, flags.push(f))
            }
        },
{
    reveal(read_flags);
}

proof fn lemma_read_coord_pass(
    d: Seq<u8>,
    p: nat,
    flags: Seq<u8>,
    i: nat,
    val: int,
    vals: Seq<i16>,
    size: u8,
    same: u8,
)
    ensures
        read_coord_pass(d, p, flags, i, val, vals, size, same) == if i >= flags.len() {
            Ok((vals, p))
        } else {
            let f = flags[i as int];
            if (f >> size) & 1 == 1 {
                if p + 1 > d.len() {
                    Err(TtfError::Truncated)
                } else {
                    let nv = if (f >> same) & 1 == 1 {
                        val + d[p as int]
                    } else {
                        val - d[p as int]
                    };
                    if nv < i16::MIN || nv > i16::MAX {
                        Err(TtfError::Overflow)
                    } else {
                        read_coord_pass(d, p + 1, flags, i + 1, nv, vals.push(nv as i16), size, same)
                    }
                }
            } else if (f >> same) & 1 == 0 {
                if p + 2 > d.len() {
                    Err(TtfError::Truncated)
                } else {
                    let nv = val + bei16(d, p as int);
                    if nv < i16::MIN || nv > i16::MAX {
                        Err(TtfError::Overflow)
                    } else {
                        read_coord_pass(d, p + 2, flags, i + 1, nv, vals.push(nv as i16), size, same)
                    }
                }
            } else {
                read_coord_pass(d, p, flags, i + 1, val, vals.push(val as i16), size, same)
            }
        },
{
    reveal(read_coord_pass);
}

/// Reads the point flags, as `read_flags` says.
fn read_flags_exec(d: &[u8], p0: u64, np: u32) -> (r: Result<(Vec<u8>, u64), TtfError>)
    requires
        p0 <= d@.len(),
        np <= 0x1_0000,
    ensures
        match read_flags(d@, p0 as nat, 0, np as nat, Seq::empty()) {
            Ok((fl, p)) => r matches Ok((v, rp)) && v@ == fl && rp == p && p <= d@.len() && fl.len()
                == np,
            Err(e) => r matches Err(re) && re == e,
        },
{
    let ghost total = read_flags(d@, p0 as nat, 0, np as nat, Seq::empty());
    let n = d.len() as u64;
    let mut flags: Vec<u8> = Vec::new();
    let mut p = p0;
    let mut i: u32 = 0;
    while i < np
        invariant
            i <= np <= 0x1_0000,
            p <= n,
            n == d@.len(),
            n <= usize::MAX,
            flags@.len() == i,
            total == read_flags(d@, p as nat, i as nat, np as nat, flags@),
            total == read_flags(d@, p0 as nat, 0, np as nat, Seq::empty()),
        decreases np - i,
    {
        proof {
            lemma_read_flags(d@, p as nat, i as nat, np as nat, flags@);
        }
        if p >= n {
            return Err(TtfError::Truncated);
        }
        let f = d[p as usize];
        if (f >> 3u8) & 1 == 1 {
            if n - p < 2 {
                return Err(TtfError::Truncated);
            }
            let reps = d[p as usize + 1] as u32;
            if i + reps >= np {
                return Err(TtfError::BadFlags);
            }
            let ghost before = flags@;
            let mut k: u32 = 0;
            while k <= reps
                invariant
                    k <= reps + 1,
                    reps <= 255,
                    flags@ == before + Seq::new(k as nat, |_j: int| f),
                decreases reps + 1 - k,
            {
                flags.push(f);
                k = k + 1;
                assert(flags@ =~= before + Seq::new(k as nat, |_j: int| f));
            }
            p = p + 2;
            i = i + reps + 1;
        } else {
            flags.push(f);
            p = p + 1;
            i = i + 1;
        }
    }
    proof {
        lemma_read_flags(d@, p as nat, i as nat, np as nat, flags@);
    }
    Ok((flags, p))
}

/// One pass over the coordinates, as `read_coord_pass` says.
fn read_coord_pass_exec(d: &[u8], p0: u64, flags: &Vec<u8>, size: u8, same: u8) -> (r: Result<(Vec<i16>, u64), TtfError>)
    requires
        p0 <= d@.len(),
        size < 8,
        same < 8,
    ensures
        match read_coord_pass(d@, p0 as nat, flags@, 0, 0, Seq::empty(), size, same) {
            Ok((vs, p)) => r matches Ok((v, rp)) && v@ == vs && rp == p && p <= d@.len() && vs.len()
                == flags@.len(),
            Err(e) => r matches Err(re) && re == e,
        },
{
    let ghost total = read_coord_pass(d@, p0 as nat, flags@, 0, 0, Seq::empty(), size, same);
    let n = d.len() as u64;
    let mut vals: Vec<i16> = Vec::new();
    let mut p = p0;
    let mut val: i16 = 0;
    let mut i: usize = 0;
    while i < flags.len()
        invariant
            i <= flags@.len(),
            p <= n,
            n == d@.len(),
            n <= usize::MAX,
            size < 8,
            same < 8,
            vals@.len() == i,
            total == read_coord_pass(d@, p as nat, flags@, i as nat, val as int, vals@, size, same),
            total == read_coord_pass(d@, p0 as nat, flags@, 0, 0, Seq::empty(), size, same),
        decreases flags@.len() - i,
    {
        proof {
            lemma_read_coord_pass(d@, p as nat, flags@, i as nat, val as int, vals@, size, same);
        }
        let f = flags[i];
        if (f >> size) & 1 == 1 {
            if p >= n {
                return Err(TtfError::Truncated);
            }
            let b = d[p as usize] as i32;
            let nv: i32 = if (f >> same) & 1 == 1 { val as i32 + b } else { val as i32 - b };
            if nv < -32768 || nv > 32767 {
                return Err(TtfError::Overflow);
            }
            val = nv as i16;
            vals.push(val);
            p = p + 1;
        } else if (f >> same) & 1 == 0 {
            if n - p < 2 {
                return Err(TtfError::Truncated);
            }
            let delta = read_be16(d, p as usize) as i16;
            let nv: i32 = val as i32 + delta as i32;
            if nv < -32768 || nv > 32767 {
                return Err(TtfError::Overflow);
            }
            val = nv as i16;
            vals.push(val);
            p = p + 2;
        } else {
            vals.push(val);
        }
        i = i + 1;
    }
    proof {
        lemma_read_coord_pass(d@, p as nat, flags@, i as nat, val as int, vals@, size, same);
    }
    Ok((vals, p))
}

/// How deep composite glyphs may nest.
pub const MAX_GLYPH_DEPTH: u32 = 32;

/// The 2.14 fixed-point one.
pub const UNIT_FACTOR: u16 = 0x4000;

/// A part of a composite glyph that is placed after reading, because it scales or holds such
/// parts itself: points `start..start + len` go to
/// `round(ihat_x * x + jhat_x * y + dx, ihat_y * x + jhat_y * y + dy)`, the four factors being
/// 2.14 fixed-point numbers.
#[derive(Debug, Clone, Copy, PartialEq, Eq, Structural)]
pub struct Placement {
    pub start: usize,
    pub len: usize,
    pub dx: i16,
    pub dy: i16,
    pub ihat_x: u16,
    pub ihat_y: u16,
    pub jhat_x: u16,
    pub jhat_y: u16,
}

/// A glyph: metrics, points `(x, y, on the curve)`, the index of each contour's last point,
/// the glyph's index, and the parts of a composite glyph still to be placed, in order.
#[derive(Debug, Clone)]
pub struct GlyphData {
    pub metric: GlyphMetrics,
    pub points: Vec<(i16, i16, bool)>,
    pub contour_end_idxs: Vec<u16>,
    pub index: u16,
    pub placements: Vec<Placement>,
}

/// A glyph as read: metrics, points, contour ends, index, and placements left to apply.
pub type GlyphRead = (GlyphMetrics, Seq<(i16, i16, bool)>, Seq<u16>, u16, Seq<Placement>);

impl View for GlyphData {
    type V = GlyphRead;

    open spec fn view(&self) -> GlyphRead {
        (self.metric, self.points@, self.contour_end_idxs@, self.index, self.placements@)
    }
}

/// A glyph with no outline.
pub open spec fn empty_glyph(gi: nat) -> GlyphRead {
    (boxed(0, 0, 0, 0), Seq::empty(), Seq::empty(), gi as u16, Seq::empty())
}

/// Whether `q` moved by `(dx, dy)` stays in the `i16` range.
pub open spec fn shift_fits(q: (i16, i16, bool), dx: i16, dy: i16) -> bool {
    i16::MIN <= q.0 + dx <= i16::MAX && i16::MIN <= q.1 + dy <= i16::MAX
}

/// `ps` moved by `(dx, dy)`, or `PointRange` where a point would leave the `i16` range.
pub open spec fn shift_points(ps: Seq<(i16, i16, bool)>, dx: i16, dy: i16) -> Result<
    Seq<(i16, i16, bool)>,
    TtfError,
> {
    if forall|i: int| 0 <= i < ps.len() ==> shift_fits(#[trigger] ps[i], dx, dy) {
        Ok(Seq::new(ps.len(), |i: int| ((ps[i].0 + dx) as i16, (ps[i].1 + dy) as i16, ps[i].2)))
    } else {
        Err(TtfError::PointRange)
    }
}

/// `ends` each raised by `base` taken modulo 2^16, or `Overflow` where one would pass
/// `u16::MAX`.
pub open spec fn shift_ends(ends: Seq<u16>, base: nat) -> Result<Seq<u16>, TtfError> {
    if forall|i: int| 0 <= i < ends.len() ==> #[trigger] ends[i] + base % 0x1_0000 <= u16::MAX {
        Ok(Seq::new(ends.len(), |i: int| (ends[i] + base % 0x1_0000) as u16))
    } else {
        Err(TtfError::Overflow)
    }
}

/// `p` with its start moved on by `base`.
pub open spec fn moved_placement(p: Placement, base: nat) -> Placement {
    Placement {
        start: (p.start + base) as usize,
        len: p.len,
        dx: p.dx,
        dy: p.dy,
        ihat_x: p.ihat_x,
        ihat_y: p.ihat_y,
        jhat_x: p.jhat_x,
        jhat_y: p.jhat_y,
    }
}

/// `ps` with each start moved on by `base`, or `Overflow` where one would pass `usize::MAX`.
pub open spec fn shift_placements(ps: Seq<Placement>, base: nat) -> Result<Seq<Placement>, TtfError> {
    if forall|i: int| 0 <= i < ps.len() ==> #[trigger] ps[i].start + base <= usize::MAX {
        Ok(Seq::new(ps.len(), |i: int| moved_placement(ps[i], base)))
    } else {
        Err(TtfError::Overflow)
    }
}

/// The factors `(ihat_x, ihat_y, jhat_x, jhat_y)` that a part's flags call for, read from
/// `q` on, and how many bytes they take: one scale, an x and a y scale, a full matrix, or none.
pub open spec fn part_factors(d: Seq<u8>, flag: u16, q: nat) -> ((u16, u16, u16, u16), nat) {
    if (flag >> 3u16) & 1 == 1 {
        ((be16(d, q as int) as u16, 0, 0, be16(d, q as int) as u16), 2)
    } else if (flag >> 6u16) & 1 == 1 {
        ((be16(d, q as int) as u16, 0, 0, be16(d, (q + 2) as int) as u16), 4)
    } else if (flag >> 7u16) & 1 == 1 {
        (
            (
                be16(d, q as int) as u16,
                be16(d, (q + 2) as int) as u16,
                be16(d, (q + 4) as int) as u16,
                be16(d, (q + 6) as int) as u16,
            ),
            8,
        )
    } else {
        ((UNIT_FACTOR, 0, 0, UNIT_FACTOR), 0)
    }
}

/// The offset of a part of a composite glyph, and where its factors start.
pub open spec fn part_offset(d: Seq<u8>, flag: u16, p: nat) -> (i16, i16, nat) {
    if flag & 1 == 1 {
        (bei16(d, (p + 4) as int), bei16(d, (p + 6) as int), p + 8)
    } else {
        (d[p + 4int] as i8 as i16, d[p + 5int] as i8 as i16, p + 6)
    }
}

/// What reading glyph `gi` gives, composite parts nesting at most `depth` deep.
pub open spec fn ttf_glyph(d: Seq<u8>, offs: Seq<u32>, gi: nat, depth: nat) -> Result<GlyphRead, TtfError>
    decreases depth, 1nat, 0nat,
{
    if gi + 1 >= offs.len() {
        Err(TtfError::BadGlyphIndex)
    } else {
        let off = offs[gi as int] as nat;
        if off == offs[gi + 1int] {
            Ok(empty_glyph(gi))
        } else if off + 2 > d.len() {
            Err(TtfError::Truncated)
        } else {
            let cc = bei16(d, off as int);
            if cc == 0 {
                Ok(empty_glyph(gi))
            } else if cc > 0 {
                match ttf_simple_glyph(d, off, cc as nat) {
                    Err(e) => Err(e),
                    Ok((m, pts, ends, ix)) => Ok((m, pts, ends, ix, Seq::empty())),
                }
            } else if depth == 0 {
                Err(TtfError::TooDeep)
            } else if off + 10 > d.len() {
                Err(TtfError::Truncated)
            } else {
                match ttf_components(d, offs, off + 10, depth, Seq::empty(), Seq::empty(), Seq::empty()) {
                    Err(e) => Err(e),
                    Ok((pts, ends, pend)) => Ok(
                        (
                            boxed(
                                bei16(d, (off + 2) as int),
                                bei16(d, (off + 4) as int),
                                bei16(d, (off + 6) as int),
                                bei16(d, (off + 8) as int),
                            ),
                            pts,
                            ends,
                            0,
                            pend,
                        ),
                    ),
                }
            }
        }
    }
}

/// What reading the parts of a composite glyph from `p` on gives, after the points, contour
/// ends and placements of the parts before. A part that neither scales nor holds placements
/// is moved by its offset here; any other part is placed later.
pub open spec fn ttf_components(
    d: Seq<u8>,
    offs: Seq<u32>,
    p: nat,
    depth: nat,
    pts: Seq<(i16, i16, bool)>,
    ends: Seq<u16>,
    pend: Seq<Placement>,
) -> Result<(Seq<(i16, i16, bool)>, Seq<u16>, Seq<Placement>), TtfError>
    decreases depth, 0nat, d.len() - p,
{
    if depth == 0 {
        Err(TtfError::TooDeep)
    } else if p + 4 > d.len() {
        Err(TtfError::Truncated)
    } else {
        let flag = be16(d, p as int) as u16;
        let gi = be16(d, (p + 2) as int);
        if gi >= offs.len() {
            Err(TtfError::BadGlyphIndex)
        } else if p + (if flag & 1 == 1 { 8nat } else { 6nat }) > d.len() {
            Err(TtfError::Truncated)
        } else {
            let (dx, dy, q) = part_offset(d, flag, p);
            let (fac, flen) = part_factors(d, flag, q);
            if (flag >> 1u16) & 1 == 0 {
                Err(TtfError::PointMatching)
            } else if q + flen > d.len() {
                Err(TtfError::Truncated)
            } else {
                match ttf_glyph(d, offs, gi, (depth - 1) as nat) {
                    Err(e) => Err(e),
                    Ok((_gm, gpts, gends, _gix, gpend)) => {
                        let direct = flen == 0 && gpend.len() == 0;
                        let moved = if direct {
                            shift_points(gpts, dx, dy)
                        } else {
                            Ok(gpts)
                        };
                        let later = if direct {
                            Ok(Seq::empty())
                        } else {
                            shift_placements(gpend, pts.len())
                        };
                        match moved {
                            Err(e) => Err(e),
                            Ok(mpts) => match shift_ends(gends, pts.len()) {
                                Err(e) => Err(e),
                                Ok(sends) => match later {
                                    Err(e) => Err(e),
                                    Ok(spend) => {
                                        let npend = if direct {
                                            pend
                                        } else {
                                            pend + spend.push(
                                                Placement {
                                                    start: pts.len() as usize,
                                                    len: gpts.len() as usize,
                                                    dx,
                                                    dy,
                                                    ihat_x: fac.0,
                                                    ihat_y: fac.1,
                                                    jhat_x: fac.2,
                                                    jhat_y: fac.3,
                                                },
                                            )
                                        };
                                        if (flag >> 5u16) & 1 == 1 {
                                            ttf_components(
                                                d,
                                                offs,
                                                q + flen,
                                                depth,
                                                pts + mpts,
                                                ends + sends,
                                                npend,
                                            )
                                        } else {
                                            Ok((pts + mpts, ends + sends, npend))
                                        }
                                    },
                                },
                            },
                        }
                    },
                }
            }
        }
    }
}

/// Moves `ps` by `(dx, dy)`, as `shift_points` says.
fn shift_points_exec(ps: &Vec<(i16, i16, bool)>, dx: i16, dy: i16) -> (r: Result<
    Vec<(i16, i16, bool)>,
    TtfError,
>)
    ensures
        match shift_points(ps@, dx, dy) {
            Ok(s) => r matches Ok(v) && v@ == s,
            Err(e) => r matches Err(re) && re == e,
        },
{
    let mut out: Vec<(i16, i16, bool)> = Vec::new();
    let mut i: usize = 0;
    while i < ps.len()
        invariant
            i <= ps@.len(),
            out@.len() == i,
            forall|j: int| 0 <= j < i ==> shift_fits(#[trigger] ps@[j], dx, dy),
            forall|j: int|
                0 <= j < i ==> #[trigger] out@[j] == ((ps@[j].0 + dx) as i16, (ps@[j].1 + dy) as i16, ps@[j].2),
        decreases ps@.len() - i,
    {
        let q = ps[i];
        let nx: i32 = q.0 as i32 + dx as i32;
        let ny: i32 = q.1 as i32 + dy as i32;
        if nx < -32768 || nx > 32767 || ny < -32768 || ny > 32767 {
            assert(!shift_fits(ps@[i as int], dx, dy));
            return Err(TtfError::PointRange);
        }
        out.push((nx as i16, ny as i16, q.2));
        i = i + 1;
    }
    assert(out@ =~= Seq::new(ps@.len(), |j: int| ((ps@[j].0 + dx) as i16, (ps@[j].1 + dy) as i16, ps@[j].2)));
    Ok(out)
}

/// Raises contour ends by `base`, as `shift_ends` says.
fn shift_ends_exec(ends: &Vec<u16>, base: usize) -> (r: Result<Vec<u16>, TtfError>)
    ensures
        match shift_ends(ends@, base as nat) {
            Ok(s) => r matches Ok(v) && v@ == s,
            Err(e) => r matches Err(re) && re == e,
        },
{
    let b: u32 = (base % 0x1_0000) as u32;
    let mut out: Vec<u16> = Vec::new();
    let mut i: usize = 0;
    while i < ends.len()
        invariant
            i <= ends@.len(),
            b == base % 0x1_0000,
            out@.len() == i,
            forall|j: int| 0 <= j < i ==> #[trigger] ends@[j] + base % 0x1_0000 <= u16::MAX,
            forall|j: int| 0 <= j < i ==> #[trigger] out@[j] == (ends@[j] + base % 0x1_0000) as u16,
        decreases ends@.len() - i,
    {
        let v: u32 = ends[i] as u32 + b;
        if v > 0xFFFF {
            return Err(TtfError::Overflow);
        }
        out.push(v as u16);
        i = i + 1;
    }
    assert(out@ =~= Seq::new(ends@.len(), |j: int| (ends@[j] + base % 0x1_0000) as u16));
    Ok(out)
}

/// Moves placements on by `base`, as `shift_placements` says.
fn shift_placements_exec(ps: &Vec<Placement>, base: usize) -> (r: Result<Vec<Placement>, TtfError>)
    ensures
        match shift_placements(ps@, base as nat) {
            Ok(s) => r matches Ok(v) && v@ == s,
            Err(e) => r matches Err(re) && re == e,
        },
{
    let mut out: Vec<Placement> = Vec::new();
    let mut i: usize = 0;
    while i < ps.len()
        invariant
            i <= ps@.len(),
            out@.len() == i,
            forall|j: int| 0 <= j < i ==> #[trigger] ps@[j].start + base <= usize::MAX,
            forall|j: int| 0 <= j < i ==> #[trigger] out@[j] == moved_placement(ps@[j], base as nat),
        decreases ps@.len() - i,
    {
        let q = ps[i];
        if q.start > usize::MAX - base {
            return Err(TtfError::Overflow);
        }
        out.push(
            Placement {
                start: q.start + base,
                len: q.len,
                dx: q.dx,
                dy: q.dy,
                ihat_x: q.ihat_x,
                ihat_y: q.ihat_y,
                jhat_x: q.jhat_x,
                jhat_y: q.jhat_y,
            },
        );
        i = i + 1;
    }
    assert(out@ =~= Seq::new(ps@.len(), |j: int| moved_placement(ps@[j], base as nat)));
    Ok(out)
}

/// Reads the simple glyph at `off` with `cc` contours, as `ttf_simple_glyph` says.
fn read_simple_glyph(d: &[u8], off: u64, cc: u16) -> (r: Result<GlyphData, TtfError>)
    requires
        off + 2 <= d@.len(),
    ensures
        match ttf_simple_glyph(d@, off as nat, cc as nat) {
            Ok((m, pts, ends, ix)) => r matches Ok(g) && g@ == (m, pts, ends, ix, Seq::<Placement>::empty()),
            Err(e) => r matches Err(re) && re == e,
        },
{
    let n = d.len() as u64;
    if n - off < 10 + 2 * cc as u64 {
        return Err(TtfError::Truncated);
    }
    let e = off + 10;
    let ghost full = Seq::new(cc as nat, |j: int| be16(d@, e + 2 * j) as u16);
    let mut ends: Vec<u16> = Vec::new();
    let mut top: u16 = 0;
    let mut k: u16 = 0;
    while k < cc
        invariant
            k <= cc,
            e + 2 * cc <= n,
            n == d@.len(),
            n <= usize::MAX,
            full == Seq::new(cc as nat, |j: int| be16(d@, e + 2 * j) as u16),
            ends@ == full.take(k as int),
            top == max_prefix(full, k as nat),
        decreases cc - k,
    {
        let v = read_be16(d, (e + 2 * k as u64) as usize);
        if v > top {
            top = v;
        }
        ends.push(v);
        k = k + 1;
        assert(ends@ =~= full.take(k as int));
    }
    assert(ends@ =~= full);
    if top == u16::MAX {
        return Err(TtfError::Overflow);
    }
    let ip = e + 2 * cc as u64;
    if n - ip < 2 {
        return Err(TtfError::Truncated);
    }
    let ninstr = read_be16(d, ip as usize) as u64;
    let np = top as u32 + 1;
    if n - (ip + 2) < ninstr {
        proof {
            lemma_read_flags(d@, (ip + 2 + ninstr) as nat, 0, np as nat, Seq::empty());
        }
        return Err(TtfError::Truncated);
    }
    let p = ip + 2 + ninstr;
    let (flags, p2) = match read_flags_exec(d, p, np) {
        Err(e) => return Err(e),
        Ok(v) => v,
    };
    let (xs, p3) = match read_coord_pass_exec(d, p2, &flags, 1, 4) {
        Err(e) => return Err(e),
        Ok(v) => v,
    };
    let (ys, _p4) = match read_coord_pass_exec(d, p3, &flags, 2, 5) {
        Err(e) => return Err(e),
        Ok(v) => v,
    };
    let mut points: Vec<(i16, i16, bool)> = Vec::new();
    let mut i: usize = 0;
    while i < flags.len()
        invariant
            i <= flags@.len(),
            xs@.len() == flags@.len(),
            ys@.len() == flags@.len(),
            points@.len() == i,
            forall|j: int| 0 <= j < i ==> #[trigger] points@[j] == zip_points(xs@, ys@, flags@)[j],
        decreases flags@.len() - i,
    {
        points.push((xs[i], ys[i], flags[i] & 1 == 1));
        i = i + 1;
    }
    assert(points@ =~= zip_points(xs@, ys@, flags@));
    let oi = off as usize;
    Ok(
        GlyphData {
            metric: GlyphMetrics {
                xmin: read_be16(d, oi + 2) as i16,
                ymin: read_be16(d, oi + 4) as i16,
                xmax: read_be16(d, oi + 6) as i16,
                ymax: read_be16(d, oi + 8) as i16,
                advance_width: 0,
                left_side_bearing: 0,
                advance_height: 0,
                top_side_bearing: 0,
            },
            points,
            contour_end_idxs: ends,
            index: 0,
            placements: Vec::new(),
        },
    )
}

/// A glyph with no outline, as `empty_glyph` says.
pub fn empty_glyph_data(gi: usize) -> (g: GlyphData)
    ensures
        g@ == empty_glyph(gi as nat),
{
    GlyphData {
        metric: GlyphMetrics {
            xmin: 0,
            ymin: 0,
            xmax: 0,
            ymax: 0,
            advance_width: 0,
            left_side_bearing: 0,
            advance_height: 0,
            top_side_bearing: 0,
        },
        points: Vec::new(),
        contour_end_idxs: Vec::new(),
        index: gi as u16,
        placements: Vec::new(),
    }
}

/// Reads glyph `gi`, composite parts nesting at most `depth` deep, as `ttf_glyph` says.
pub fn read_glyph(d: &[u8], offs: &[u32], gi: usize, depth: u32) -> (r: Result<GlyphData, TtfError>)
    ensures
        match ttf_glyph(d@, offs@, gi as nat, depth as nat) {
            Ok(g) => r matches Ok(rg) && rg@ == g,
            Err(e) => r matches Err(re) && re == e,
        },
    decreases depth, 1nat,
{
    if gi >= offs.len() || offs.len() - gi < 2 {
        return Err(TtfError::BadGlyphIndex);
    }
    let off = offs[gi] as u64;
    let n = d.len() as u64;
    if off == offs[gi + 1] as u64 {
        return Ok(empty_glyph_data(gi));
    }
    if off + 2 > n {
        return Err(TtfError::Truncated);
    }
    let cc = read_be16(d, off as usize) as i16;
    if cc == 0 {
        Ok(empty_glyph_data(gi))
    } else if cc > 0 {
        read_simple_glyph(d, off, cc as u16)
    } else if depth == 0 {
        Err(TtfError::TooDeep)
    } else if n - off < 10 {
        Err(TtfError::Truncated)
    } else {
        match read_components(d, offs, off + 10, depth) {
            Err(e) => Err(e),
            Ok((points, ends, placements)) => {
                let oi = off as usize;
                Ok(
                    GlyphData {
                        metric: GlyphMetrics {
                            xmin: read_be16(d, oi + 2) as i16,
                            ymin: read_be16(d, oi + 4) as i16,
                            xmax: read_be16(d, oi + 6) as i16,
                            ymax: read_be16(d, oi + 8) as i16,
                            advance_width: 0,
                            left_side_bearing: 0,
                            advance_height: 0,
                            top_side_bearing: 0,
                        },
                        points,
                        contour_end_idxs: ends,
                        index: 0,
                        placements,
                    },
                )
            },
        }
    }
}

/// Reads the parts of a composite glyph from `p0` on, as `ttf_components` says.
#[verifier::rlimit(80)]
fn read_components(d: &[u8], offs: &[u32], p0: u64, depth: u32) -> (r: Result<
    (Vec<(i16, i16, bool)>, Vec<u16>, Vec<Placement>),
    TtfError,
>)
    requires
        p0 <= d@.len(),
    ensures
        match ttf_components(d@, offs@, p0 as nat, depth as nat, Seq::empty(), Seq::empty(), Seq::empty()) {
            Ok((a, b, c)) => r matches Ok((ra, rb, rc)) && ra@ == a && rb@ == b && rc@ == c,
            Err(e) => r matches Err(re) && re == e,
        },
    decreases depth, 0nat,
{
    let ghost total = ttf_components(
        d@,
        offs@,
        p0 as nat,
        depth as nat,
        Seq::empty(),
        Seq::empty(),
        Seq::empty(),
    );
    if depth == 0 {
        return Err(TtfError::TooDeep);
    }
    let n = d.len() as u64;
    let mut pts: Vec<(i16, i16, bool)> = Vec::new();
    let mut ends: Vec<u16> = Vec::new();
    let mut pend: Vec<Placement> = Vec::new();
    let mut p = p0;
    loop
        invariant
            p <= n,
            n == d@.len(),
            n <= usize::MAX,
            depth >= 1,
            total == ttf_components(d@, offs@, p as nat, depth as nat, pts@, ends@, pend@),
            total == ttf_components(
                d@,
                offs@,
                p0 as nat,
                depth as nat,
                Seq::empty(),
                Seq::empty(),
                Seq::empty(),
            ),
        decreases n - p,
    {
        if n - p < 4 {
            return Err(TtfError::Truncated);
        }
        let pi = p as usize;
        let flag = read_be16(d, pi);
        let gi = read_be16(d, pi + 2) as usize;
        if gi >= offs.len() {
            return Err(TtfError::BadGlyphIndex);
        }
        let words = flag & 1 == 1;
        if n - p < (if words { 8 } else { 6 }) {
            return Err(TtfError::Truncated);
        }
        let (dx, dy, q): (i16, i16, u64) = if words {
            (read_be16(d, pi + 4) as i16, read_be16(d, pi + 6) as i16, p + 8)
        } else {
            (d[pi + 4] as i8 as i16, d[pi + 5] as i8 as i16, p + 6)
        };
        let flen: u64 = if (flag >> 3u16) & 1 == 1 {
            2
        } else if (flag >> 6u16) & 1 == 1 {
            4
        } else if (flag >> 7u16) & 1 == 1 {
            8
        } else {
            0
        };
        if (flag >> 1u16) & 1 == 0 {
            return Err(TtfError::PointMatching);
        }
        if n - q < flen {
            return Err(TtfError::Truncated);
        }
        let qi = q as usize;
        let fac: (u16, u16, u16, u16) = if flen == 2 {
            let s = read_be16(d, qi);
            (s, 0, 0, s)
        } else if flen == 4 {
            (read_be16(d, qi), 0, 0, read_be16(d, qi + 2))
        } else if flen == 8 {
            (read_be16(d, qi), read_be16(d, qi + 2), read_be16(d, qi + 4), read_be16(d, qi + 6))
        } else {
            (UNIT_FACTOR, 0, 0, UNIT_FACTOR)
        };
        assert(part_offset(d@, flag, p as nat) == (dx, dy, q as nat));
        assert(part_factors(d@, flag, q as nat) == (fac, flen as nat));
        let g = match read_glyph(d, offs, gi, depth - 1) {
            Err(e) => return Err(e),
            Ok(g) => g,
        };
        let GlyphData { metric: _, points: gpts, contour_end_idxs: gends, index: _, placements: gpend } = g;
        let base = pts.len();
        let glen = gpts.len();
        let direct = flen == 0 && gpend.len() == 0;
        let mut mpts = if direct {
            match shift_points_exec(&gpts, dx, dy) {
                Err(e) => return Err(e),
                Ok(v) => v,
            }
        } else {
            gpts
        };
        let mut sends = match shift_ends_exec(&gends, base) {
            Err(e) => return Err(e),
            Ok(v) => v,
        };
        if !direct {
            let mut spend = match shift_placements_exec(&gpend, base) {
                Err(e) => return Err(e),
                Ok(v) => v,
            };
            spend.push(
                Placement {
                    start: base,
                    len: glen,
                    dx,
                    dy,
                    ihat_x: fac.0,
                    ihat_y: fac.1,
                    jhat_x: fac.2,
                    jhat_y: fac.3,
                },
            );
            pend.append(&mut spend);
        }
        pts.append(&mut mpts);
        ends.append(&mut sends);
        if (flag >> 5u16) & 1 == 1 {
            p = q + flen;
        } else {
            return Ok((pts, ends, pend));
        }
    }
}

/// Whether the outline of a glyph that `c` maps to is read: for any character but an ASCII
/// control character or the space, whose outlines are never drawn.
pub open spec fn wants_outline(c: char) -> bool {
    char_code(c) >= 0x80 || (0x21 <= char_code(c) <= 0x7E)
}

/// `g` with its spacing `h` (advance width, left side bearing) and `v` (advance height, top
/// side bearing), and index `i`.
pub open spec fn spaced(g: GlyphRead, h: (i16, i16), v: (i16, i16), i: nat) -> GlyphRead {
    (
        GlyphMetrics {
            xmin: g.0.xmin,
            ymin: g.0.ymin,
            xmax: g.0.xmax,
            ymax: g.0.ymax,
            advance_width: h.0,
            left_side_bearing: h.1,
            advance_height: v.0,
            top_side_bearing: v.1,
        },
        g.1,
        g.2,
        i as u16,
        g.4,
    )
}

#[verifier::opaque]
/// What reading glyph `i` of the font gives, with its spacing and index.
pub open spec fn glyph_at(
    d: Seq<u8>,
    offs: Seq<u32>,
    hm: Seq<(i16, i16)>,
    vm: Seq<(i16, i16)>,
    uni: Seq<char>,
    i: nat,
) -> Result<GlyphRead, TtfError> {
    let g = if wants_outline(uni[i as int]) {
        ttf_glyph(d, offs, i, MAX_GLYPH_DEPTH as nat)
    } else {
        Ok(empty_glyph(0))
    };
    match g {
        Err(e) => Err(e),
        Ok(g) => Ok(spaced(g, hm[i as int], vm[i as int], i)),
    }
}

/// What reading the first `k` glyphs of the font gives.
pub open spec fn ttf_glyphs(
    d: Seq<u8>,
    offs: Seq<u32>,
    hm: Seq<(i16, i16)>,
    vm: Seq<(i16, i16)>,
    uni: Seq<char>,
    k: nat,
) -> Result<Seq<GlyphRead>, TtfError>
    decreases k,
{
    if k == 0 {
        Ok(Seq::empty())
    } else {
        match ttf_glyphs(d, offs, hm, vm, uni, (k - 1) as nat) {
            Err(e) => Err(e),
            Ok(s) => match glyph_at(d, offs, hm, vm, uni, (k - 1) as nat) {
                Err(e) => Err(e),
                Ok(g) => Ok(s.push(g)),
            },
        }
    }
}

/// The glyphs of `v`, each by its view.
pub open spec fn glyph_views(v: Seq<GlyphData>) -> Seq<GlyphRead> {
    Seq::new(v.len(), |i: int| v[i]@)
}

proof fn lemma_glyphs_err_stays(
    d: Seq<u8>,
    offs: Seq<u32>,
    hm: Seq<(i16, i16)>,
    vm: Seq<(i16, i16)>,
    uni: Seq<char>,
    k: nat,
    m: nat,
)
    requires
        k <= m,
        ttf_glyphs(d, offs, hm, vm, uni, k) is Err,
    ensures
        ttf_glyphs(d, offs, hm, vm, uni, m) == ttf_glyphs(d, offs, hm, vm, uni, k),
    decreases m,
{
    if m > k {
        lemma_glyphs_err_stays(d, offs, hm, vm, uni, k, (m - 1) as nat);
    }
}

/// Reading the glyphs gives one glyph per index, each carrying its own index, and no outline
/// for a glyph of an ASCII control character or the space.
pub proof fn lemma_glyph_indices(
    d: Seq<u8>,
    offs: Seq<u32>,
    hm: Seq<(i16, i16)>,
    vm: Seq<(i16, i16)>,
    uni: Seq<char>,
    k: nat,
)
    requires
        ttf_glyphs(d, offs, hm, vm, uni, k) is Ok,
    ensures
        ({
            let gs = ttf_glyphs(d, offs, hm, vm, uni, k)->Ok_0;
            &&& gs.len() == k
            &&& forall|i: int| 0 <= i < k ==> (#[trigger] gs[i]).3 == i as u16
            &&& forall|i: int| 0 <= i < k && !wants_outline(uni[i]) ==> (#[trigger] gs[i]).1.len() == 0
        }),
    decreases k,
{
    if k > 0 {
        lemma_glyph_indices(d, offs, hm, vm, uni, (k - 1) as nat);
        reveal(glyph_at);
    }
}

/// Reads all glyphs of the font, as `ttf_glyphs` says.
fn read_glyphs(d: &[u8], offs: &[u32], hm: &Vec<(i16, i16)>, vm: &Vec<(i16, i16)>, uni: &Vec<char>) -> (r: Result<
    Vec<GlyphData>,
    TtfError,
>)
    requires
        1 <= offs@.len() <= 0x1_0000,
        hm@.len() == offs@.len() - 1,
        vm@.len() == offs@.len() - 1,
        uni@.len() == offs@.len() - 1,
    ensures
        match ttf_glyphs(d@, offs@, hm@, vm@, uni@, (offs@.len() - 1) as nat) {
            Ok(s) => r matches Ok(v) && glyph_views(v@) == s,
            Err(e) => r matches Err(re) && re == e,
        },
        r matches Ok(v) ==> v@.len() == offs@.len() - 1,
{
    let ng = offs.len() - 1;
    let mut out: Vec<GlyphData> = Vec::new();
    let mut i: usize = 0;
    assert(glyph_views(out@) =~= Seq::<GlyphRead>::empty());
    while i < ng
        invariant
            i <= ng,
            ng == offs@.len() - 1,
            ng < 0x1_0000,
            hm@.len() == ng,
            vm@.len() == ng,
            uni@.len() == ng,
            ttf_glyphs(d@, offs@, hm@, vm@, uni@, i as nat) == Ok::<Seq<GlyphRead>, TtfError>(
                glyph_views(out@),
            ),
            out@.len() == i,
        decreases ng - i,
    {
        let c = uni[i] as u32;
        assert(char_code(uni@[i as int]) == c);
        let read = if c >= 0x80 || (0x21 <= c && c <= 0x7E) {
            read_glyph(d, offs, i, MAX_GLYPH_DEPTH)
        } else {
            Ok(empty_glyph_data(0))
        };
        match read {
            Err(e) => {
                assert(glyph_at(d@, offs@, hm@, vm@, uni@, i as nat) == Err::<GlyphRead, TtfError>(e)) by {
                    reveal(glyph_at);
                }
                proof {
                    lemma_glyphs_err_stays(d@, offs@, hm@, vm@, uni@, (i + 1) as nat, ng as nat);
                }
                return Err(e);
            },
            Ok(mut g) => {
                let ghost gv = g@;
                let (aw, lsb) = hm[i];
                let (ah, tsb) = vm[i];
                g.metric.advance_width = aw;
                g.metric.left_side_bearing = lsb;
                g.metric.advance_height = ah;
                g.metric.top_side_bearing = tsb;
                g.index = i as u16;
                assert(g@ == spaced(gv, hm@[i as int], vm@[i as int], i as nat));
                assert(glyph_at(d@, offs@, hm@, vm@, uni@, i as nat) == Ok::<GlyphRead, TtfError>(g@)) by {
                    reveal(glyph_at);
                }
                let ghost before = glyph_views(out@);
                let ghost gv2 = g@;
                out.push(g);
                assert(glyph_views(out@) =~= before.push(gv2));
            },
        }
        i = i + 1;
    }
    Ok(out)
}

/// The kerning pairs `(first << 16 | second) -> value` of the `n` pair records from `p` on,
/// put into `m` in order.
pub open spec fn kern_pairs(d: Seq<u8>, p: nat, n: nat, m: Map<u32, i16>) -> Map<u32, i16>
    decreases n,
{
    if n == 0 {
        m
    } else {
        kern_pairs(
            d,
            p + 6,
            (n - 1) as nat,
            m.insert((be16(d, p as int) * 0x1_0000 + be16(d, (p + 2) as int)) as u32, bei16(d, (p + 4) as int)),
        )
    }
}

/// What reading `k` kerning subtables from `p` on gives, after the pairs `m` of those before.
/// Format 0 gives pairs, format 2 is refused, any other is passed over.
pub open spec fn kern_tables(d: Seq<u8>, p: nat, k: nat, m: Map<u32, i16>) -> Result<Map<u32, i16>, TtfError>
    decreases k,
{
    if k == 0 {
        Ok(m)
    } else if p + 6 > d.len() {
        Err(TtfError::Truncated)
    } else {
        let format = be16(d, (p + 4) as int) % 0x100;
        if format == 0 {
            if p + 8 > d.len() {
                Err(TtfError::Truncated)
            } else {
                let np = be16(d, (p + 6) as int);
                if np > 0 && p + 14 + 6 * np > d.len() {
                    Err(TtfError::Truncated)
                } else {
                    kern_tables(d, p + 14 + 6 * np, (k - 1) as nat, kern_pairs(d, p + 14, np, m))
                }
            }
        } else if format == 2 {
            Err(TtfError::KernFormat2)
        } else {
            kern_tables(d, p + 6, (k - 1) as nat, m)
        }
    }
}

/// What reading the `kern` table at `kern` gives.
pub open spec fn ttf_kern(d: Seq<u8>, kern: nat) -> Result<Map<u32, i16>, TtfError> {
    if kern + 2 > d.len() {
        Err(TtfError::Truncated)
    } else if be16(d, kern as int) != 0 {
        Err(TtfError::BadKernVersion)
    } else if kern + 4 > d.len() {
        Err(TtfError::Truncated)
    } else if be16(d, (kern + 2) as int) == 0 {
        Err(TtfError::NoKernTables)
    } else {
        kern_tables(d, kern + 4, be16(d, (kern + 2) as int), Map::empty())
    }
}

/// Reads the `kern` table at `kern`, as `ttf_kern` says.
fn read_kern_table(d: &[u8], kern: u32) -> (r: Result<HashMap<u32, i16>, TtfError>)
    ensures
        match ttf_kern(d@, kern as nat) {
            Ok(m) => r matches Ok(h) && h@ == m,
            Err(e) => r matches Err(re) && re == e,
        },
{
    let n = d.len() as u64;
    let k0 = kern as u64;
    if k0 + 2 > n {
        return Err(TtfError::Truncated);
    }
    if read_be16(d, kern as usize) != 0 {
        return Err(TtfError::BadKernVersion);
    }
    if k0 + 4 > n {
        return Err(TtfError::Truncated);
    }
    let nt = read_be16(d, kern as usize + 2);
    if nt == 0 {
        return Err(TtfError::NoKernTables);
    }
    let ghost total = kern_tables(d@, (k0 + 4) as nat, nt as nat, Map::empty());
    let mut m: HashMap<u32, i16> = HashMap::new();
    let mut p: u64 = k0 + 4;
    let mut t: u16 = 0;
    while t < nt
        invariant
            t <= nt,
            p <= n,
            n == d@.len(),
            n <= usize::MAX,
            total == kern_tables(d@, p as nat, (nt - t) as nat, m@),
            total == ttf_kern(d@, kern as nat),
        decreases nt - t,
    {
        if n - p < 6 {
            return Err(TtfError::Truncated);
        }
        let format = read_be16(d, p as usize + 4) % 0x100;
        if format == 0 {
            if n - p < 8 {
                return Err(TtfError::Truncated);
            }
            let np = read_be16(d, p as usize + 6) as u64;
            if np > 0 && (n - p < 14 || n - p - 14 < 6 * np) {
                return Err(TtfError::Truncated);
            }
            if np == 0 && n - p < 14 {
                // the pairs' header runs past the end, which only a further subtable reads
                if t + 1 < nt {
                    proof {
                        assert(kern_tables(d@, (p + 14) as nat, (nt - t - 1) as nat, m@)
                            == Err::<Map<u32, i16>, TtfError>(TtfError::Truncated));
                    }
                    return Err(TtfError::Truncated);
                }
                return Ok(m);
            }
            let ghost after = kern_pairs(d@, (p + 14) as nat, np as nat, m@);
            let mut q: u64 = p + 14;
            let mut j: u64 = 0;
            while j < np
                invariant
                    j <= np,
                    q == p + 14 + 6 * j,
                    p + 14 + 6 * np <= n,
                    n == d@.len(),
                    n <= usize::MAX,
                    after == kern_pairs(d@, q as nat, (np - j) as nat, m@),
                decreases np - j,
            {
                let first = read_be16(d, q as usize) as u32;
                let second = read_be16(d, q as usize + 2) as u32;
                let value = #[verifier::truncate] (read_be16(d, q as usize + 4) as i16);
                m.insert(first * 0x1_0000 + second, value);
                q = q + 6;
                j = j + 1;
            }
            p = q;
        } else if format == 2 {
            return Err(TtfError::KernFormat2);
        } else {
            p = p + 6;
        }
        t = t + 1;
    }
    Ok(m)
}

/// What reading the kerning pairs gives: those of the `kern` table, or those of the glyph
/// positioning table where there is no `kern` table or it gives none.
pub open spec fn ttf_kernings(d: Seq<u8>, t: TableOffs) -> Result<Map<u32, i16>, TtfError> {
    if t.kern == 0 {
        gpos_map(d, t.gpos as nat)
    } else {
        match ttf_kern(d, t.kern as nat) {
            Err(e) => Err(e),
            Ok(m) => if m.len() == 0 {
                gpos_map(d, t.gpos as nat)
            } else {
                Ok(m)
            },
        }
    }
}

/// A TrueType font as the engine reads it.
pub struct Ttf {
    pub head: Head,
    pub ascent: i16,
    pub descent: i16,
    pub vert_ascent: i16,
    pub vert_descent: i16,
    pub line_gap: i16,
    /// `(first_glyph << 16 | second_glyph) -> kerning`, in font units.
    pub kernings: HashMap<u32, i16>,
    pub glyphs: Vec<GlyphData>,
    pub idx2uni: Vec<char>,
}

/// What a font reads as.
pub struct TtfModel {
    pub head: Head,
    pub ascent: i16,
    pub descent: i16,
    pub vert_ascent: i16,
    pub vert_descent: i16,
    pub line_gap: i16,
    pub kernings: Map<u32, i16>,
    pub glyphs: Seq<GlyphRead>,
    pub idx2uni: Seq<char>,
}

impl View for Ttf {
    type V = TtfModel;

    open spec fn view(&self) -> TtfModel {
        TtfModel {
            head: self.head,
            ascent: self.ascent,
            descent: self.descent,
            vert_ascent: self.vert_ascent,
            vert_descent: self.vert_descent,
            line_gap: self.line_gap,
            kernings: self.kernings@,
            glyphs: glyph_views(self.glyphs@),
            idx2uni: self.idx2uni@,
        }
    }
}

/// What reading the font file `d` gives: its tables, head, glyph locations, character map,
/// horizontal and vertical metrics, glyphs and kerning pairs, in this order, or the first
/// fault.
pub open spec fn ttf_parse(d: Seq<u8>) -> Result<TtfModel, TtfError> {
    match ttf_tables(d) {
        Err(e) => Err(e),
        Ok(t) => match ttf_head(d, t) {
            Err(e) => Err(e),
            Ok(h) => match ttf_glyph_offs(d, t, h) {
                Err(e) => Err(e),
                Ok(offs) => match ttf_cmap(d, t.cmap as nat, h.num_glyphs as nat) {
                    Err(e) => Err(e),
                    Ok(uni) => match ttf_metrics(d, t.hhea, t.hmtx, h.num_glyphs as nat, false) {
                        Err(e) => Err(e),
                        Ok((asc, desc, gap, hm)) => match ttf_metrics(
                            d,
                            t.vhea,
                            t.vmtx,
                            h.num_glyphs as nat,
                            true,
                        ) {
                            Err(e) => Err(e),
                            Ok((vasc, vdesc, _vgap, vm)) => match ttf_glyphs(
                                d,
                                offs,
                                hm,
                                vm,
                                uni,
                                h.num_glyphs as nat,
                            ) {
                                Err(e) => Err(e),
                                Ok(gs) => match ttf_kernings(d, t) {
                                    Err(e) => Err(e),
                                    Ok(k) => Ok(
                                        TtfModel {
                                            head: h,
                                            ascent: asc,
                                            descent: desc,
                                            vert_ascent: vasc,
                                            vert_descent: vdesc,
                                            line_gap: gap,
                                            kernings: k,
                                            glyphs: gs,
                                            idx2uni: uni,
                                        },
                                    ),
                                },
                            },
                        },
                    },
                },
            },
        },
    }
}

impl Ttf {
    /// Reads a font from the bytes of its file, as `ttf_parse` says.
    pub fn parse(d: &[u8]) -> (r: Result<Ttf, TtfError>)
        ensures
            match ttf_parse(d@) {
                Ok(m) => r matches Ok(f) && f@ == m,
                Err(e) => r matches Err(re) && re == e,
            },
            r matches Ok(f) ==> f.glyphs@.len() == f.idx2uni@.len(),
    {
        let t = match read_table_offs(d) {
            Err(e) => return Err(e),
            Ok(t) => t,
        };
        let h = match read_head(d, &t) {
            Err(e) => return Err(e),
            Ok(h) => h,
        };
        let offs = match read_glyph_offs(d, &t, &h) {
            Err(e) => return Err(e),
            Ok(v) => v,
        };
        let uni = match read_idx2uni(d, t.cmap, h.num_glyphs) {
            Err(e) => return Err(e),
            Ok(v) => v,
        };
        let ng = h.num_glyphs as usize;
        let (asc, desc, gap, hm) = match read_metrics(d, t.hhea, t.hmtx, ng, false) {
            Err(e) => return Err(e),
            Ok(v) => v,
        };
        let (vasc, vdesc, _vgap, vm) = match read_metrics(d, t.vhea, t.vmtx, ng, true) {
            Err(e) => return Err(e),
            Ok(v) => v,
        };
        let glyphs = match read_glyphs(d, offs.as_slice(), &hm, &vm, &uni) {
            Err(e) => return Err(e),
            Ok(v) => v,
        };
        let kernings = if t.kern == 0 {
            match read_gpos_map(d, t.gpos) {
                Err(e) => return Err(e),
                Ok(m) => m,
            }
        } else {
            let m = match read_kern_table(d, t.kern) {
                Err(e) => return Err(e),
                Ok(m) => m,
            };
            if m.len() == 0 {
                match read_gpos_map(d, t.gpos) {
                    Err(e) => return Err(e),
                    Ok(m) => m,
                }
            } else {
                m
            }
        };
        Ok(
            Ttf {
                head: h,
                ascent: asc,
                descent: desc,
                vert_ascent: vasc,
                vert_descent: vdesc,
                line_gap: gap,
                kernings,
                glyphs,
                idx2uni: uni,
            },
        )
    }
}

proof fn lemma_be16_bytes(d: Seq<u8>, i: int)
    requires
        0 <= i,
        i + 2 <= d.len(),
    ensures
        be16(d, i) == d[i] as nat * 256 + d[i + 1] as nat,
{
    crate::util::bytes::lemma_be_value_2(d.subrange(i, i + 2));
}

/// How a format 4 character map finds the glyph of code `c` in segment `i`, in the bytes of the
/// subtable at `at` with `seg` segments (end codes from `at + 14`, then a reserved pad, start
/// codes, deltas and range offsets, each an array of `seg` big-endian 16-bit values): where the
/// range offset is 0 the glyph is `c + delta` modulo 65536; otherwise the glyph array entry for
/// `c` is the big-endian 16-bit value `2 * (c - start)` bytes past where the range offset points,
/// so that consecutive codes read consecutive entries, and a nonzero entry gets the delta added
/// modulo 65536 while 0 stays the missing glyph.
pub proof fn lemma_f4_glyph_lookup(d: Seq<u8>, at: nat, seg: nat, i: nat, c: nat)
    requires
        at + 16 + 8 * seg <= d.len(),
        i < seg,
    ensures
        ({
            let sa = (at + 16 + 2 * seg + 2 * i) as int;
            let da = (at + 16 + 4 * seg + 2 * i) as int;
            let ra = (at + 16 + 6 * seg + 2 * i) as int;
            let start = d[sa] as nat * 256 + d[sa + 1] as nat;
            let delta = d[da] as nat * 256 + d[da + 1] as nat;
            let roff = d[ra] as nat * 256 + d[ra + 1] as nat;
            &&& roff == 0 ==> f4_glyph(d, at, seg, i, c) == Ok::<nat, TtfError>((c + delta) % 0x1_0000)
            &&& roff != 0 && c >= start ==> {
                let loc: int = ra + roff + 2 * (c - start);
                if loc + 2 > d.len() {
                    f4_glyph(d, at, seg, i, c) == Err::<nat, TtfError>(TtfError::Truncated)
                } else {
                    let v = d[loc] as nat * 256 + d[loc + 1] as nat;
                    f4_glyph(d, at, seg, i, c) == Ok::<nat, TtfError>(
                        if v != 0 {
                            (v + delta) % 0x1_0000
                        } else {
                            0
                        },
                    )
                }
            }
        }),
{
    let sa = (at + 16 + 2 * seg + 2 * i) as int;
    let da = (at + 16 + 4 * seg + 2 * i) as int;
    let ra = (at + 16 + 6 * seg + 2 * i) as int;
    lemma_be16_bytes(d, sa);
    lemma_be16_bytes(d, da);
    lemma_be16_bytes(d, ra);
    let start = d[sa] as nat * 256 + d[sa + 1] as nat;
    let roff = d[ra] as nat * 256 + d[ra + 1] as nat;
    if roff != 0 && c >= start {
        let loc: int = ra + roff + 2 * (c - start);
        if loc + 2 <= d.len() {
            lemma_be16_bytes(d, loc);
        }
    }
}

/// The four arrays of a format 4 subtable at `at` with `seg` segments, each of `seg` big-endian
/// 16-bit values: the end codes right after the 14 bytes of header, then (past a 2-byte pad) the
/// start codes, the deltas and the range offsets, so that segment `i` has its entries `2 * i`
/// bytes into each.
pub proof fn lemma_f4_segment_fields(d: Seq<u8>, at: nat, seg: nat, i: nat)
    requires
        at + 16 + 8 * seg <= d.len(),
        i < seg,
    ensures
        ({
            let e = (at + 14 + 2 * i) as int;
            let st = (at + 16 + 2 * seg + 2 * i) as int;
            let dl = (at + 16 + 4 * seg + 2 * i) as int;
            &&& f4_end(d, at, seg, i) == d[e] as nat * 256 + d[e + 1] as nat
            &&& f4_start(d, at, seg, i) == d[st] as nat * 256 + d[st + 1] as nat
            &&& f4_delta(d, at, seg, i) == d[dl] as nat * 256 + d[dl + 1] as nat
        }),
        f4_roff_at(at, seg, i) == at + 16 + 6 * seg + 2 * i,
{
    lemma_be16_bytes(d, (at + 14 + 2 * i) as int);
    lemma_be16_bytes(d, (at + 16 + 2 * seg + 2 * i) as int);
    lemma_be16_bytes(d, (at + 16 + 4 * seg + 2 * i) as int);
}

/// Mapping the codes `cur..=end` of a format 4 segment looks up every one of them, each giving
/// a glyph of the font, and records a character only for glyphs that had none: a glyph that had
/// one keeps it, and a glyph that changes gets the character of a code of the range that maps to
/// it.
pub proof fn lemma_f4_codes_maps_range(d: Seq<u8>, at: nat, seg: nat, i: nat, cur: nat, end: nat, st: CmapState)
    requires
        f4_codes(d, at, seg, i, cur, end, st) is Ok,
    ensures
        ({
            let st2 = f4_codes(d, at, seg, i, cur, end, st)->Ok_0;
            &&& st2.0.len() == st.0.len()
            &&& forall|c: nat|
                cur <= c <= end ==> #[trigger] f4_glyph(d, at, seg, i, c) is Ok && f4_glyph(d, at, seg, i, c)->Ok_0
                    < st.0.len()
            &&& forall|g: int| 0 <= g < st.0.len() && st.0[g] != unmapped() ==> #[trigger] st2.0[g] == st.0[g]
            &&& forall|g: int|
                0 <= g < st.0.len() && #[trigger] st2.0[g] != st.0[g] ==> exists|c: nat|
                    cur <= c <= end && #[trigger] f4_glyph(d, at, seg, i, c) == Ok::<nat, TtfError>(g as nat)
                        && st2.0[g] == char_of(c)
        }),
    decreases end + 1 - cur,
{
    reveal(f4_codes);
    if cur <= end {
        let g0 = f4_glyph(d, at, seg, i, cur)->Ok_0;
        let st1 = map_glyph(st, g0, cur)->Ok_0;
        lemma_f4_codes_maps_range(d, at, seg, i, cur + 1, end, st1);
        let st2 = f4_codes(d, at, seg, i, cur, end, st)->Ok_0;
        assert(st2 == f4_codes(d, at, seg, i, cur + 1, end, st1)->Ok_0);
        assert forall|c: nat| cur <= c <= end implies #[trigger] f4_glyph(d, at, seg, i, c) is Ok && f4_glyph(
            d,
            at,
            seg,
            i,
            c,
        )->Ok_0 < st.0.len() by {
            if c > cur {
                assert(cur + 1 <= c <= end);
            }
        }
        assert forall|g: int| 0 <= g < st.0.len() && #[trigger] st2.0[g] != st.0[g] implies exists|c: nat|
            cur <= c <= end && #[trigger] f4_glyph(d, at, seg, i, c) == Ok::<nat, TtfError>(g as nat) && st2.0[g]
                == char_of(c) by {
            if st2.0[g] != st1.0[g] {
                let c = choose|c: nat|
                    cur + 1 <= c <= end && #[trigger] f4_glyph(d, at, seg, i, c) == Ok::<nat, TtfError>(g as nat)
                        && st2.0[g] == char_of(c);
                assert(cur <= c <= end && f4_glyph(d, at, seg, i, c) == Ok::<nat, TtfError>(g as nat));
            } else {
                assert(g == g0);
                assert(f4_glyph(d, at, seg, i, cur) == Ok::<nat, TtfError>(g as nat));
            }
        }
    }
}

/// The `kern` table holds its big-endian version (0) and subtable count, then the subtables one
/// after another. A subtable holds its version, its length and its coverage, whose low byte (the
/// sixth byte of the subtable) is its format; a format 0 subtable then holds its pair count and
/// three 16-bit search fields, its 6-byte pairs start 14 bytes in, and the next subtable follows
/// the last pair.
pub proof fn lemma_kern_table_layout(d: Seq<u8>, kern: nat, p: nat, k: nat, m: Map<u32, i16>)
    ensures
        ({
            let q = kern as int;
            kern + 4 <= d.len() && d[q] == 0 && d[q + 1] == 0 && (d[q + 2] != 0 || d[q + 3] != 0) ==> ttf_kern(
                d,
                kern,
            ) == kern_tables(d, kern + 4, d[q + 2] as nat * 256 + d[q + 3] as nat, Map::empty())
        }),
        ({
            let pi = p as int;
            let format = d[pi + 5];
            let np = d[pi + 6] as nat * 256 + d[pi + 7] as nat;
            k > 0 && p + 8 <= d.len() ==> {
                &&& format == 0 && !(np > 0 && p + 14 + 6 * np > d.len()) ==> kern_tables(d, p, k, m) == kern_tables(
                    d,
                    p + 14 + 6 * np,
                    (k - 1) as nat,
                    kern_pairs(d, p + 14, np, m),
                )
                &&& format == 2 ==> kern_tables(d, p, k, m) == Err::<Map<u32, i16>, TtfError>(TtfError::KernFormat2)
            }
        }),
{
    if kern + 4 <= d.len() {
        lemma_be16_bytes(d, kern as int);
        lemma_be16_bytes(d, kern as int + 2);
    }
    if p + 8 <= d.len() {
        lemma_be16_bytes(d, p as int + 4);
        lemma_be16_bytes(d, p as int + 6);
        let pi = p as int;
        assert((d[pi + 4] as nat * 256 + d[pi + 5] as nat) % 0x100 == d[pi + 5] as nat);
    }
}

/// The `cmap` table holds its version and the big-endian count of its encoding records, which
/// follow 4 bytes in, 8 bytes each: platform, encoding, and the 32-bit offset of the subtable.
/// Of the records in order, a Unicode one (platform 0) of encoding 0, 1, 3 or 4 replaces the
/// choice where its encoding is greater than that of the Unicode record chosen before; a Windows
/// one (platform 3) of encoding 1 or 10 replaces it only while no Unicode record is chosen;
/// Macintosh and ISO records (1, 2) are passed over, and any other platform is refused.
pub proof fn lemma_cmap_record(d: Seq<u8>, cmap: nat, k: nat)
    ensures
        ({
            let r = (cmap + 4 + 8 * k) as int;
            let platform = d[r] as nat * 256 + d[r + 1] as nat;
            let enc = d[r + 2] as nat * 256 + d[r + 3] as nat;
            let sub = d[r + 4] as nat * 0x100_0000 + d[r + 5] as nat * 0x1_0000 + d[r + 6] as nat * 0x100 + d[r
                + 7] as nat;
            r + 8 <= d.len() ==> cmap_select(d, cmap, k + 1) == match cmap_select(d, cmap, k) {
                Err(e) => Err(e),
                Ok((off, sel)) => if platform == 0 {
                    if (enc == 0 || enc == 1 || enc == 3 || enc == 4) && enc > sel {
                        Ok((sub, enc as int))
                    } else {
                        Ok((off, sel))
                    }
                } else if platform == 1 || platform == 2 {
                    Ok((off, sel))
                } else if platform == 3 {
                    if sel == -1 && (enc == 1 || enc == 10) {
                        Ok((sub, sel))
                    } else {
                        Ok((off, sel))
                    }
                } else {
                    Err(TtfError::BadPlatform)
                },
            }
        }),
{
    let r = (cmap + 4 + 8 * k) as int;
    if r + 8 <= d.len() {
        lemma_be16_bytes(d, r);
        lemma_be16_bytes(d, r + 2);
        lemma_be32_bytes(d, r + 4);
    }
}

proof fn lemma_flag_bits(f: u8)
    by (bit_vector)
    ensures
        (f >> 1u8) & 1 == (f / 2) % 2,
        (f >> 2u8) & 1 == (f / 4) % 2,
        (f >> 3u8) & 1 == (f / 8) % 2,
        (f >> 4u8) & 1 == (f / 16) % 2,
        (f >> 5u8) & 1 == (f / 32) % 2,
        f & 1 == f % 2,
{
}

/// The flags of a simple glyph: a flag byte stands for one point, or, where its bit 3 (repeat) is
/// set, for one point and as many more as the next byte says, all with the same flag; a repeat
/// that runs past the last point is refused.
pub proof fn lemma_flag_step(d: Seq<u8>, p: nat, i: nat, np: nat, flags: Seq<u8>)
    requires
        i < np,
        p + 2 <= d.len(),
    ensures
        ({
            let f = d[p as int];
            let reps = d[p as int + 1] as nat;
            &&& (f / 8) % 2 == 0 ==> read_flags(d, p, i, np, flags) == read_flags(d, p + 1, i + 1, np, flags.push(f))
            &&& (f / 8) % 2 == 1 && i + reps >= np ==> read_flags(d, p, i, np, flags) == Err::<(Seq<u8>, nat), TtfError>(
                TtfError::BadFlags,
            )
            &&& (f / 8) % 2 == 1 && i + reps < np ==> read_flags(d, p, i, np, flags) == read_flags(
                d,
                p + 2,
                i + reps + 1,
                np,
                flags + Seq::new(reps + 1, |_k: int| f),
            )
        }),
{
    reveal(read_flags);
    lemma_flag_bits(d[p as int]);
}

/// One coordinate of a simple glyph, relative to the one before: where the flag's `short` bit
/// is set, one byte, added where the `same` bit is set and taken away where it is not; where
/// `short` is clear and `same` set, no change and no byte; else a signed big-endian 16-bit delta.
/// The x coordinates use bits 1 and 4, the y coordinates bits 2 and 5.
pub proof fn lemma_coord_step(d: Seq<u8>, p: nat, flags: Seq<u8>, i: nat, val: int, vals: Seq<i16>, x: bool)
    requires
        i < flags.len(),
        p + 2 <= d.len(),
        i16::MIN <= val <= i16::MAX,
    ensures
        ({
            let f = flags[i as int];
            let short = if x { (f / 2) % 2 } else { (f / 4) % 2 };
            let same = if x { (f / 16) % 2 } else { (f / 32) % 2 };
            let (size, sb) = if x { (1u8, 4u8) } else { (2u8, 5u8) };
            let b = d[p as int] as int;
            let w = (d[p as int] as nat * 256 + d[p as int + 1] as nat) as u16 as i16;
            let nv: int = if short == 1 {
                if same == 1 { val + b } else { val - b }
            } else if same == 1 {
                val
            } else {
                val + w
            };
            let np: nat = if short == 1 { p + 1 } else if same == 1 { p } else { p + 2 };
            read_coord_pass(d, p, flags, i, val, vals, size, sb) == if nv < i16::MIN || nv > i16::MAX {
                Err::<(Seq<i16>, nat), TtfError>(TtfError::Overflow)
            } else {
                read_coord_pass(d, np, flags, i + 1, nv, vals.push(nv as i16), size, sb)
            }
        }),
{
    reveal(read_coord_pass);
    let f = flags[i as int];
    lemma_flag_bits(f);
    lemma_be16_bytes(d, p as int);
}

/// A simple glyph holds its contour count, its box (x min, y min, x max, y max, signed), the
/// big-endian last point of each contour, the length of its instructions and the instructions,
/// then the flags of the points (as many as the largest contour end plus one), then all the x
/// coordinates (flag bits 1 and 4), then all the y coordinates (bits 2 and 5); a point is on the
/// curve where bit 0 of its flag is set.
pub proof fn lemma_simple_glyph_layout(d: Seq<u8>, off: nat, cc: nat)
    requires
        ttf_simple_glyph(d, off, cc) is Ok,
    ensures
        ({
            let g = ttf_simple_glyph(d, off, cc)->Ok_0;
            let e = (off + 10) as int;
            let o = off as int;
            let ends = g.2;
            let ilen = d[e + 2 * cc] as nat * 256 + d[e + 2 * cc + 1] as nat;
            let p = (e + 2 * cc + 2 + ilen) as nat;
            let fl = read_flags(d, p, 0, max_prefix(ends, cc) + 1, Seq::empty());
            let xs = read_coord_pass(d, fl->Ok_0.1, fl->Ok_0.0, 0, 0, Seq::empty(), 1, 4);
            let ys = read_coord_pass(d, xs->Ok_0.1, fl->Ok_0.0, 0, 0, Seq::empty(), 2, 5);
            &&& e + 2 * cc + 2 <= d.len()
            &&& ends.len() == cc
            &&& forall|k: int| 0 <= k < cc ==> #[trigger] ends[k] == (d[e + 2 * k] as nat * 256 + d[e + 2 * k + 1] as nat) as u16
            &&& g.0.xmin == (d[o + 2] as nat * 256 + d[o + 3] as nat) as u16 as i16
            &&& g.0.ymin == (d[o + 4] as nat * 256 + d[o + 5] as nat) as u16 as i16
            &&& g.0.xmax == (d[o + 6] as nat * 256 + d[o + 7] as nat) as u16 as i16
            &&& g.0.ymax == (d[o + 8] as nat * 256 + d[o + 9] as nat) as u16 as i16
            &&& fl is Ok && xs is Ok && ys is Ok
            &&& g.1.len() == fl->Ok_0.0.len()
            &&& forall|i: int|
                0 <= i < g.1.len() ==> #[trigger] g.1[i] == (xs->Ok_0.0[i], ys->Ok_0.0[i], fl->Ok_0.0[i] % 2 == 1)
        }),
{
    let e = off + 10;
    let ei = e as int;
    let oi = off as int;
    lemma_be16_bytes(d, oi + 2);
    lemma_be16_bytes(d, oi + 4);
    lemma_be16_bytes(d, oi + 6);
    lemma_be16_bytes(d, oi + 8);
    lemma_be16_bytes(d, ei + 2 * cc);
    let g = ttf_simple_glyph(d, off, cc)->Ok_0;
    assert forall|k: int| 0 <= k < cc implies #[trigger] g.2[k] == (d[e + 2 * k] as nat * 256 + d[e + 2 * k
        + 1] as nat) as u16 by {
        lemma_be16_bytes(d, ei + 2 * k);
    }
    let ilen = d[ei + 2 * cc] as nat * 256 + d[ei + 2 * cc + 1] as nat;
    let p = (ei + 2 * cc + 2 + ilen) as nat;
    let fl = read_flags(d, p, 0, max_prefix(g.2, cc) + 1, Seq::empty());
    assert forall|i: int| 0 <= i < g.1.len() implies #[trigger] g.1[i] == (
        read_coord_pass(d, fl->Ok_0.1, fl->Ok_0.0, 0, 0, Seq::empty(), 1, 4)->Ok_0.0[i],
        read_coord_pass(
            d,
            read_coord_pass(d, fl->Ok_0.1, fl->Ok_0.0, 0, 0, Seq::empty(), 1, 4)->Ok_0.1,
            fl->Ok_0.0,
            0,
            0,
            Seq::empty(),
            2,
            5,
        )->Ok_0.0[i],
        fl->Ok_0.0[i] % 2 == 1,
    ) by {
        lemma_flag_bits(fl->Ok_0.0[i]);
    }
}

proof fn lemma_part_flag_bits(f: u16)
    by (bit_vector)
    ensures
        f & 1 == f % 2,
        (f >> 3u16) & 1 == (f / 8) % 2,
        (f >> 6u16) & 1 == (f / 64) % 2,
        (f >> 7u16) & 1 == (f / 128) % 2,
{
}

/// A part of a composite glyph holds its flags and glyph index, then its offset: two signed
/// big-endian 16-bit values where flag bit 0 is set, else two signed bytes. Its factors follow:
/// one scale for both axes where bit 3 is set, an x and then a y scale where bit 6 is, a full
/// 2 by 2 matrix where bit 7 is, each value big-endian; with none of these, no bytes and the unit
/// matrix.
pub proof fn lemma_part_layout(d: Seq<u8>, flag: u16, p: nat, q: nat)
    ensures
        ({
            let pi = p as int;
            let w = |k: int| (d[k] as nat * 256 + d[k + 1] as nat) as u16;
            &&& flag % 2 == 1 && p + 8 <= d.len() ==> part_offset(d, flag, p) == (
                w(pi + 4) as i16,
                w(pi + 6) as i16,
                p + 8,
            )
            &&& flag % 2 == 0 && p + 6 <= d.len() ==> part_offset(d, flag, p) == (
                d[pi + 4] as i8 as i16,
                d[pi + 5] as i8 as i16,
                p + 6,
            )
        }),
        ({
            let qi = q as int;
            let w = |k: int| (d[k] as nat * 256 + d[k + 1] as nat) as u16;
            &&& (flag / 8) % 2 == 1 && q + 2 <= d.len() ==> part_factors(d, flag, q) == (
                (w(qi), 0u16, 0u16, w(qi)),
                2nat,
            )
            &&& (flag / 8) % 2 == 0 && (flag / 64) % 2 == 1 && q + 4 <= d.len() ==> part_factors(d, flag, q) == (
                (w(qi), 0u16, 0u16, w(qi + 2)),
                4nat,
            )
            &&& (flag / 8) % 2 == 0 && (flag / 64) % 2 == 0 && (flag / 128) % 2 == 1 && q + 8 <= d.len()
                ==> part_factors(d, flag, q) == ((w(qi), w(qi + 2), w(qi + 4), w(qi + 6)), 8nat)
            &&& (flag / 8) % 2 == 0 && (flag / 64) % 2 == 0 && (flag / 128) % 2 == 0 ==> part_factors(d, flag, q) == (
                (UNIT_FACTOR, 0u16, 0u16, UNIT_FACTOR),
                0nat,
            )
        }),
{
    lemma_part_flag_bits(flag);
    let pi = p as int;
    let qi = q as int;
    if p + 8 <= d.len() {
        lemma_be16_bytes(d, pi + 4);
        lemma_be16_bytes(d, pi + 6);
    }
    if q + 2 <= d.len() {
        lemma_be16_bytes(d, qi);
    }
    if q + 4 <= d.len() {
        lemma_be16_bytes(d, qi + 2);
    }
    if q + 8 <= d.len() {
        lemma_be16_bytes(d, qi + 4);
        lemma_be16_bytes(d, qi + 6);
    }
}

proof fn lemma_be32_bytes(d: Seq<u8>, i: int)
    requires
        0 <= i,
        i + 4 <= d.len(),
    ensures
        be32(d, i) == d[i] as nat * 0x100_0000 + d[i + 1] as nat * 0x1_0000 + d[i + 2] as nat * 0x100
            + d[i + 3] as nat,
{
    lemma_be_value_4(d.subrange(i, i + 4));
}

/// Glyph `k` starts where the `loca` table says: with 2-byte entries, at twice the big-endian
/// 16-bit entry `k` past the start of `glyf`; with 4-byte entries, at the big-endian 32-bit
/// entry `k` past it.
pub proof fn lemma_glyph_loc_is_loca_entry(d: Seq<u8>, t: TableOffs, loc_bytes: u16, k: nat)
    requires
        t.loca + 4 * k + 4 <= d.len(),
    ensures
        ({
            let l = (t.loca + 2 * k) as int;
            let q = (t.loca + 4 * k) as int;
            &&& loc_bytes == 2 ==> glyph_loc(d, t, loc_bytes, k) == t.glyf + 2 * (d[l] as nat * 256
                + d[l + 1] as nat)
            &&& loc_bytes != 2 ==> glyph_loc(d, t, loc_bytes, k) == t.glyf + d[q] as nat * 0x100_0000
                + d[q + 1] as nat * 0x1_0000 + d[q + 2] as nat * 0x100 + d[q + 3] as nat
        }),
{
    lemma_be16_bytes(d, (t.loca + 2 * k) as int);
    lemma_be32_bytes(d, (t.loca + 4 * k) as int);
}

/// A format 12 group is three big-endian 32-bit values, 12 bytes per group after the 16-byte
/// subtable header: start code, end code, start glyph; its codes `start..=end` map to the glyphs
/// `start glyph ..` one for one, code `start + k` to glyph `start glyph + k`.
pub proof fn lemma_f12_group_fields(d: Seq<u8>, at: nat, groups: nat, j: nat, st: CmapState)
    requires
        j < groups,
        at + 16 + 12 * j + 12 <= d.len(),
    ensures
        ({
            let q = (at + 16 + 12 * j) as int;
            let start = d[q] as nat * 0x100_0000 + d[q + 1] as nat * 0x1_0000 + d[q + 2] as nat * 0x100
                + d[q + 3] as nat;
            let end = d[q + 4] as nat * 0x100_0000 + d[q + 5] as nat * 0x1_0000 + d[q + 6] as nat * 0x100
                + d[q + 7] as nat;
            let sg = d[q + 8] as nat * 0x100_0000 + d[q + 9] as nat * 0x1_0000 + d[q + 10] as nat * 0x100
                + d[q + 11] as nat;
            &&& end < start ==> f12_groups(d, at, groups, j, st) == Err::<CmapState, TtfError>(
                TtfError::Overflow,
            )
            &&& end >= start && end - start + 1 <= u32::MAX ==> f12_groups(d, at, groups, j, st) == match f12_codes(
                start,
                sg,
                0,
                (end - start + 1) as nat,
                st,
            ) {
                Err(e) => Err(e),
                Ok(st2) => f12_groups(d, at, groups, j + 1, st2),
            }
        }),
{
    reveal(f12_groups);
    let q = (at + 16 + 12 * j) as int;
    lemma_be32_bytes(d, q);
    lemma_be32_bytes(d, q + 4);
    lemma_be32_bytes(d, q + 8);
}

/// Format 12 maps code `start + k` to glyph `start glyph + k`: one code after another, each to
/// the glyph one past the previous code's.
pub proof fn lemma_f12_codes_step(start: nat, sg: nat, off: nat, cnt: nat, st: CmapState)
    requires
        off < cnt,
        sg + off <= u32::MAX,
    ensures
        f12_codes(start, sg, off, cnt, st) == match map_glyph(st, sg + off, start + off) {
            Err(e) => Err(e),
            Ok(st2) => f12_codes(start + 1, sg + 1, off, (cnt - 1) as nat, st2),
        },
    decreases cnt - off,
{
    reveal(f12_codes);
    match map_glyph(st, sg + off, start + off) {
        Err(_) => {},
        Ok(st2) => {
            lemma_f12_shift(start, sg, off + 1, cnt, st2);
        },
    }
}

proof fn lemma_f12_shift(start: nat, sg: nat, off: nat, cnt: nat, st: CmapState)
    requires
        1 <= off <= cnt,
    ensures
        f12_codes(start, sg, off, cnt, st) == f12_codes(start + 1, sg + 1, (off - 1) as nat, (cnt - 1) as nat, st),
    decreases cnt - off,
{
    reveal(f12_codes);
    let o2 = (off - 1) as nat;
    let c2 = (cnt - 1) as nat;
    if off >= cnt {
        assert(o2 >= c2);
    } else {
        assert(o2 < c2 && o2 + 1 == off && c2 + 1 == cnt);
        assert(sg + 1 + o2 == sg + off && start + 1 + o2 == start + off);
        if sg + off <= u32::MAX {
            match map_glyph(st, sg + off, start + off) {
                Err(_) => {},
                Ok(st2) => {
                    lemma_f12_shift(start, sg, off + 1, cnt, st2);
                    assert(f12_codes(start + 1, sg + 1, o2, c2, st) == f12_codes(start + 1, sg + 1, o2 + 1, c2, st2));
                },
            }
        }
    }
}

/// A format 0 kerning subtable is a run of 6-byte pair records: big-endian left glyph, right
/// glyph and value, read as a signed 16-bit number; the record's pair key is `left << 16 | right`, and a later record of
/// the same pair wins.
pub proof fn lemma_kern_record(d: Seq<u8>, p: nat, n: nat, m: Map<u32, i16>)
    requires
        n > 0,
        p + 6 <= d.len(),
    ensures
        ({
            let pi = p as int;
            let left = d[pi] as nat * 256 + d[pi + 1] as nat;
            let right = d[pi + 2] as nat * 256 + d[pi + 3] as nat;
            let value = ((d[pi + 4] as nat * 256 + d[pi + 5] as nat) as u16) as i16;
            &&& (left * 0x1_0000 + right) as u32 == left * 0x1_0000 + right
            &&& kern_pairs(d, p, n, m) == kern_pairs(
                d,
                p + 6,
                (n - 1) as nat,
                m.insert((left * 0x1_0000 + right) as u32, value),
            )
        }),
{
    lemma_be16_bytes(d, p as int);
    lemma_be16_bytes(d, (p + 2) as int);
    lemma_be16_bytes(d, (p + 4) as int);
}

} // verus!
