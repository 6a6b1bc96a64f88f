use silk_engine::gfx::font::Font;
use silk_engine::util::ttf::{Placement, Ttf, TtfError, MISSING_GLYPH_CHAR};

fn be16(v: &mut Vec<u8>, x: u16) {
    v.extend_from_slice(&x.to_be_bytes());
}

fn be32(v: &mut Vec<u8>, x: u32) {
    v.extend_from_slice(&x.to_be_bytes());
}

/// A triangle: (0, 0), (500, 0), (250, 700).
fn triangle() -> Vec<u8> {
    let mut g = Vec::new();
    be16(&mut g, 1);
    for x in [0u16, 0, 500, 700] {
        be16(&mut g, x);
    }
    be16(&mut g, 2); // last point of the contour
    be16(&mut g, 0); // no instructions
    g.extend_from_slice(&[1, 1, 1]); // on the curve, 16-bit deltas
    for x in [0i16, 500, -250] {
        be16(&mut g, x as u16);
    }
    for y in [0i16, 0, 700] {
        be16(&mut g, y as u16);
    }
    g
}

/// A rectangle of 4 points, with a repeated flag and byte-sized deltas.
fn rectangle() -> Vec<u8> {
    let mut g = Vec::new();
    be16(&mut g, 1);
    for x in [0u16, 0, 100, 100] {
        be16(&mut g, x);
    }
    be16(&mut g, 3);
    be16(&mut g, 0);
    // on the curve, x and y one byte each, positive, repeated 3 more times
    g.extend_from_slice(&[0x01 | 0x02 | 0x04 | 0x10 | 0x20 | 0x08, 3]);
    g.extend_from_slice(&[0, 100, 0, 0]); // x: 0, 100, 100, 100
    g.extend_from_slice(&[0, 0, 100, 0]); // y: 0, 0, 100, 100
    g
}

fn composite(flags: u16, glyph: u16, dx: i16, dy: i16, extra: &[u16]) -> Vec<u8> {
    let mut g = Vec::new();
    be16(&mut g, (-1i16) as u16);
    for x in [0u16, 0, 600, 800] {
        be16(&mut g, x);
    }
    be16(&mut g, flags);
    be16(&mut g, glyph);
    be16(&mut g, dx as u16);
    be16(&mut g, dy as u16);
    for &e in extra {
        be16(&mut g, e);
    }
    g
}

/// Format 4: ' ' -> glyph 4, 'A'..='C' -> glyphs 1..=3.
fn cmap() -> Vec<u8> {
    let mut c = Vec::new();
    be16(&mut c, 0);
    be16(&mut c, 1);
    be16(&mut c, 3);
    be16(&mut c, 1);
    be32(&mut c, 12);
    let seg = 3u16;
    be16(&mut c, 4);
    be16(&mut c, 16 + 8 * seg);
    be16(&mut c, 0);
    be16(&mut c, 2 * seg);
    be16(&mut c, 0);
    be16(&mut c, 0);
    be16(&mut c, 0);
    for e in [0x20u16, 0x43, 0xFFFF] {
        be16(&mut c, e);
    }
    be16(&mut c, 0);
    for s in [0x20u16, 0x41, 0xFFFF] {
        be16(&mut c, s);
    }
    for d in [(4i32 - 0x20) as u16, (1i32 - 0x41) as u16, 1] {
        be16(&mut c, d);
    }
    for _ in 0..seg {
        be16(&mut c, 0);
    }
    c
}

fn kern(version: u16, coverage: u16, pairs: &[(u16, u16, i16)]) -> Vec<u8> {
    let mut k = Vec::new();
    be16(&mut k, version);
    be16(&mut k, 1);
    be16(&mut k, 0);
    be16(&mut k, 14 + 6 * pairs.len() as u16);
    be16(&mut k, coverage);
    be16(&mut k, pairs.len() as u16);
    be16(&mut k, 0);
    be16(&mut k, 0);
    be16(&mut k, 0);
    for &(a, b, v) in pairs {
        be16(&mut k, a);
        be16(&mut k, b);
        be16(&mut k, v as u16);
    }
    k
}

/// A font of the given glyphs, the character map of `cmap` and the given `kern` table.
fn font(glyphs: &[Vec<u8>], kern_table: Option<Vec<u8>>) -> Vec<u8> {
    font_with(glyphs, kern_table, None)
}

/// The same with a glyph positioning table.
fn font_with(glyphs: &[Vec<u8>], kern_table: Option<Vec<u8>>, gpos: Option<Vec<u8>>) -> Vec<u8> {
    let ng = glyphs.len() as u16;
    let mut maxp = Vec::new();
    be32(&mut maxp, 0x5000);
    be16(&mut maxp, ng);
    let mut head = vec![0u8; 54];
    head[18..20].copy_from_slice(&1000u16.to_be_bytes());
    head[36..38].copy_from_slice(&(-100i16).to_be_bytes());
    head[38..40].copy_from_slice(&(-200i16).to_be_bytes());
    head[40..42].copy_from_slice(&900i16.to_be_bytes());
    head[42..44].copy_from_slice(&800i16.to_be_bytes());
    head[46..48].copy_from_slice(&8u16.to_be_bytes());
    head[50..52].copy_from_slice(&1u16.to_be_bytes());
    let mut loca = Vec::new();
    let mut glyf = Vec::new();
    for g in glyphs {
        be32(&mut loca, glyf.len() as u32);
        glyf.extend_from_slice(g);
    }
    be32(&mut loca, glyf.len() as u32);
    let mut hhea = vec![0u8; 40];
    hhea[4..6].copy_from_slice(&800i16.to_be_bytes());
    hhea[6..8].copy_from_slice(&(-200i16).to_be_bytes());
    hhea[8..10].copy_from_slice(&90i16.to_be_bytes());
    hhea[37..39].copy_from_slice(&2u16.to_be_bytes());
    let mut hmtx = Vec::new();
    for i in 0..ng {
        be16(&mut hmtx, 600 - 50 * i.min(1));
        be16(&mut hmtx, 10 * i);
    }
    let mut vhea = vec![0u8; 36];
    vhea[4..6].copy_from_slice(&500i16.to_be_bytes());
    vhea[6..8].copy_from_slice(&(-500i16).to_be_bytes());
    vhea[34..36].copy_from_slice(&ng.to_be_bytes());
    let mut vmtx = Vec::new();
    for i in 0..ng {
        be16(&mut vmtx, 1000);
        be16(&mut vmtx, 50 + i);
    }
    let mut tables: Vec<(&[u8; 4], Vec<u8>)> = vec![
        (b"maxp", maxp),
        (b"head", head),
        (b"loca", loca),
        (b"glyf", glyf),
        (b"cmap", cmap()),
        (b"hhea", hhea),
        (b"hmtx", hmtx),
        (b"vhea", vhea),
        (b"vmtx", vmtx),
    ];
    if let Some(k) = kern_table {
        tables.push((b"kern", k));
    }
    if let Some(g) = gpos {
        tables.push((b"GPOS", g));
    }
    let mut out = Vec::new();
    be32(&mut out, 0x0001_0000);
    be16(&mut out, tables.len() as u16);
    out.extend_from_slice(&[0; 6]);
    let mut off = 12 + 16 * tables.len() as u32;
    for (tag, t) in &tables {
        out.extend_from_slice(*tag);
        be32(&mut out, 0);
        be32(&mut out, off);
        be32(&mut out, t.len() as u32);
        off += t.len() as u32;
    }
    for (_, t) in &tables {
        out.extend_from_slice(t);
    }
    out
}

fn sample_glyphs() -> Vec<Vec<u8>> {
    vec![
        rectangle(),
        triangle(),
        composite(0x0003, 1, 10, 20, &[]),
        composite(0x000B, 1, 5, -5, &[0x2000]),
        Vec::new(),
    ]
}

#[test]
fn ttf_reads_tables_and_head() {
    let f = Ttf::parse(&font(&sample_glyphs(), None)).unwrap();
    assert_eq!(f.head.num_glyphs, 5);
    assert_eq!(f.head.em_units, 1000);
    assert_eq!(f.head.max_width(), 1000);
    assert_eq!(f.head.max_height(), 1000);
    assert_eq!(f.head.lowest_rec_ppem, 8);
    assert_eq!((f.ascent, f.descent, f.line_gap), (800, -200, 90));
    assert_eq!((f.vert_ascent, f.vert_descent), (500, -500));
    assert!(f.kernings.is_empty());
}

#[test]
fn ttf_maps_glyphs_to_chars() {
    let f = Ttf::parse(&font(&sample_glyphs(), None)).unwrap();
    assert_eq!(f.idx2uni, vec![MISSING_GLYPH_CHAR, 'A', 'B', 'C', ' ']);
}

#[test]
fn ttf_reads_simple_glyphs() {
    let f = Ttf::parse(&font(&sample_glyphs(), None)).unwrap();
    let a = &f.glyphs[1];
    assert_eq!(a.points, vec![(0, 0, true), (500, 0, true), (250, 700, true)]);
    assert_eq!(a.contour_end_idxs, vec![2]);
    assert_eq!(a.index, 1);
    assert_eq!((a.metric.xmin, a.metric.ymin, a.metric.xmax, a.metric.ymax), (0, 0, 500, 700));
    assert_eq!((a.metric.advance_width, a.metric.left_side_bearing), (550, 10));
    assert_eq!((a.metric.advance_height, a.metric.top_side_bearing), (1000, 51));
    let r = &f.glyphs[0];
    assert_eq!(r.points, vec![(0, 0, true), (100, 0, true), (100, 100, true), (100, 100, true)]);
    assert_eq!(r.contour_end_idxs, vec![3]);
}

#[test]
fn ttf_moves_unscaled_parts() {
    let f = Ttf::parse(&font(&sample_glyphs(), None)).unwrap();
    let b = &f.glyphs[2];
    assert_eq!(b.points, vec![(10, 20, true), (510, 20, true), (260, 720, true)]);
    assert_eq!(b.contour_end_idxs, vec![2]);
    assert!(b.placements.is_empty());
    assert_eq!(b.index, 2);
}

#[test]
fn ttf_leaves_scaled_parts_to_place() {
    let f = Ttf::parse(&font(&sample_glyphs(), None)).unwrap();
    let c = &f.glyphs[3];
    assert_eq!(c.points, vec![(0, 0, true), (500, 0, true), (250, 700, true)]);
    assert_eq!(
        c.placements,
        vec![Placement {
            start: 0,
            len: 3,
            dx: 5,
            dy: -5,
            ihat_x: 0x2000,
            ihat_y: 0,
            jhat_x: 0,
            jhat_y: 0x2000,
        }]
    );
}

#[test]
fn ttf_skips_outline_of_space_but_keeps_spacing() {
    let f = Ttf::parse(&font(&sample_glyphs(), None)).unwrap();
    let s = &f.glyphs[4];
    assert!(s.points.is_empty());
    assert_eq!(s.index, 4);
    // glyphs past the last horizontal metric take its values
    assert_eq!((s.metric.advance_width, s.metric.left_side_bearing), (550, 10));
    assert_eq!(s.metric.top_side_bearing, 54);
}

#[test]
fn ttf_reads_kern_pairs() {
    let k = kern(0, 0, &[(1, 2, -50), (2, 1, 30), (1, 2, -40)]);
    let f = Ttf::parse(&font(&sample_glyphs(), Some(k))).unwrap();
    assert_eq!(f.kernings.len(), 2);
    assert_eq!(f.kernings.get(&((1 << 16) | 2)), Some(&-40));
    assert_eq!(f.kernings.get(&((2 << 16) | 1)), Some(&30));
}

#[test]
fn ttf_passes_over_other_kern_formats() {
    let k = kern(0, 1, &[(1, 2, -50)]);
    let f = Ttf::parse(&font(&sample_glyphs(), Some(k))).unwrap();
    assert!(f.kernings.is_empty());
}

#[test]
fn ttf_errors() {
    let good = font(&sample_glyphs(), None);
    assert!(matches!(Ttf::parse(&good[..100]), Err(TtfError::Truncated)));
    assert!(matches!(Ttf::parse(&[]), Err(TtfError::Truncated)));
    let bad_kern = font(&sample_glyphs(), Some(kern(1, 0, &[])));
    assert!(matches!(Ttf::parse(&bad_kern), Err(TtfError::BadKernVersion)));
    let format2 = font(&sample_glyphs(), Some(kern(0, 2, &[])));
    assert!(matches!(Ttf::parse(&format2), Err(TtfError::KernFormat2)));
    let mut gs = sample_glyphs();
    gs[2] = composite(0x0001, 1, 0, 0, &[]);
    assert!(matches!(Ttf::parse(&font(&gs, None)), Err(TtfError::PointMatching)));
    let mut gs = sample_glyphs();
    gs[2] = composite(0x0003, 2, 0, 0, &[]);
    assert!(matches!(Ttf::parse(&font(&gs, None)), Err(TtfError::TooDeep)));
    let mut gs = sample_glyphs();
    gs[2] = composite(0x0003, 9, 0, 0, &[]);
    assert!(matches!(Ttf::parse(&font(&gs, None)), Err(TtfError::BadGlyphIndex)));
    let mut gs = sample_glyphs();
    gs[2] = composite(0x0003, 1, 32767, 0, &[]);
    assert!(matches!(Ttf::parse(&font(&gs, None)), Err(TtfError::PointRange)));
}

#[test]
fn font_finds_glyphs_by_char() {
    let k = kern(0, 0, &[(1, 2, -50)]);
    let f = Font::new(&font(&sample_glyphs(), Some(k))).unwrap();
    let a = f.glyph('A').unwrap();
    let b = f.glyph('B').unwrap();
    assert_eq!(a.index, 1);
    assert_eq!(f.kerning(a, b), -50);
    assert_eq!(f.kerning(b, a), 0);
    assert!(f.glyph('Z').is_none());
    assert!(f.is_char_graphic('A'));
    assert!(!f.is_char_graphic(' '));
    assert!(!f.is_char_graphic('Z'));
    assert_eq!((f.max_width(), f.max_height(), f.em_units()), (1000, 1000, 1000));
    assert_eq!((f.ascent(), f.descent(), f.line_gap()), (800, -200, 90));
}

#[test]
fn font_cjk_ranges() {
    let f = Font::new(&font(&sample_glyphs(), None)).unwrap();
    assert!(f.is_char_cjk('中'));
    assert!(f.is_char_cjk('あ'));
    assert!(f.is_char_cjk('カ'));
    assert!(f.is_char_cjk('\u{FF21}'));
    assert!(!f.is_char_cjk('A'));
    assert!(!f.is_char_cjk('\u{FFA0}'));
}

/// Pair adjustment, format 1: glyph 1 then glyph 2 kerns by -70, glyph 1 then 3 by 0.
fn pair_adj_1() -> Vec<u8> {
    let mut p = Vec::new();
    for x in [1u16, 12, 0x0004, 0, 1, 18] {
        be16(&mut p, x);
    }
    for x in [1u16, 1, 1] {
        be16(&mut p, x); // coverage: format 1, one glyph, glyph 1
    }
    be16(&mut p, 2);
    be16(&mut p, 2);
    be16(&mut p, (-70i16) as u16);
    be16(&mut p, 3);
    be16(&mut p, 0);
    p
}

/// Pair adjustment, format 2: glyph 1 is of class 1, glyphs 0 and 1 of second class 1, and
/// that class pair kerns by -30.
fn pair_adj_2() -> Vec<u8> {
    let mut p = Vec::new();
    for x in [2u16, 24, 0x0004, 0, 30, 38, 2, 2] {
        be16(&mut p, x);
    }
    for v in [0i16, 0, 0, -30] {
        be16(&mut p, v as u16);
    }
    for x in [1u16, 1, 1] {
        be16(&mut p, x);
    }
    for x in [1u16, 1, 1, 1] {
        be16(&mut p, x); // class definition 1: format 1, from glyph 1, one glyph, class 1
    }
    for x in [2u16, 1, 0, 1, 1] {
        be16(&mut p, x); // class definition 2: format 2, one range, glyphs 0..=1, class 1
    }
    p
}

/// An extension subtable pointing at `inner`.
fn extension(inner: Vec<u8>) -> Vec<u8> {
    let mut e = Vec::new();
    be16(&mut e, 1);
    be16(&mut e, 2);
    be32(&mut e, 8);
    e.extend_from_slice(&inner);
    e
}

/// A glyph positioning table whose kerning feature has one lookup of `kind` with `sub`.
fn gpos(kind: u16, sub: Vec<u8>) -> Vec<u8> {
    let mut g = Vec::new();
    be32(&mut g, 0x0001_0000);
    be16(&mut g, 0);
    be16(&mut g, 10);
    be16(&mut g, 24);
    // feature list
    be16(&mut g, 1);
    g.extend_from_slice(b"kern");
    be16(&mut g, 8);
    be16(&mut g, 0);
    be16(&mut g, 1);
    be16(&mut g, 0);
    // lookup list
    be16(&mut g, 1);
    be16(&mut g, 4);
    be16(&mut g, kind);
    be16(&mut g, 0);
    be16(&mut g, 1);
    be16(&mut g, 8);
    g.extend_from_slice(&sub);
    g
}

#[test]
fn gpos_pair_adjustment_format_1() {
    let f = Ttf::parse(&font_with(&sample_glyphs(), None, Some(gpos(2, pair_adj_1())))).unwrap();
    assert_eq!(f.kernings.len(), 1);
    assert_eq!(f.kernings.get(&((1 << 16) | 2)), Some(&-70));
}

#[test]
fn gpos_pair_adjustment_format_2() {
    let f = Ttf::parse(&font_with(&sample_glyphs(), None, Some(gpos(2, pair_adj_2())))).unwrap();
    assert_eq!(f.kernings.len(), 2);
    assert_eq!(f.kernings.get(&(1 << 16)), Some(&-30));
    assert_eq!(f.kernings.get(&((1 << 16) | 1)), Some(&-30));
}

#[test]
fn gpos_extension() {
    let f = Ttf::parse(&font_with(&sample_glyphs(), None, Some(gpos(9, extension(pair_adj_1()))))).unwrap();
    assert_eq!(f.kernings.get(&((1 << 16) | 2)), Some(&-70));
}

#[test]
fn gpos_used_when_kern_gives_nothing() {
    let k = kern(0, 1, &[(1, 2, -50)]);
    let f = Ttf::parse(&font_with(&sample_glyphs(), Some(k), Some(gpos(2, pair_adj_1())))).unwrap();
    assert_eq!(f.kernings.get(&((1 << 16) | 2)), Some(&-70));
    let k = kern(0, 0, &[(1, 2, -50)]);
    let f = Ttf::parse(&font_with(&sample_glyphs(), Some(k), Some(gpos(2, pair_adj_1())))).unwrap();
    assert_eq!(f.kernings.get(&((1 << 16) | 2)), Some(&-50));
}

#[test]
fn gpos_errors() {
    let mut p = pair_adj_1();
    p[1] = 3; // pair adjustment format 3
    assert!(matches!(
        Ttf::parse(&font_with(&sample_glyphs(), None, Some(gpos(2, p)))),
        Err(TtfError::BadGposFormat)
    ));
    let mut p = pair_adj_1();
    p[9] = 2; // two pair sets for one covered glyph
    assert!(matches!(
        Ttf::parse(&font_with(&sample_glyphs(), None, Some(gpos(2, p)))),
        Err(TtfError::PairSetMismatch)
    ));
    let mut g = gpos(2, pair_adj_1());
    g[23] = 5; // the kerning feature names lookup 5
    assert!(matches!(
        Ttf::parse(&font_with(&sample_glyphs(), None, Some(g))),
        Err(TtfError::BadLookupIndex)
    ));
}
