use std::collections::HashMap;
use vstd::prelude::*;
use crate::util::ttf::{
    char_code, empty_glyph_data, glyph_views, ttf_parse, GlyphData, GlyphMetrics, GlyphRead, Ttf,
    TtfError, TtfModel,
};

verus! {

broadcast use vstd::std_specs::hash::group_hash_axioms;

/// A font ready for text layout: its glyphs by character, its kerning pairs and its measures.
pub struct Font {
    uni2glyph: HashMap<u32, GlyphData>,
    kernings: HashMap<u32, i16>,
    ascent: i16,
    descent: i16,
    line_gap: i16,
    max_width: u16,
    max_height: u16,
    em_units: u16,
}

/// A font as its users see it: glyphs by character code, kerning pairs
/// `(first << 16 | second) -> kerning`, and measures in font units.
pub struct FontModel {
    pub glyphs: Map<u32, GlyphRead>,
    pub kernings: Map<u32, i16>,
    pub ascent: i16,
    pub descent: i16,
    pub line_gap: i16,
    pub max_width: u16,
    pub max_height: u16,
    pub em_units: u16,
}

impl View for Font {
    type V = FontModel;

    closed spec fn view(&self) -> FontModel {
        FontModel {
            glyphs: self.uni2glyph@.map_values(|g: GlyphData| g@),
            kernings: self.kernings@,
            ascent: self.ascent,
            descent: self.descent,
            line_gap: self.line_gap,
            max_width: self.max_width,
            max_height: self.max_height,
            em_units: self.em_units,
        }
    }
}

/// The glyphs of the first `k` entries by the code of the character each draws; a later
/// glyph of the same character takes the place of an earlier one.
pub open spec fn glyph_map(uni: Seq<char>, gs: Seq<GlyphRead>, k: nat) -> Map<u32, GlyphRead>
    decreases k,
{
    if k == 0 {
        Map::empty()
    } else {
        glyph_map(uni, gs, (k - 1) as nat).insert(char_code(uni[k - 1]) as u32, gs[k - 1])
    }
}

/// The font made of what a font file reads as, or `Overflow` where the box that holds every
/// glyph is too wide or too high for an `i16`.
pub open spec fn font_of(m: TtfModel) -> Result<FontModel, TtfError> {
    let w = m.head.glob_xmax - m.head.glob_xmin;
    let h = m.head.glob_ymax - m.head.glob_ymin;
    if !(i16::MIN <= w <= i16::MAX && i16::MIN <= h <= i16::MAX) {
        Err(TtfError::Overflow)
    } else {
        Ok(
            FontModel {
                glyphs: glyph_map(m.idx2uni, m.glyphs, m.idx2uni.len()),
                kernings: m.kernings,
                ascent: m.ascent,
                descent: m.descent,
                line_gap: m.line_gap,
                max_width: w as i16 as u16,
                max_height: h as i16 as u16,
                em_units: m.head.em_units,
            },
        )
    }
}

/// The key of the kerning pair of glyphs `a` and `b`.
pub open spec fn kern_key(a: u16, b: u16) -> u32 {
    (a * 0x1_0000 + b) as u32
}

/// Whether `c` is a CJK ideograph, a kana or a full- or half-width form.
pub open spec fn cjk(c: char) -> bool {
    let v = char_code(c);
    ||| 0x4E00 <= v <= 0x9FFF
    ||| 0x3040 <= v <= 0x309F
    ||| 0x30A0 <= v <= 0x30FF
    ||| 0xFF00 <= v <= 0xFF9F
}

impl Font {
    /// Reads a font from the bytes of its TrueType file: the glyphs are found by the
    /// character each draws.
    pub fn new(d: &[u8]) -> (r: Result<Font, TtfError>)
        ensures
            match ttf_parse(d@) {
                Ok(m) => match font_of(m) {
                    Ok(fm) => r matches Ok(f) && f@ == fm,
                    Err(e) => r matches Err(re) && re == e,
                },
                Err(e) => r matches Err(re) && re == e,
            },
    {
        let ttf = match Ttf::parse(d) {
            Err(e) => return Err(e),
            Ok(t) => t,
        };
        let ghost model = ttf@;
        assert(model.glyphs == glyph_views(ttf.glyphs@));
        let h = ttf.head;
        let w: i32 = h.glob_xmax as i32 - h.glob_xmin as i32;
        let ht: i32 = h.glob_ymax as i32 - h.glob_ymin as i32;
        if w < -32768 || w > 32767 || ht < -32768 || ht > 32767 {
            return Err(TtfError::Overflow);
        }
        let Ttf { head, ascent, descent, vert_ascent: _, vert_descent: _, line_gap, kernings, glyphs, idx2uni } = ttf;
        let mut glyphs = glyphs;
        let mut uni2glyph: HashMap<u32, GlyphData> = HashMap::new();
        let mut i: usize = 0;
        while i < idx2uni.len()
            invariant
                i <= idx2uni@.len(),
                idx2uni@ == model.idx2uni,
                glyphs@.len() == idx2uni@.len(),
                glyph_views(glyphs@).len() == model.glyphs.len(),
                forall|j: int| i <= j < glyphs@.len() ==> #[trigger] glyphs@[j]@ == model.glyphs[j],
                uni2glyph@.map_values(|g: GlyphData| g@) == glyph_map(model.idx2uni, model.glyphs, i as nat),
            decreases idx2uni@.len() - i,
        {
            let mut g = empty_glyph_data(0);
            std::mem::swap(&mut glyphs[i], &mut g);
            let key = idx2uni[i] as u32;
            let ghost before = uni2glyph@.map_values(|g: GlyphData| g@);
            let ghost gv = g@;
            uni2glyph.insert(key, g);
            assert(uni2glyph@.map_values(|g: GlyphData| g@) =~= before.insert(key, gv));
            i = i + 1;
        }
        Ok(
            Font {
                uni2glyph,
                kernings,
                ascent,
                descent,
                line_gap,
                max_width: w as u16,
                max_height: ht as u16,
                em_units: head.em_units,
            },
        )
    }
    /// The glyph that draws `c`, if the font has one.
    pub fn glyph(&self, c: char) -> (r: Option<&GlyphData>)
        ensures
            match r {
                Some(g) => self@.glyphs.contains_key(char_code(c) as u32) && g@ == self@.glyphs[char_code(c) as u32],
                None => !self@.glyphs.contains_key(char_code(c) as u32),
            },
    {
        self.uni2glyph.get(&(c as u32))
    }

    /// The kerning between glyphs `a` and `b` in font units: that of their pair, 0 where the
    /// font has none.
    pub fn kerning(&self, a: &GlyphData, b: &GlyphData) -> (r: i16)
        ensures
            r == if self@.kernings.contains_key(kern_key(a.index, b.index)) {
                self@.kernings[kern_key(a.index, b.index)]
            } else {
                0
            },
    {
        let key = a.index as u32 * 0x1_0000 + b.index as u32;
        match self.kernings.get(&key) {
            Some(k) => *k,
            None => 0,
        }
    }

    /// Whether the font draws `c` with an outline of more than one point.
    pub fn is_char_graphic(&self, c: char) -> (r: bool)
        ensures
            r == (self@.glyphs.contains_key(char_code(c) as u32) && self@.glyphs[char_code(c) as u32].1.len() > 1),
    {
        match self.uni2glyph.get(&(c as u32)) {
            Some(g) => g.points.len() > 1,
            None => false,
        }
    }

    /// Whether `c` is a CJK ideograph, a kana or a full- or half-width form, which are laid out
    /// without kerning and with their width added to their advance.
    pub fn is_char_cjk(&self, c: char) -> (r: bool)
        ensures
            r == cjk(c),
    {
        let v = c as u32;
        (0x4E00 <= v && v <= 0x9FFF) || (0x3040 <= v && v <= 0x309F) || (0x30A0 <= v && v <= 0x30FF)
            || (0xFF00 <= v && v <= 0xFF9F)
    }

    /// The font's ascent above the baseline, in font units.
    pub fn ascent(&self) -> (r: i16)
        ensures
            r == self@.ascent,
    {
        self.ascent
    }

    /// The font's descent below the baseline (negative), in font units.
    pub fn descent(&self) -> (r: i16)
        ensures
            r == self@.descent,
    {
        self.descent
    }

    /// The gap between lines, in font units.
    pub fn line_gap(&self) -> (r: i16)
        ensures
            r == self@.line_gap,
    {
        self.line_gap
    }

    /// The width of the box that holds every glyph, in font units.
    pub fn max_width(&self) -> (r: u16)
        ensures
            r == self@.max_width,
    {
        self.max_width
    }

    /// The height of the box that holds every glyph, in font units.
    pub fn max_height(&self) -> (r: u16)
        ensures
            r == self@.max_height,
    {
        self.max_height
    }

    /// Font units per em.
    pub fn em_units(&self) -> (r: u16)
        ensures
            r == self@.em_units,
    {
        self.em_units
    }
}

} // verus!
