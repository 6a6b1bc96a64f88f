use vstd::prelude::*;
use crate::gfx::guillotine::{
    all_within, is_first_min, lemma_pack_keeps_disjoint, packing_disjoint, place_in, Guillotine, Quad,
};
use crate::gfx::packer::{pack_whxy, Rect};

verus! {

/// An image of the atlas: its name, where its pixels start in the staging buffer, and its
/// rectangle `(x, y, w, h)` in the atlas.
pub type AtlasEntry = (Seq<char>, u64, Quad);

/// Some image of `imgs` is called `name`.
pub open spec fn has_img(imgs: Seq<AtlasEntry>, name: Seq<char>) -> bool {
    exists|i: int| 0 <= i < imgs.len() && (#[trigger] imgs[i]).0 == name
}

/// No two images of `imgs` share a name.
pub open spec fn names_unique(imgs: Seq<AtlasEntry>) -> bool {
    forall|i: int, j: int| 0 <= i < j < imgs.len() ==> (#[trigger] imgs[i]).0 != (#[trigger] imgs[j]).0
}

/// The staging offset and rectangle of the image called `name`.
pub open spec fn img_entry(imgs: Seq<AtlasEntry>, name: Seq<char>) -> (u64, Quad) {
    let i = choose|i: int| 0 <= i < imgs.len() && (#[trigger] imgs[i]).0 == name;
    (imgs[i].1, imgs[i].2)
}

/// The texture coordinate of rectangle `q` as the shaders read it: `w << 16 | h`, then
/// `x << 16 | y`.
pub open spec fn tex_coord(q: Quad) -> (int, int) {
    (q.2 * 65536 + q.3, q.0 * 65536 + q.1)
}

/// The staging bytes of a `width` x `height` image of four bytes a pixel.
pub open spec fn img_bytes(width: u32, height: u32) -> int {
    width * height * 4
}

proof fn lemma_tex_coord_bv(x: u16, y: u16, w: u16, h: u16)
    by (bit_vector)
    ensures
        ((((w as u64) << 48u64) | ((h as u64) << 32u64) | ((x as u64) << 16u64) | (y as u64)) >> 32u64) as u32
            == (w as u32) * 65536 + (h as u32),
        (((w as u64) << 48u64) | ((h as u64) << 32u64) | ((x as u64) << 16u64) | (y as u64)) as u32 == (x as u32)
            * 65536 + (y as u32),
{
}

/// The texture coordinate of a rectangle, as `tex_coord` says.
fn rect_tex_coord(rect: Rect) -> (r: [u32; 2])
    ensures
        r[0] == tex_coord(rect@).0,
        r[1] == tex_coord(rect@).1,
{
    let p = rect.packed_whxy();
    proof {
        lemma_tex_coord_bv(rect@.0, rect@.1, rect@.2, rect@.3);
        assert(p == pack_whxy(rect@.0, rect@.1, rect@.2, rect@.3));
    }
    [(p >> 32u64) as u32, p as u32]
}

/// The placement of images in a texture atlas: a packer over the atlas, and for each image its
/// name, the offset of its pixels in the staging buffer, which grows by each image added, and its
/// rectangle in the atlas.
pub struct TextureAtlas {
    atlas_staging_end: u64,
    packer: Guillotine,
    imgs: Vec<(String, u64, Rect)>,
}

impl View for TextureAtlas {
    /// `(end of the staging bytes in use, packer, images)`.
    type V = (u64, (u16, u16, Seq<Quad>), Seq<AtlasEntry>);

    closed spec fn view(&self) -> Self::V {
        (
            self.atlas_staging_end,
            self.packer@,
            self.imgs@.map_values(|e: (String, u64, Rect)| (e.0@, e.1, e.2@)),
        )
    }
}

impl TextureAtlas {
    /// The packer is well formed and no two images share a name.
    pub open spec fn wf(&self) -> bool {
        &&& all_within_packer(self@.1)
        &&& names_unique(self@.2)
    }

    /// An empty 4096 x 4096 atlas.
    pub fn new() -> (r: Self)
        ensures
            r.wf(),
            r@ == (0u64, (4096u16, 4096u16, seq![(0u16, 0u16, 4096u16, 4096u16)]), Seq::<AtlasEntry>::empty()),
    {
        let packer = Guillotine::new(4096, 4096);
        let r = Self { atlas_staging_end: 0, packer, imgs: Vec::new() };
        assert(r@.2 =~= Seq::<AtlasEntry>::empty());
        r
    }

    /// Places a `width` x `height` image called `name`, which is not in the atlas yet, with the
    /// packer's `pack` (each free rectangle weighing its score in `scores`), and gives it the
    /// staging bytes from the current end on; returns its staging offset and rectangle, or `None`
    /// where the atlas has no room for it.
    pub fn add_img(&mut self, name: &str, width: u32, height: u32, scores: &[u32]) -> (r: Option<
        (u64, Rect),
    >)
        requires
            old(self).wf(),
            !has_img(old(self)@.2, name@),
            width as u16 != 0,
            height as u16 != 0,
            scores@.len() == old(self)@.1.2.len(),
            old(self)@.0 + img_bytes(width, height) <= u64::MAX,
        ensures
            final(self).wf(),
            old(self)@.1.2.len() == 0 ==> r is None && final(self)@ == old(self)@,
            old(self)@.1.2.len() > 0 ==> exists|i: int|
                #![trigger old(self)@.1.2[i]]
                is_first_min(old(self)@.1.2, width as u16, height as u16, scores@, i) && {
                    let f = old(self)@.1.2[i];
                    let q = (f.0, f.1, width as u16, height as u16);
                    if width as u16 <= f.2 && height as u16 <= f.3 {
                        &&& r matches Some((off, rect)) && off == old(self)@.0 && rect@ == q
                        &&& final(self)@.0 == old(self)@.0 + img_bytes(width, height)
                        &&& final(self)@.1 == (
                            old(self)@.1.0,
                            old(self)@.1.1,
                            place_in(old(self)@.1.2, i, width as u16, height as u16),
                        )
                        &&& final(self)@.2 == old(self)@.2.push((name@, old(self)@.0, q))
                    } else {
                        r is None && final(self)@ == old(self)@
                    }
                },
    {
        let w = width as u16;
        let h = height as u16;
        let ghost old_imgs = self@.2;
        match self.packer.pack(w, h, scores) {
            Some((x, y)) => {
                let size = width as u64 * height as u64 * 4;
                let off = self.atlas_staging_end;
                self.atlas_staging_end = off + size;
                let rect = Rect::new(x, y, w, h);
                self.imgs.push((name.to_owned(), off, rect));
                proof {
                    assert(self@.2 =~= old_imgs.push((name@, off, rect@)));
                    assert forall|a: int, b: int| 0 <= a < b < self@.2.len() implies (#[trigger] self@.2[a]).0
                        != (#[trigger] self@.2[b]).0 by {
                        if b == old_imgs.len() {
                            assert(old_imgs[a].0 == self@.2[a].0);
                        } else {
                            assert(old_imgs[a] == self@.2[a] && old_imgs[b] == self@.2[b]);
                        }
                    }
                }
                Some((off, rect))
            },
            None => None,
        }
    }

    /// The index of the image called `key`.
    fn find(&self, key: &String) -> (r: usize)
        requires
            has_img(self@.2, key@),
        ensures
            r < self@.2.len(),
            self@.2[r as int].0 == key@,
    {
        let mut i: usize = 0;
        while i < self.imgs.len()
            invariant
                i <= self.imgs.len(),
                has_img(self@.2, key@),
                forall|k: int| 0 <= k < i ==> (#[trigger] self@.2[k]).0 != key@,
            decreases self.imgs.len() - i,
        {
            if self.imgs[i].0 == *key {
                return i;
            }
            i = i + 1;
        }
        proof {
            let k = choose|k: int| 0 <= k < self@.2.len() && (#[trigger] self@.2[k]).0 == key@;
            assert(self@.2[k].0 == key@);
        }
        0
    }

    /// The image called `name`, which is in the atlas: its staging offset and rectangle.
    fn entry(&self, name: &str) -> (r: (u64, Rect))
        requires
            self.wf(),
            has_img(self@.2, name@),
        ensures
            (r.0, r.1@) == img_entry(self@.2, name@),
    {
        let key = name.to_owned();
        let i = self.find(&key);
        proof {
            let j = choose|j: int| 0 <= j < self@.2.len() && (#[trigger] self@.2[j]).0 == name@;
            if i < j {
                assert(self@.2[i as int].0 != self@.2[j].0);
            } else if j < i {
                assert(self@.2[j].0 != self@.2[i as int].0);
            }
        }
        let (_, off, rect) = &self.imgs[i];
        (*off, *rect)
    }

    /// The texture coordinate of the whole atlas.
    pub fn atlas_tex_coord(&mut self) -> (r: [u32; 2])
        ensures
            *final(self) == *old(self),
            r[0] == tex_coord((0u16, 0u16, old(self)@.1.0, old(self)@.1.1)).0,
            r[1] == tex_coord((0u16, 0u16, old(self)@.1.0, old(self)@.1.1)).1,
    {
        rect_tex_coord(Rect::new(0, 0, self.packer.width(), self.packer.height()))
    }

    /// The texture coordinate that stands for no image.
    pub fn no_img_tex_coord(&self) -> (r: [u32; 2])
        ensures
            r[0] == 0 && r[1] == 0,
    {
        [0, 0]
    }

    /// The texture coordinate of the image called `name`, which is in the atlas.
    pub fn img_tex_coord(&self, name: &str) -> (r: [u32; 2])
        requires
            self.wf(),
            has_img(self@.2, name@),
        ensures
            r[0] == tex_coord(img_entry(self@.2, name@).1).0,
            r[1] == tex_coord(img_entry(self@.2, name@).1).1,
    {
        let (_, rect) = self.entry(name);
        rect_tex_coord(rect)
    }

    /// Where the pixels of the image called `name`, which is in the atlas, start in the staging
    /// buffer, and its width and height.
    pub fn img_data(&self, name: &str) -> (r: (u64, u32, u32))
        requires
            self.wf(),
            has_img(self@.2, name@),
        ensures
            r.0 == img_entry(self@.2, name@).0,
            r.1 == img_entry(self@.2, name@).1.2,
            r.2 == img_entry(self@.2, name@).1.3,
    {
        let (off, rect) = self.entry(name);
        let (w, h) = rect.wh();
        (off, w as u32, h as u32)
    }

    /// Whether an image called `name` is in the atlas.
    pub fn contains_img(&self, name: &str) -> (r: bool)
        ensures
            r == has_img(self@.2, name@),
    {
        let key = name.to_owned();
        let mut i: usize = 0;
        while i < self.imgs.len()
            invariant
                i <= self.imgs.len(),
                key@ == name@,
                forall|k: int| 0 <= k < i ==> (#[trigger] self@.2[k]).0 != name@,
            decreases self.imgs.len() - i,
        {
            if self.imgs[i].0 == key {
                assert(self@.2[i as int].0 == name@);
                return true;
            }
            i = i + 1;
        }
        false
    }

    /// The packer that places the images.
    pub fn packer(&self) -> (r: &Guillotine)
        ensures
            r@ == self@.1,
    {
        &self.packer
    }

    /// Where the staging bytes in use end.
    pub fn staging_end(&self) -> (r: u64)
        ensures
            r == self@.0,
    {
        self.atlas_staging_end
    }

    /// The atlas's width and height.
    pub fn size(&self) -> (r: (u16, u16))
        ensures
            r == (self@.1.0, self@.1.1),
    {
        (self.packer.width(), self.packer.height())
    }
}

/// Every free rectangle of the packer `p` lies within its bin.
pub open spec fn all_within_packer(p: (u16, u16, Seq<Quad>)) -> bool {
    all_within(p.2, p.0, p.1)
}

/// The rectangles of the images of `imgs`.
pub open spec fn img_rects(imgs: Seq<AtlasEntry>) -> Seq<Quad> {
    imgs.map_values(|e: AtlasEntry| e.2)
}

/// Adding images never lays one over another: where the packer's free rectangles and the
/// images' rectangles share no point, the image that `add_img` places in the `i`-th free
/// rectangle lies within the atlas, and afterwards again no two of the free rectangles and the
/// images' rectangles share a point.
pub proof fn lemma_add_img_keeps_apart(
    free: Seq<Quad>,
    imgs: Seq<AtlasEntry>,
    width: u16,
    height: u16,
    i: int,
    w: u16,
    h: u16,
    name: Seq<char>,
    off: u64,
)
    requires
        packing_disjoint(free, img_rects(imgs)),
        all_within(free, width, height),
        0 <= i < free.len(),
        0 < w <= free[i].2,
        0 < h <= free[i].3,
    ensures
        free[i].0 + w <= width,
        free[i].1 + h <= height,
        packing_disjoint(
            place_in(free, i, w, h),
            img_rects(imgs.push((name, off, (free[i].0, free[i].1, w, h)))),
        ),
{
    let q = (free[i].0, free[i].1, w, h);
    assert(img_rects(imgs.push((name, off, q))) =~= img_rects(imgs).push(q));
    lemma_pack_keeps_disjoint(free, img_rects(imgs), width, height, i, w, h);
}

} // verus!
