use vstd::prelude::*;
use crate::gfx::packer::Rect;

verus! {

/// A rectangle as `(x, y, w, h)`.
pub type Quad = (u16, u16, u16, u16);

/// A free rectangle next to another one, by side, and how its length along that side compares:
/// equal, shorter or longer. The `usize` is its index among the free rectangles.
#[derive(Debug, PartialEq, Eq, Clone, Copy, Structural)]
pub enum AdjRect {
    North(usize),
    East(usize),
    South(usize),
    West(usize),
    NorthShorter(usize),
    EastShorter(usize),
    SouthShorter(usize),
    WestShorter(usize),
    NorthLonger(usize),
    EastLonger(usize),
    SouthLonger(usize),
    WestLonger(usize),
}

/// The index that an `AdjRect` carries.
pub open spec fn adj_idx(a: AdjRect) -> usize {
    match a {
        AdjRect::North(i) => i,
        AdjRect::East(i) => i,
        AdjRect::South(i) => i,
        AdjRect::West(i) => i,
        AdjRect::NorthShorter(i) => i,
        AdjRect::EastShorter(i) => i,
        AdjRect::SouthShorter(i) => i,
        AdjRect::WestShorter(i) => i,
        AdjRect::NorthLonger(i) => i,
        AdjRect::EastLonger(i) => i,
        AdjRect::SouthLonger(i) => i,
        AdjRect::WestLonger(i) => i,
    }
}

/// The neighbour has the same length along the shared side.
pub open spec fn adj_is_eq(a: AdjRect) -> bool {
    a is North || a is East || a is South || a is West
}

/// The neighbour lies above or below.
pub open spec fn adj_is_vertical(a: AdjRect) -> bool {
    a is North || a is NorthLonger || a is NorthShorter || a is South || a is SouthLonger
        || a is SouthShorter
}

impl AdjRect {
    pub fn idx(self) -> (r: usize)
        ensures
            r == adj_idx(self),
    {
        match self {
            AdjRect::North(i) | AdjRect::East(i) | AdjRect::South(i) | AdjRect::West(i)
            | AdjRect::NorthShorter(i) | AdjRect::EastShorter(i) | AdjRect::SouthShorter(i)
            | AdjRect::WestShorter(i) | AdjRect::NorthLonger(i) | AdjRect::EastLonger(i)
            | AdjRect::SouthLonger(i) | AdjRect::WestLonger(i) => i,
        }
    }

    pub fn is_eq(self) -> (r: bool)
        ensures
            r == adj_is_eq(self),
    {
        matches!(self, AdjRect::North(_) | AdjRect::East(_) | AdjRect::South(_) | AdjRect::West(_))
    }
}

/// How free rectangle `f`, the `i`-th, touches `(x, y, w, h)`: the side (0 north, 1 east,
/// 2 south, 3 west) and the kind, or side 4 where it touches none. The sides are tried in
/// that order.
pub open spec fn adj_of(f: Quad, i: usize, x: u16, y: u16, w: u16, h: u16) -> (int, AdjRect) {
    let (fx, fy, fw, fh) = f;
    if fx == x && fy == y + h {
        (
            0,
            if fw < w {
                AdjRect::NorthShorter(i)
            } else if fw == w {
                AdjRect::North(i)
            } else {
                AdjRect::NorthLonger(i)
            },
        )
    } else if fx == x + w && fy == y {
        (
            1,
            if fh < h {
                AdjRect::EastShorter(i)
            } else if fh == h {
                AdjRect::East(i)
            } else {
                AdjRect::EastLonger(i)
            },
        )
    } else if fx == x && fy + fh == y {
        (
            2,
            if fw < w {
                AdjRect::SouthShorter(i)
            } else if fw == w {
                AdjRect::South(i)
            } else {
                AdjRect::SouthLonger(i)
            },
        )
    } else if fx + fw == x && fy == y {
        (
            3,
            if fh < h {
                AdjRect::WestShorter(i)
            } else if fh == h {
                AdjRect::West(i)
            } else {
                AdjRect::WestLonger(i)
            },
        )
    } else {
        (4, AdjRect::North(i))
    }
}

/// The neighbours found on each side, north, east, south, west.
pub type Adj4 = (Option<AdjRect>, Option<AdjRect>, Option<AdjRect>, Option<AdjRect>);

/// All four sides have a neighbour.
pub open spec fn adj_full(s: Adj4) -> bool {
    s.0 is Some && s.1 is Some && s.2 is Some && s.3 is Some
}

/// The neighbours after looking at the first `n` free rectangles: on each side the last one
/// found, the search stopping as soon as all four sides have one.
pub open spec fn adj_scan(rects: Seq<Quad>, x: u16, y: u16, w: u16, h: u16, n: nat) -> Adj4
    decreases n,
{
    if n == 0 {
        (None, None, None, None)
    } else {
        let s = adj_scan(rects, x, y, w, h, (n - 1) as nat);
        if adj_full(s) {
            s
        } else {
            let (side, a) = adj_of(rects[n - 1], (n - 1) as usize, x, y, w, h);
            if side == 0 {
                (Some(a), s.1, s.2, s.3)
            } else if side == 1 {
                (s.0, Some(a), s.2, s.3)
            } else if side == 2 {
                (s.0, s.1, Some(a), s.3)
            } else if side == 3 {
                (s.0, s.1, s.2, Some(a))
            } else {
                s
            }
        }
    }
}

/// The weight by which a neighbour is chosen: its length across the shared side, plus half of
/// `u32::MAX` where both lengths along the side are equal; 0 for no neighbour.
pub open spec fn adj_key(rects: Seq<Quad>, o: Option<AdjRect>) -> u32 {
    match o {
        None => 0,
        Some(a) => {
            let f = rects[adj_idx(a) as int];
            ((if adj_is_vertical(a) { f.3 as u32 } else { f.2 as u32 }) + (if adj_is_eq(a) {
                u32::MAX / 2
            } else {
                0
            })) as u32
        },
    }
}

/// The neighbour of greatest weight, the last of them on a tie.
pub open spec fn adj_biggest(rects: Seq<Quad>, s: Adj4) -> Option<AdjRect> {
    let b1 = if adj_key(rects, s.1) >= adj_key(rects, s.0) { s.1 } else { s.0 };
    let b2 = if adj_key(rects, s.2) >= adj_key(rects, b1) { s.2 } else { b1 };
    if adj_key(rects, s.3) >= adj_key(rects, b2) {
        s.3
    } else {
        b2
    }
}

/// How a free `fw` x `fh` rectangle at `(x, y)` is cut around a `w` x `h` rectangle placed in
/// its corner: the larger piece and the smaller one. The cut runs along the side that leaves
/// the larger piece largest.
pub open spec fn split_spec(fw: u16, fh: u16, x: u16, y: u16, w: u16, h: u16) -> (Quad, Quad) {
    if fh - h > fw - w {
        ((x, (y + h) as u16, fw, (fh - h) as u16), ((x + w) as u16, y, (fw - w) as u16, h))
    } else {
        (((x + w) as u16, y, (fw - w) as u16, fh), (x, (y + h) as u16, w, (fh - h) as u16))
    }
}

/// The rectangles that merging `(x, y, w, h)` with its neighbour `a` of size `fw` x `fh` gives:
/// the merged one, and for an unequal neighbour the part left out.
pub open spec fn merge_spec(a: AdjRect, x: u16, y: u16, w: u16, h: u16, fw: u16, fh: u16) -> (
    Quad,
    Option<Quad>,
) {
    match a {
        AdjRect::North(_) => ((x, y, w, (h + fh) as u16), None),
        AdjRect::East(_) => ((x, y, (w + fw) as u16, h), None),
        AdjRect::South(_) => ((x, (y - fh) as u16, w, (fh + h) as u16), None),
        AdjRect::West(_) => (((x - fw) as u16, y, (fw + w) as u16, h), None),
        AdjRect::NorthShorter(_) => (
            (x, y, fw, (h + fh) as u16),
            Some(((x + fw) as u16, y, (w - fw) as u16, h)),
        ),
        AdjRect::EastShorter(_) => (
            (x, y, (w + fw) as u16, fh),
            Some((x, (y + fh) as u16, w, (h - fh) as u16)),
        ),
        AdjRect::SouthShorter(_) => (
            (x, (y - fh) as u16, fw, (h + fh) as u16),
            Some(((x + fw) as u16, y, (w - fw) as u16, h)),
        ),
        AdjRect::WestShorter(_) => (
            ((x - fw) as u16, y, (w + fw) as u16, fh),
            Some((x, (y + fh) as u16, w, (h - fh) as u16)),
        ),
        AdjRect::NorthLonger(_) => (
            (x, y, w, (h + fh) as u16),
            Some(((x + w) as u16, (y + h) as u16, (fw - w) as u16, fh)),
        ),
        AdjRect::EastLonger(_) => (
            (x, y, (w + fw) as u16, h),
            Some(((x + w) as u16, (y + h) as u16, fw, (fh - h) as u16)),
        ),
        AdjRect::SouthLonger(_) => (
            (x, (y - fh) as u16, w, (h + fh) as u16),
            Some(((x + w) as u16, (y - fh) as u16, (fw - w) as u16, fh)),
        ),
        AdjRect::WestLonger(_) => (
            ((x - fw) as u16, y, (w + fw) as u16, h),
            Some(((x - fw) as u16, (y + h) as u16, fw, (fh - h) as u16)),
        ),
    }
}

/// The merge of `(x, y, w, h)` with its neighbour `a` of size `fw` x `fh` stays within `u16`:
/// every sum and difference that the merge of that kind forms does.
pub open spec fn merge_in_range(a: AdjRect, x: u16, y: u16, w: u16, h: u16, fw: u16, fh: u16) -> bool {
    let max = u16::MAX as int;
    match a {
        AdjRect::North(_) => h + fh <= max,
        AdjRect::East(_) => w + fw <= max,
        AdjRect::South(_) => fh <= y && fh + h <= max,
        AdjRect::West(_) => fw <= x && fw + w <= max,
        AdjRect::NorthShorter(_) => h + fh <= max && x + fw <= max && fw <= w,
        AdjRect::EastShorter(_) => w + fw <= max && y + fh <= max && fh <= h,
        AdjRect::SouthShorter(_) => fh <= y && h + fh <= max && x + fw <= max && fw <= w,
        AdjRect::WestShorter(_) => fw <= x && w + fw <= max && y + fh <= max && fh <= h,
        AdjRect::NorthLonger(_) => h + fh <= max && x + w <= max && y + h <= max && w <= fw,
        AdjRect::EastLonger(_) => w + fw <= max && x + w <= max && y + h <= max && h <= fh,
        AdjRect::SouthLonger(_) => fh <= y && h + fh <= max && x + w <= max && w <= fw,
        AdjRect::WestLonger(_) => fw <= x && w + fw <= max && y + h <= max && h <= fh,
    }
}

/// The weight of free rectangle `f` for a `w` x `h` rectangle: `u32::MAX` where it does not fit,
/// else the score given for it.
pub open spec fn fit_key(f: Quad, w: u16, h: u16, score: u32) -> u32 {
    if f.2 < w || f.3 < h {
        u32::MAX
    } else {
        score
    }
}

/// `i` is the first free rectangle of least weight.
pub open spec fn is_first_min(rects: Seq<Quad>, w: u16, h: u16, scores: Seq<u32>, i: int) -> bool {
    &&& 0 <= i < rects.len()
    &&& forall|j: int|
        0 <= j < rects.len() ==> fit_key(rects[i], w, h, scores[i]) <= #[trigger] fit_key(
            rects[j],
            w,
            h,
            scores[j],
        )
    &&& forall|j: int|
        0 <= j < i ==> fit_key(rects[i], w, h, scores[i]) < #[trigger] fit_key(
            rects[j],
            w,
            h,
            scores[j],
        )
}

/// The free rectangles after a `w` x `h` rectangle is placed in the corner of the `i`-th: it
/// is cut around it, replaced by what is left, and dropped (the last one taking its place)
/// where nothing is left.
pub open spec fn place_in(rects: Seq<Quad>, i: int, w: u16, h: u16) -> Seq<Quad> {
    let (x, y, fw, fh) = rects[i];
    if w < fw && h < fh {
        let (big, small) = split_spec(fw, fh, x, y, w, h);
        rects.update(i, small).push(big)
    } else if w < fw {
        rects.update(i, ((x + w) as u16, y, (fw - w) as u16, fh))
    } else if h < fh {
        rects.update(i, (x, (y + h) as u16, fw, (fh - h) as u16))
    } else {
        rects.update(i, rects.last()).drop_last()
    }
}

/// Every free rectangle lies within the `width` x `height` bin.
pub open spec fn all_within(rects: Seq<Quad>, width: u16, height: u16) -> bool {
    forall|i: int|
        0 <= i < rects.len() ==> #[trigger] rects[i].0 + rects[i].2 <= width && rects[i].1
            + rects[i].3 <= height
}

/// Point `(px, py)` lies in `a`.
pub open spec fn covers(a: Quad, px: int, py: int) -> bool {
    a.0 <= px < a.0 + a.2 && a.1 <= py < a.1 + a.3
}

/// `a` and `b` share a point.
pub open spec fn overlap(a: Quad, b: Quad) -> bool {
    a.0 < b.0 + b.2 && b.0 < a.0 + a.2 && a.1 < b.1 + b.3 && b.1 < a.1 + a.3
}

/// `a` lies within `b`.
pub open spec fn inside(a: Quad, b: Quad) -> bool {
    b.0 <= a.0 && b.1 <= a.1 && a.0 + a.2 <= b.0 + b.2 && a.1 + a.3 <= b.1 + b.3
}

/// What is left of free rectangle `f` once a `w` x `h` rectangle takes its corner, as `pack`
/// keeps it.
pub open spec fn cut_pieces(f: Quad, w: u16, h: u16) -> Seq<Quad> {
    let (x, y, fw, fh) = f;
    if w < fw && h < fh {
        let (big, small) = split_spec(fw, fh, x, y, w, h);
        seq![small, big]
    } else if w < fw {
        seq![((x + w) as u16, y, (fw - w) as u16, fh)]
    } else if h < fh {
        seq![(x, (y + h) as u16, fw, (fh - h) as u16)]
    } else {
        Seq::empty()
    }
}

/// Cutting a placed rectangle out of a free one loses nothing and frees nothing twice: the
/// placed rectangle lies in the free one, each piece left lies in it and shares no point with
/// the placed rectangle or another piece, and every point of the free rectangle is in the
/// placed one or in a piece.
pub proof fn lemma_cut_exact(f: Quad, w: u16, h: u16)
    requires
        0 < w <= f.2,
        0 < h <= f.3,
        f.0 + f.2 <= u16::MAX,
        f.1 + f.3 <= u16::MAX,
    ensures
        ({
            let placed = (f.0, f.1, w, h);
            let p = cut_pieces(f, w, h);
            &&& inside(placed, f)
            &&& forall|k: int| 0 <= k < p.len() ==> inside(#[trigger] p[k], f) && !overlap(p[k], placed)
            &&& forall|k1: int, k2: int|
                0 <= k1 < k2 < p.len() ==> !overlap(#[trigger] p[k1], #[trigger] p[k2])
            &&& forall|px: int, py: int|
                covers(f, px, py) ==> covers(placed, px, py) || exists|k: int|
                    0 <= k < p.len() && #[trigger] covers(p[k], px, py)
        }),
{
    let placed = (f.0, f.1, w, h);
    let p = cut_pieces(f, w, h);
    assert forall|px: int, py: int| covers(f, px, py) implies covers(placed, px, py) || exists|k: int|
        0 <= k < p.len() && #[trigger] covers(p[k], px, py) by {
        if !covers(placed, px, py) {
            if p.len() >= 1 && covers(p[0], px, py) {
            } else if p.len() == 2 {
                assert(covers(p[1], px, py));
            }
        }
    }
}

/// Packing keeps every free rectangle but the chosen one, and puts the pieces that the cut
/// leaves of it in its place.
pub proof fn lemma_place_in_pieces(rects: Seq<Quad>, i: int, w: u16, h: u16)
    requires
        0 <= i < rects.len(),
        w <= rects[i].2,
        h <= rects[i].3,
    ensures
        ({
            let n = place_in(rects, i, w, h);
            let p = cut_pieces(rects[i], w, h);
            &&& forall|k: int|
                0 <= k < n.len() ==> (exists|j: int|
                    0 <= j < rects.len() && j != i && #[trigger] rects[j] == n[k]) || p.contains(
                    #[trigger] n[k],
                )
            &&& forall|k: int| 0 <= k < p.len() ==> n.contains(#[trigger] p[k])
            &&& forall|j: int| 0 <= j < rects.len() && j != i ==> n.contains(#[trigger] rects[j])
        }),
{
    let n = place_in(rects, i, w, h);
    let p = cut_pieces(rects[i], w, h);
    let f = rects[i];
    let last = rects.len() - 1;
    if w < f.2 && h < f.3 {
        assert(n[i] == p[0] && n[rects.len() as int] == p[1]);
        assert forall|k: int| 0 <= k < n.len() implies (exists|j: int|
            0 <= j < rects.len() && j != i && #[trigger] rects[j] == n[k]) || p.contains(
            #[trigger] n[k],
        ) by {
            if k == i {
                assert(p[0] == n[k]);
            } else if k == rects.len() {
                assert(p[1] == n[k]);
            } else {
                assert(rects[k] == n[k]);
            }
        }
        assert forall|j: int| 0 <= j < rects.len() && j != i implies n.contains(#[trigger] rects[j]) by {
            assert(n[j] == rects[j]);
        }
    } else if w < f.2 || h < f.3 {
        assert(n[i] == p[0]);
        assert forall|k: int| 0 <= k < n.len() implies (exists|j: int|
            0 <= j < rects.len() && j != i && #[trigger] rects[j] == n[k]) || p.contains(
            #[trigger] n[k],
        ) by {
            if k == i {
                assert(p[0] == n[k]);
            } else {
                assert(rects[k] == n[k]);
            }
        }
        assert forall|j: int| 0 <= j < rects.len() && j != i implies n.contains(#[trigger] rects[j]) by {
            assert(n[j] == rects[j]);
        }
    } else {
        assert forall|k: int| 0 <= k < n.len() implies (exists|j: int|
            0 <= j < rects.len() && j != i && #[trigger] rects[j] == n[k]) || p.contains(
            #[trigger] n[k],
        ) by {
            if k == i {
                assert(rects[last] == n[k]);
            } else {
                assert(rects[k] == n[k]);
            }
        }
        assert forall|j: int| 0 <= j < rects.len() && j != i implies n.contains(#[trigger] rects[j]) by {
            if j == last {
                assert(n[i] == rects[j]);
            } else {
                assert(n[j] == rects[j]);
            }
        }
    }
}

/// No two of the free rectangles share a point, no two of the placed ones do, and no free one
/// shares a point with a placed one.
pub open spec fn packing_disjoint(free: Seq<Quad>, placed: Seq<Quad>) -> bool {
    &&& forall|a: int, b: int|
        0 <= a < b < free.len() ==> !overlap(#[trigger] free[a], #[trigger] free[b])
    &&& forall|a: int, b: int|
        0 <= a < b < placed.len() ==> !overlap(#[trigger] placed[a], #[trigger] placed[b])
    &&& forall|a: int, b: int|
        0 <= a < free.len() && 0 <= b < placed.len() ==> !overlap(
            #[trigger] free[a],
            #[trigger] placed[b],
        )
}

/// What lies within a rectangle shares no point with what that rectangle shares none with.
proof fn lemma_inside_apart(a: Quad, f: Quad, g: Quad)
    requires
        inside(a, f),
        !overlap(f, g) || !overlap(g, f),
    ensures
        !overlap(a, g),
        !overlap(g, a),
{
}

/// A fresh packer's single free rectangle, with nothing placed yet, is trivially apart.
pub proof fn lemma_new_disjoint(width: u16, height: u16)
    ensures
        packing_disjoint(seq![(0u16, 0u16, width, height)], Seq::empty()),
{
}

/// Packing never places a rectangle over an earlier one: where the free rectangles and the
/// rectangles placed so far share no point, placing a `w` x `h` rectangle in the corner of the
/// `i`-th free one puts it within the bin, and the free rectangles left share no point with each
/// other, with the earlier placements or with the new one.
pub proof fn lemma_pack_keeps_disjoint(
    free: Seq<Quad>,
    placed: Seq<Quad>,
    width: u16,
    height: u16,
    i: int,
    w: u16,
    h: u16,
)
    requires
        packing_disjoint(free, placed),
        all_within(free, width, height),
        0 <= i < free.len(),
        0 < w <= free[i].2,
        0 < h <= free[i].3,
    ensures
        free[i].0 + w <= width,
        free[i].1 + h <= height,
        packing_disjoint(place_in(free, i, w, h), placed.push((free[i].0, free[i].1, w, h))),
{
    let f = free[i];
    let q = (f.0, f.1, w, h);
    let n = place_in(free, i, w, h);
    let p = cut_pieces(f, w, h);
    let pl = placed.push(q);
    assert(f.0 + f.2 <= width && f.1 + f.3 <= height);
    lemma_cut_exact(f, w, h);
    let last = free.len() - 1;
    // Each free rectangle left is an old one other than the `i`-th, or a piece of it.
    assert forall|k: int| 0 <= k < n.len() implies ((#[trigger] n[k] == p[0] && p.len() >= 1 && k == i) || (
    p.len() == 2 && k == free.len() && n[k] == p[1]) || (k != i && k < free.len() && n[k] == free[k]) || (p.len()
        == 0 && k == i && i != last && n[k] == free[last])) by {
        if w < f.2 && h < f.3 {
            if k == free.len() {
                assert(n[k] == p[1]);
            }
        }
    }
    assert forall|a: int, b: int| 0 <= a < b < n.len() implies !overlap(#[trigger] n[a], #[trigger] n[b]) by {
        let _ = n[a];
        let _ = n[b];
        if p.len() == 0 {
            let ja = if a == i { last } else { a };
            let jb = if b == i { last } else { b };
            assert(n[a] == free[ja] && n[b] == free[jb]);
            if ja < jb {
                assert(!overlap(free[ja], free[jb]));
            } else {
                assert(!overlap(free[jb], free[ja]));
            }
        } else if a == i {
            if b == free.len() {
                assert(!overlap(p[0], p[1]));
            } else {
                assert(!overlap(free[a], free[b]));
                lemma_inside_apart(p[0], f, free[b]);
            }
        } else if b == i {
            assert(!overlap(free[a], free[b]));
            lemma_inside_apart(p[0], f, free[a]);
        } else if b == free.len() {
            if a < i {
                assert(!overlap(free[a], free[i]));
            } else {
                assert(!overlap(free[i], free[a]));
            }
            lemma_inside_apart(p[1], f, free[a]);
        } else {
            assert(!overlap(free[a], free[b]));
        }
    }
    assert forall|a: int, b: int| 0 <= a < b < pl.len() implies !overlap(#[trigger] pl[a], #[trigger] pl[b]) by {
        if b == placed.len() {
            assert(!overlap(free[i], placed[a]));
            lemma_inside_apart(q, f, placed[a]);
        } else {
            assert(pl[a] == placed[a] && pl[b] == placed[b]);
        }
    }
    assert forall|a: int, b: int| 0 <= a < n.len() && 0 <= b < pl.len() implies !overlap(
        #[trigger] n[a],
        #[trigger] pl[b],
    ) by {
        let _ = n[a];
        if b == placed.len() {
            if n[a] == p[0] && p.len() >= 1 && a == i {
            } else if p.len() == 2 && a == free.len() && n[a] == p[1] {
            } else if a != i && a < free.len() && n[a] == free[a] {
                if a < i {
                    assert(!overlap(free[a], free[i]));
                } else {
                    assert(!overlap(free[i], free[a]));
                }
                lemma_inside_apart(q, f, free[a]);
            } else {
                assert(!overlap(free[last], free[i]));
                lemma_inside_apart(q, f, free[last]);
            }
        } else {
            assert(pl[b] == placed[b]);
            assert(!overlap(free[i], placed[b]));
            if n[a] == p[0] && p.len() >= 1 && a == i {
                lemma_inside_apart(p[0], f, placed[b]);
            } else if p.len() == 2 && a == free.len() && n[a] == p[1] {
                lemma_inside_apart(p[1], f, placed[b]);
            } else if a != i && a < free.len() && n[a] == free[a] {
                assert(!overlap(free[a], placed[b]));
            } else {
                assert(!overlap(free[last], placed[b]));
            }
        }
    }
}

/// Packing fails only where nothing fits: where every free rectangle that fits a `w` x `h`
/// rectangle scores below `u32::MAX` and the first free rectangle of least weight is too small,
/// so is every free one.
pub proof fn lemma_pack_fails_only_when_nothing_fits(
    rects: Seq<Quad>,
    w: u16,
    h: u16,
    scores: Seq<u32>,
    i: int,
)
    requires
        scores.len() == rects.len(),
        forall|k: int|
            0 <= k < scores.len() && w <= (#[trigger] rects[k]).2 && h <= rects[k].3 ==> scores[k]
                < u32::MAX,
        is_first_min(rects, w, h, scores, i),
        !(w <= rects[i].2 && h <= rects[i].3),
    ensures
        forall|k: int| 0 <= k < rects.len() ==> !(w <= (#[trigger] rects[k]).2 && h <= rects[k].3),
{
    assert forall|k: int| 0 <= k < rects.len() implies !(w <= (#[trigger] rects[k]).2 && h <= rects[k].3) by {
        assert(fit_key(rects[i], w, h, scores[i]) <= fit_key(rects[k], w, h, scores[k]));
        if w <= rects[k].2 && h <= rects[k].3 {
            assert(scores[k] < u32::MAX);
        }
    }
}

/// Every free rectangle has both sides longer than 0.
pub open spec fn all_nonempty(rects: Seq<Quad>) -> bool {
    forall|i: int| 0 <= i < rects.len() ==> (#[trigger] rects[i]).2 > 0 && rects[i].3 > 0
}

/// The biggest neighbour of the `idx`-th free rectangle, as `find_biggest_adjacent` finds it.
pub open spec fn biggest_adj_of(rects: Seq<Quad>, idx: int) -> Option<AdjRect> {
    let q = rects[idx];
    adj_biggest(rects, adj_scan(rects, q.0, q.1, q.2, q.3, rects.len()))
}

/// Each neighbour that the scan finds touches `(x, y, w, h)` on its side as `adj_of` says.
proof fn lemma_adj_scan_geom(rects: Seq<Quad>, x: u16, y: u16, w: u16, h: u16, n: nat)
    requires
        n <= rects.len() <= usize::MAX,
    ensures
        ({
            let s = adj_scan(rects, x, y, w, h, n);
            &&& s.0 matches Some(a) ==> adj_idx(a) < n && adj_of(rects[adj_idx(a) as int], adj_idx(a), x, y, w, h) == (0int, a)
            &&& s.1 matches Some(a) ==> adj_idx(a) < n && adj_of(rects[adj_idx(a) as int], adj_idx(a), x, y, w, h) == (1int, a)
            &&& s.2 matches Some(a) ==> adj_idx(a) < n && adj_of(rects[adj_idx(a) as int], adj_idx(a), x, y, w, h) == (2int, a)
            &&& s.3 matches Some(a) ==> adj_idx(a) < n && adj_of(rects[adj_idx(a) as int], adj_idx(a), x, y, w, h) == (3int, a)
        }),
    decreases n,
{
    if n > 0 {
        lemma_adj_scan_geom(rects, x, y, w, h, (n - 1) as nat);
        let s = adj_scan(rects, x, y, w, h, (n - 1) as nat);
        if !adj_full(s) {
            let (side, a) = adj_of(rects[n - 1], (n - 1) as usize, x, y, w, h);
            assert(adj_idx(a) == n - 1);
        }
    }
}

/// The biggest neighbour of the `idx`-th free rectangle touches it as `adj_of` says, on one of
/// its four sides.
proof fn lemma_biggest_adj_geom(rects: Seq<Quad>, idx: int)
    requires
        0 <= idx < rects.len() <= usize::MAX,
    ensures
        biggest_adj_of(rects, idx) matches Some(a) ==> {
            let q = rects[idx];
            &&& adj_idx(a) < rects.len()
            &&& adj_of(rects[adj_idx(a) as int], adj_idx(a), q.0, q.1, q.2, q.3).1 == a
            &&& adj_of(rects[adj_idx(a) as int], adj_idx(a), q.0, q.1, q.2, q.3).0 < 4
        },
{
    let q = rects[idx];
    lemma_adj_scan_geom(rects, q.0, q.1, q.2, q.3, rects.len());
}

/// Merging a free rectangle within the bin with a neighbour of the same length along the shared
/// side stays within `u16` and the bin, and gives a non-empty rectangle of the two areas.
pub proof fn lemma_equal_merge_grows(rects: Seq<Quad>, width: u16, height: u16, idx: int, a: AdjRect)
    requires
        all_within(rects, width, height),
        all_nonempty(rects),
        0 <= idx < rects.len() <= usize::MAX,
        biggest_adj_of(rects, idx) == Some(a),
        adj_is_eq(a),
    ensures
        ({
            let q = rects[idx];
            let f = rects[adj_idx(a) as int];
            let m = merge_spec(a, q.0, q.1, q.2, q.3, f.2, f.3).0;
            &&& adj_idx(a) < rects.len()
            &&& merge_in_range(a, q.0, q.1, q.2, q.3, f.2, f.3)
            &&& m.0 + m.2 <= width && m.1 + m.3 <= height
            &&& m.2 > 0 && m.3 > 0
            &&& m.2 * m.3 > q.2 * q.3
            &&& m.2 * m.3 <= width * height
        }),
{
    lemma_biggest_adj_geom(rects, idx);
    let q = rects[idx];
    let i = adj_idx(a) as int;
    let f = rects[i];
    let m = merge_spec(a, q.0, q.1, q.2, q.3, f.2, f.3).0;
    assert(q.0 + q.2 <= width && q.1 + q.3 <= height);
    assert(f.0 + f.2 <= width && f.1 + f.3 <= height);
    assert(q.2 > 0 && q.3 > 0 && f.2 > 0 && f.3 > 0);
    let (x, y, w, h) = q;
    match a {
        AdjRect::North(_) => {
            assert(m.2 * m.3 == w * h + w * f.3) by (nonlinear_arith)
                requires m.2 == w, m.3 == h + f.3;
            assert(w * f.3 > 0) by (nonlinear_arith)
                requires w > 0, f.3 > 0;
        },
        AdjRect::South(_) => {
            assert(m.2 * m.3 == w * h + w * f.3) by (nonlinear_arith)
                requires m.2 == w, m.3 == f.3 + h;
            assert(w * f.3 > 0) by (nonlinear_arith)
                requires w > 0, f.3 > 0;
        },
        AdjRect::East(_) => {
            assert(m.2 * m.3 == w * h + f.2 * h) by (nonlinear_arith)
                requires m.2 == w + f.2, m.3 == h;
            assert(f.2 * h > 0) by (nonlinear_arith)
                requires h > 0, f.2 > 0;
        },
        _ => {
            assert(m.2 * m.3 == w * h + f.2 * h) by (nonlinear_arith)
                requires m.2 == f.2 + w, m.3 == h;
            assert(f.2 * h > 0) by (nonlinear_arith)
                requires h > 0, f.2 > 0;
        },
    }
    assert(m.2 * m.3 <= width * height) by (nonlinear_arith)
        requires m.2 <= width, m.3 <= height, m.2 > 0, m.3 > 0;
}

/// The free rectangles after merging the `idx`-th with its biggest neighbour for as long as that
/// neighbour has the same length along the shared side, and the indices of the neighbours merged
/// in, in order; where the free rectangles lie within the `width` x `height` bin and none is
/// empty, which makes each merge grow the `idx`-th.
pub open spec fn merge_equal_run(rects: Seq<Quad>, width: u16, height: u16, idx: int) -> (
    Seq<Quad>,
    Seq<usize>,
)
    decreases width * height - rects[idx].2 * rects[idx].3,
    when all_within(rects, width, height) && all_nonempty(rects) && 0 <= idx < rects.len() <= usize::MAX
{
    match biggest_adj_of(rects, idx) {
        Some(a) => if adj_is_eq(a) {
            let q = rects[idx];
            let f = rects[adj_idx(a) as int];
            let m = merge_spec(a, q.0, q.1, q.2, q.3, f.2, f.3).0;
            proof {
                lemma_equal_merge_grows(rects, width, height, idx, a);
            }
            let next = merge_equal_run(rects.update(idx, m), width, height, idx);
            (next.0, seq![adj_idx(a)] + next.1)
        } else {
            (rects, Seq::empty())
        },
        None => (rects, Seq::empty()),
    }
}

/// Merging keeps the free area: where free rectangle `f`, the `i`-th, touches `q` as the
/// neighbour `a`, the merged rectangle and the part left out cover exactly the points of `q` and
/// `f`, and share none.
pub proof fn lemma_merge_keeps_area(q: Quad, f: Quad, i: usize, a: AdjRect)
    requires
        adj_of(f, i, q.0, q.1, q.2, q.3).1 == a,
        adj_of(f, i, q.0, q.1, q.2, q.3).0 < 4,
        merge_in_range(a, q.0, q.1, q.2, q.3, f.2, f.3),
    ensures
        ({
            let (m, lo) = merge_spec(a, q.0, q.1, q.2, q.3, f.2, f.3);
            &&& forall|px: int, py: int|
                (#[trigger] covers(m, px, py) || (lo matches Some(l) && covers(l, px, py))) <==> (
                covers(q, px, py) || covers(f, px, py))
            &&& lo matches Some(l) ==> !overlap(m, l)
        }),
{
    let (m, lo) = merge_spec(a, q.0, q.1, q.2, q.3, f.2, f.3);
    assert forall|px: int, py: int|
        (#[trigger] covers(m, px, py) || (lo matches Some(l) && covers(l, px, py))) <==> (covers(
            q,
            px,
            py,
        ) || covers(f, px, py)) by {
        match a {
            AdjRect::North(_) => {},
            AdjRect::East(_) => {},
            AdjRect::South(_) => {},
            AdjRect::West(_) => {},
            AdjRect::NorthShorter(_) => {},
            AdjRect::EastShorter(_) => {},
            AdjRect::SouthShorter(_) => {},
            AdjRect::WestShorter(_) => {},
            AdjRect::NorthLonger(_) => {},
            AdjRect::EastLonger(_) => {},
            AdjRect::SouthLonger(_) => {},
            AdjRect::WestLonger(_) => {},
        }
    }
}

/// The order key of a `(w, h)` request for `pack_all`: its area.
pub open spec fn area_key(r: (u16, u16)) -> nat {
    (r.0 * r.1) as nat
}

/// How many of the requests listed in `order` have an area of at least `k`.
pub open spec fn count_area_ge(order: Seq<usize>, rects: Seq<(u16, u16)>, k: nat) -> nat
    decreases order.len(),
{
    if order.len() == 0 {
        0
    } else {
        count_area_ge(order.drop_last(), rects, k) + (if area_key(rects[order.last() as int]) >= k {
            1nat
        } else {
            0nat
        })
    }
}

/// The first `n` requests in the order `pack_all` places them: by area from the largest, equal
/// areas in the order given. Each request goes in after every earlier one whose area is at least
/// as large.
pub open spec fn area_order(rects: Seq<(u16, u16)>, n: nat) -> Seq<usize>
    decreases n,
{
    if n == 0 {
        Seq::empty()
    } else {
        let o = area_order(rects, (n - 1) as nat);
        o.insert(count_area_ge(o, rects, area_key(rects[n - 1])) as int, (n - 1) as usize)
    }
}

proof fn lemma_count_area_le(order: Seq<usize>, rects: Seq<(u16, u16)>, k: nat)
    ensures
        count_area_ge(order, rects, k) <= order.len(),
    decreases order.len(),
{
    if order.len() > 0 {
        lemma_count_area_le(order.drop_last(), rects, k);
    }
}

proof fn lemma_area_order(rects: Seq<(u16, u16)>, n: nat)
    requires
        n <= rects.len(),
    ensures
        area_order(rects, n).len() == n,
        forall|k: int| 0 <= k < n ==> #[trigger] area_order(rects, n)[k] < n,
    decreases n,
{
    if n > 0 {
        lemma_area_order(rects, (n - 1) as nat);
        let o = area_order(rects, (n - 1) as nat);
        lemma_count_area_le(o, rects, area_key(rects[n - 1]));
    }
}

/// The order in which `pack_all` places the requests `rects`, as `area_order` says.
pub fn pack_order(rects: &[(u16, u16)]) -> (order: Vec<usize>)
    ensures
        order@ == area_order(rects@, rects@.len()),
{
    let n = rects.len();
    let mut order: Vec<usize> = Vec::new();
    let mut i: usize = 0;
    while i < n
        invariant
            i <= n,
            n == rects@.len(),
            order@ == area_order(rects@, i as nat),
        decreases n - i,
    {
        proof {
            lemma_area_order(rects@, i as nat);
        }
        let (wi, hi) = rects[i];
        proof {
            vstd::arithmetic::mul::lemma_mul_upper_bound(wi as int, 0xffff, hi as int, 0xffff);
        }
        let ki: u32 = wi as u32 * hi as u32;
        let mut c: usize = 0;
        let mut j: usize = 0;
        while j < order.len()
            invariant
                j <= order@.len(),
                order@ == area_order(rects@, i as nat),
                order@.len() == i,
                i < n,
                n == rects@.len(),
                forall|q: int| 0 <= q < i ==> #[trigger] order@[q] < i,
                ki == area_key(rects@[i as int]),
                c == count_area_ge(order@.subrange(0, j as int), rects@, ki as nat),
                c <= j,
            decreases order@.len() - j,
        {
            let (wj, hj) = rects[order[j]];
            proof {
                vstd::arithmetic::mul::lemma_mul_upper_bound(wj as int, 0xffff, hj as int, 0xffff);
            }
            let kj: u32 = wj as u32 * hj as u32;
            proof {
                assert(order@.subrange(0, j + 1).drop_last() =~= order@.subrange(0, j as int));
            }
            if kj >= ki {
                c = c + 1;
            }
            j = j + 1;
        }
        assert(order@.subrange(0, order@.len() as int) =~= order@);
        order.insert(c, i);
        i = i + 1;
    }
    order
}

/// A packer that keeps a list of free rectangles, cuts each placed rectangle out of one of them
/// and merges neighbours back together.
pub struct Guillotine {
    width: u16,
    height: u16,
    free_rects: Vec<Rect>,
}

impl View for Guillotine {
    /// `(width, height, free rectangles)`.
    type V = (u16, u16, Seq<Quad>);

    closed spec fn view(&self) -> Self::V {
        (self.width, self.height, self.free_rects@.map_values(|r: Rect| r@))
    }
}

impl Guillotine {
    /// Every free rectangle lies within the bin.
    pub open spec fn wf(&self) -> bool {
        all_within(self@.2, self@.0, self@.1)
    }

    /// One free rectangle, the whole `width` x `height` bin.
    pub fn new(width: u16, height: u16) -> (r: Self)
        ensures
            r@ == (width, height, seq![(0u16, 0u16, width, height)]),
            r.wf(),
    {
        let mut free_rects: Vec<Rect> = Vec::new();
        free_rects.push(Rect::new(0, 0, width, height));
        let r = Self { width, height, free_rects };
        assert(r@.2 =~= seq![(0u16, 0u16, width, height)]);
        r
    }

    /// Cuts a free `fw` x `fh` rectangle at `(x, y)` around a `w` x `h` rectangle in its corner.
    pub fn split(fw: u16, fh: u16, x: u16, y: u16, w: u16, h: u16) -> (r: (Rect, Rect))
        requires
            w <= fw,
            h <= fh,
            x + fw <= u16::MAX,
            y + fh <= u16::MAX,
        ensures
            (r.0@, r.1@) == split_spec(fw, fh, x, y, w, h),
    {
        if fh - h > fw - w {
            (Rect::new(x, y + h, fw, fh - h), Rect::new(x + w, y, fw - w, h))
        } else {
            (Rect::new(x + w, y, fw - w, fh), Rect::new(x, y + h, w, fh - h))
        }
    }

    /// The free rectangles that touch `(x, y, w, h)`, north, east, south and west, as
    /// `adj_scan` says.
    pub fn find_adjacent(&self, x: u16, y: u16, w: u16, h: u16) -> (r: [Option<AdjRect>; 4])
        requires
            self.wf(),
            x + w <= u16::MAX,
            y + h <= u16::MAX,
        ensures
            ({
                let s = adj_scan(self@.2, x, y, w, h, self@.2.len());
                r@ == seq![s.0, s.1, s.2, s.3]
            }),
    {
        let mut north: Option<AdjRect> = None;
        let mut east: Option<AdjRect> = None;
        let mut south: Option<AdjRect> = None;
        let mut west: Option<AdjRect> = None;
        let n = self.free_rects.len();
        let mut i: usize = 0;
        while i < n
            invariant_except_break
                !adj_full((north, east, south, west)),
            invariant
                n == self@.2.len(),
                i <= n,
                self.wf(),
                x + w <= u16::MAX,
                y + h <= u16::MAX,
                adj_scan(self@.2, x, y, w, h, i as nat) == (north, east, south, west),
            ensures
                adj_scan(self@.2, x, y, w, h, n as nat) == (north, east, south, west),
            decreases n - i,
        {
            let (fx, fy, fw, fh) = self.free_rects[i].xywh();
            assert(self@.2[i as int] == (fx, fy, fw, fh));
            assert(self@.2[i as int].0 + self@.2[i as int].2 <= self@.0);
            if fx == x && fy == y + h {
                north = Some(
                    if fw < w {
                        AdjRect::NorthShorter(i)
                    } else if fw == w {
                        AdjRect::North(i)
                    } else {
                        AdjRect::NorthLonger(i)
                    },
                );
            } else if fx == x + w && fy == y {
                east = Some(
                    if fh < h {
                        AdjRect::EastShorter(i)
                    } else if fh == h {
                        AdjRect::East(i)
                    } else {
                        AdjRect::EastLonger(i)
                    },
                );
            } else if fx == x && fy + fh == y {
                south = Some(
                    if fw < w {
                        AdjRect::SouthShorter(i)
                    } else if fw == w {
                        AdjRect::South(i)
                    } else {
                        AdjRect::SouthLonger(i)
                    },
                );
            } else if fx + fw == x && fy == y {
                west = Some(
                    if fh < h {
                        AdjRect::WestShorter(i)
                    } else if fh == h {
                        AdjRect::West(i)
                    } else {
                        AdjRect::WestLonger(i)
                    },
                );
            }
            if north.is_some() && east.is_some() && south.is_some() && west.is_some() {
                proof {
                    lemma_adj_scan_full_stays(self@.2, x, y, w, h, (i + 1) as nat, n as nat);
                }
                i = i + 1;
                break;
            }
            i = i + 1;
        }
        [north, east, south, west]
    }

    /// The neighbour of `(x, y, w, h)` to merge with first, as `adj_biggest` says.
    pub fn find_biggest_adjacent(&self, x: u16, y: u16, w: u16, h: u16) -> (r: Option<AdjRect>)
        requires
            self.wf(),
            x + w <= u16::MAX,
            y + h <= u16::MAX,
        ensures
            r == adj_biggest(self@.2, adj_scan(self@.2, x, y, w, h, self@.2.len())),
            r matches Some(a) ==> adj_idx(a) < self@.2.len(),
    {
        let adj = self.find_adjacent(x, y, w, h);
        proof {
            lemma_adj_scan_idx(self@.2, x, y, w, h, self@.2.len());
        }
        let mut best = adj[0];
        let mut best_key = self.adj_key(best);
        let mut j: usize = 1;
        while j < 4
            invariant
                1 <= j <= 4,
                adj@.len() == 4,
                forall|k: int|
                    0 <= k < 4 ==> (#[trigger] adj@[k] matches Some(a) ==> adj_idx(a)
                        < self@.2.len()),
                best_key == adj_key(self@.2, best),
                best matches Some(a) ==> adj_idx(a) < self@.2.len(),
                j == 1 ==> best == adj@[0],
                j == 2 ==> best == (if adj_key(self@.2, adj@[1]) >= adj_key(self@.2, adj@[0]) {
                    adj@[1]
                } else {
                    adj@[0]
                }),
                j >= 3 ==> best == ({
                    let b1 = if adj_key(self@.2, adj@[1]) >= adj_key(self@.2, adj@[0]) {
                        adj@[1]
                    } else {
                        adj@[0]
                    };
                    let b2 = if adj_key(self@.2, adj@[2]) >= adj_key(self@.2, b1) {
                        adj@[2]
                    } else {
                        b1
                    };
                    if j == 3 {
                        b2
                    } else if adj_key(self@.2, adj@[3]) >= adj_key(self@.2, b2) {
                        adj@[3]
                    } else {
                        b2
                    }
                }),
            decreases 4 - j,
        {
            let cand = adj[j];
            let k = self.adj_key(cand);
            if k >= best_key {
                best = cand;
                best_key = k;
            }
            j = j + 1;
        }
        best
    }

    /// Computes `adj_key`.
    fn adj_key(&self, o: Option<AdjRect>) -> (r: u32)
        requires
            o matches Some(a) ==> adj_idx(a) < self@.2.len(),
        ensures
            r == adj_key(self@.2, o),
    {
        match o {
            None => 0,
            Some(a) => {
                let (fw, fh) = self.free_rects[a.idx()].wh();
                let side: u32 = match a {
                    AdjRect::North(_) | AdjRect::NorthLonger(_) | AdjRect::NorthShorter(_)
                    | AdjRect::South(_) | AdjRect::SouthLonger(_) | AdjRect::SouthShorter(_) => {
                        fh as u32
                    },
                    _ => fw as u32,
                };
                side + if a.is_eq() { u32::MAX / 2 } else { 0 }
            },
        }
    }

    /// The rectangles that merging `(x, y, w, h)` with its neighbour `a` of size `fw` x `fh`
    /// gives, as `merge_spec` says.
    pub fn merge_shapes(a: AdjRect, x: u16, y: u16, w: u16, h: u16, fw: u16, fh: u16) -> (r: (
        Rect,
        Option<Rect>,
    ))
        requires
            merge_in_range(a, x, y, w, h, fw, fh),
        ensures
            r.0@ == merge_spec(a, x, y, w, h, fw, fh).0,
            match merge_spec(a, x, y, w, h, fw, fh).1 {
                None => r.1 is None,
                Some(q) => r.1 matches Some(lo) && lo@ == q,
            },
    {
        match a {
            AdjRect::North(_) => (Rect::new(x, y, w, h + fh), None),
            AdjRect::East(_) => (Rect::new(x, y, w + fw, h), None),
            AdjRect::South(_) => (Rect::new(x, y - fh, w, fh + h), None),
            AdjRect::West(_) => (Rect::new(x - fw, y, fw + w, h), None),
            AdjRect::NorthShorter(_) => (
                Rect::new(x, y, fw, h + fh),
                Some(Rect::new(x + fw, y, w - fw, h)),
            ),
            AdjRect::EastShorter(_) => (
                Rect::new(x, y, w + fw, fh),
                Some(Rect::new(x, y + fh, w, h - fh)),
            ),
            AdjRect::SouthShorter(_) => (
                Rect::new(x, y - fh, fw, h + fh),
                Some(Rect::new(x + fw, y, w - fw, h)),
            ),
            AdjRect::WestShorter(_) => (
                Rect::new(x - fw, y, w + fw, fh),
                Some(Rect::new(x, y + fh, w, h - fh)),
            ),
            AdjRect::NorthLonger(_) => (
                Rect::new(x, y, w, h + fh),
                Some(Rect::new(x + w, y + h, fw - w, fh)),
            ),
            AdjRect::EastLonger(_) => (
                Rect::new(x, y, w + fw, h),
                Some(Rect::new(x + w, y + h, fw, fh - h)),
            ),
            AdjRect::SouthLonger(_) => (
                Rect::new(x, y - fh, w, h + fh),
                Some(Rect::new(x + w, y - fh, fw - w, fh)),
            ),
            AdjRect::WestLonger(_) => (
                Rect::new(x - fw, y, w + fw, h),
                Some(Rect::new(x - fw, y + h, fw, fh - h)),
            ),
        }
    }

    /// Merges the `idx`-th free rectangle with its biggest neighbour for as long as that
    /// neighbour has the same length along the shared side, as `merge_equal_run` says, and
    /// appends the indices of the neighbours merged in to `remove`; returns the biggest
    /// neighbour then left, which is `None` or one of another length. No free rectangle may be
    /// empty.
    pub fn merge_equal(&mut self, idx: usize, remove: &mut Vec<usize>) -> (r: Option<AdjRect>)
        requires
            old(self).wf(),
            all_nonempty(old(self)@.2),
            idx < old(self)@.2.len(),
        ensures
            final(self).wf(),
            all_nonempty(final(self)@.2),
            final(self)@ == (
                old(self)@.0,
                old(self)@.1,
                merge_equal_run(old(self)@.2, old(self)@.0, old(self)@.1, idx as int).0,
            ),
            final(remove)@ == old(remove)@ + merge_equal_run(
                old(self)@.2,
                old(self)@.0,
                old(self)@.1,
                idx as int,
            ).1,
            r == biggest_adj_of(final(self)@.2, idx as int),
            r matches Some(a) ==> !adj_is_eq(a),
    {
        let _count = self.free_count();
        let ghost w0 = self@.0;
        let ghost h0 = self@.1;
        let ghost run = merge_equal_run(self@.2, w0, h0, idx as int);
        let ghost rm0 = remove@;
        loop
            invariant
                self.wf(),
                all_nonempty(self@.2),
                idx < self@.2.len(),
                self@.2.len() <= usize::MAX,
                self@.0 == w0,
                self@.1 == h0,
                w0 == old(self)@.0,
                h0 == old(self)@.1,
                run == merge_equal_run(old(self)@.2, old(self)@.0, old(self)@.1, idx as int),
                rm0 == old(remove)@,
                merge_equal_run(self@.2, w0, h0, idx as int).0 == run.0,
                remove@ + merge_equal_run(self@.2, w0, h0, idx as int).1 == rm0 + run.1,
            decreases w0 * h0 - self@.2[idx as int].2 * self@.2[idx as int].3,
        {
            let (x, y, w, h) = self.free_rect(idx).xywh();
            assert(self@.2[idx as int] == (x, y, w, h));
            let adj = self.find_biggest_adjacent(x, y, w, h);
            assert(adj == biggest_adj_of(self@.2, idx as int));
            match adj {
                Some(a) => {
                    if !a.is_eq() {
                        assert(!adj_is_eq(a));
                        assert(biggest_adj_of(self@.2, idx as int) == Some(a));
                        assert(merge_equal_run(self@.2, w0, h0, idx as int) == (self@.2, Seq::<usize>::empty()));
                        assert(self@.2 == run.0);
                        assert(remove@ + Seq::<usize>::empty() =~= remove@);
                        assert(remove@ == rm0 + run.1);
                        return adj;
                    }
                    proof {
                        lemma_equal_merge_grows(self@.2, w0, h0, idx as int, a);
                    }
                    let i = a.idx();
                    let (fw, fh) = self.free_rect(i).wh();
                    let ghost before = self@.2;
                    let (merged, _) = Self::merge_shapes(a, x, y, w, h, fw, fh);
                    self.set_free_rect(idx, merged);
                    remove.push(i);
                    proof {
                        let m = merge_spec(a, x, y, w, h, fw, fh).0;
                        assert(self@.2 == before.update(idx as int, m));
                        let next = merge_equal_run(before.update(idx as int, m), w0, h0, idx as int);
                        assert(merge_equal_run(before, w0, h0, idx as int) == (next.0, seq![i] + next.1));
                        assert(remove@ + next.1 =~= (remove@.drop_last() + (seq![i] + next.1)));
                        assert forall|k: int| 0 <= k < self@.2.len() implies (#[trigger] self@.2[k]).2 > 0
                            && self@.2[k].3 > 0 by {
                            if k != idx {
                                assert(self@.2[k] == before[k]);
                            }
                        }
                    }
                },
                None => {
                    assert(merge_equal_run(self@.2, w0, h0, idx as int).0 == self@.2);
                    assert(merge_equal_run(self@.2, w0, h0, idx as int).1 =~= Seq::<usize>::empty());
                    assert(remove@ + Seq::<usize>::empty() =~= remove@);
                    return adj;
                },
            }
        }
    }

    /// Places a `w` x `h` rectangle in the first free rectangle of least weight, each free
    /// rectangle that fits weighing its score in `scores`, and returns where it went; `None`
    /// where no free rectangle is left or the chosen one is too small.
    pub fn pack(&mut self, w: u16, h: u16, scores: &[u32]) -> (r: Option<(u16, u16)>)
        requires
            old(self).wf(),
            w != 0,
            h != 0,
            scores@.len() == old(self)@.2.len(),
        ensures
            final(self).wf(),
            final(self)@.0 == old(self)@.0,
            final(self)@.1 == old(self)@.1,
            old(self)@.2.len() == 0 ==> r is None && final(self)@ == old(self)@,
            old(self)@.2.len() > 0 ==> exists|i: int|
                #![trigger old(self)@.2[i]]
                is_first_min(old(self)@.2, w, h, scores@, i) && {
                    let f = old(self)@.2[i];
                    if w <= f.2 && h <= f.3 {
                        r == Some((f.0, f.1)) && final(self)@.2 == place_in(old(self)@.2, i, w, h)
                    } else {
                        r is None && final(self)@ == old(self)@
                    }
                },
            r is None && (forall|k: int|
                0 <= k < scores@.len() && w <= (#[trigger] old(self)@.2[k]).2 && h <= old(self)@.2[k].3
                    ==> scores@[k] < u32::MAX) ==> forall|k: int|
                0 <= k < old(self)@.2.len() ==> !(w <= (#[trigger] old(self)@.2[k]).2 && h <= old(
                    self,
                )@.2[k].3),
    {
        let n = self.free_rects.len();
        if n == 0 {
            return None;
        }
        let ghost rs = self@.2;
        let mut best: usize = 0;
        let (_, _, fw0, fh0) = self.free_rects[0].xywh();
        let mut best_key: u32 = if fw0 < w || fh0 < h { u32::MAX } else { scores[0] };
        let mut k: usize = 1;
        while k < n
            invariant
                n == rs.len(),
                rs == self@.2,
                scores@.len() == n,
                1 <= k <= n,
                best < k,
                best_key == fit_key(rs[best as int], w, h, scores@[best as int]),
                forall|j: int| 0 <= j < k ==> best_key <= #[trigger] fit_key(rs[j], w, h, scores@[j]),
                forall|j: int| 0 <= j < best ==> best_key < #[trigger] fit_key(rs[j], w, h, scores@[j]),
            decreases n - k,
        {
            let (_, _, fw, fh) = self.free_rects[k].xywh();
            let key: u32 = if fw < w || fh < h { u32::MAX } else { scores[k] };
            assert(rs[k as int] == self.free_rects@[k as int]@);
            if key < best_key {
                best = k;
                best_key = key;
            }
            k = k + 1;
        }
        assert(is_first_min(rs, w, h, scores@, best as int));
        let (x, y, fw, fh) = self.free_rects[best].xywh();
        assert(rs[best as int] == (x, y, fw, fh));
        assert(x + fw <= self.width && y + fh <= self.height);
        if w <= fw && h <= fh {
            if w < fw && h < fh {
                let (big, small) = Self::split(fw, fh, x, y, w, h);
                self.free_rects.set(best, small);
                self.free_rects.push(big);
            } else if w < fw {
                self.free_rects.set(best, Rect::new(x + w, y, fw - w, fh));
            } else if h < fh {
                self.free_rects.set(best, Rect::new(x, y + h, fw, fh - h));
            } else {
                self.free_rects.swap_remove(best);
            }
            assert(self@.2 =~= place_in(rs, best as int, w, h));
            Some((x, y))
        } else {
            proof {
                if forall|k: int|
                    0 <= k < scores@.len() && w <= (#[trigger] rs[k]).2 && h <= rs[k].3 ==> scores@[k]
                        < u32::MAX {
                    lemma_pack_fails_only_when_nothing_fits(rs, w, h, scores@, best as int);
                }
            }
            None
        }
    }

    /// The `i`-th free rectangle.
    pub fn free_rect(&self, i: usize) -> (r: Rect)
        requires
            i < self@.2.len(),
        ensures
            r@ == self@.2[i as int],
    {
        self.free_rects[i]
    }

    /// How many free rectangles there are.
    pub fn free_count(&self) -> (r: usize)
        ensures
            r == self@.2.len(),
    {
        self.free_rects.len()
    }

    /// Replaces the `i`-th free rectangle by `r`, which lies within the bin.
    pub fn set_free_rect(&mut self, i: usize, r: Rect)
        requires
            old(self).wf(),
            i < old(self)@.2.len(),
            r@.0 + r@.2 <= old(self)@.0,
            r@.1 + r@.3 <= old(self)@.1,
        ensures
            final(self).wf(),
            final(self)@ == (old(self)@.0, old(self)@.1, old(self)@.2.update(i as int, r@)),
    {
        self.free_rects.set(i, r);
        assert(self@.2 =~= old(self)@.2.update(i as int, r@));
    }

    /// Adds the free rectangle `r`, which lies within the bin.
    pub fn push_free_rect(&mut self, r: Rect)
        requires
            old(self).wf(),
            r@.0 + r@.2 <= old(self)@.0,
            r@.1 + r@.3 <= old(self)@.1,
        ensures
            final(self).wf(),
            final(self)@ == (old(self)@.0, old(self)@.1, old(self)@.2.push(r@)),
    {
        self.free_rects.push(r);
        assert(self@.2 =~= old(self)@.2.push(r@));
    }

    /// Drops the `i`-th free rectangle; the last one takes its place.
    pub fn remove_free_rect(&mut self, i: usize)
        requires
            old(self).wf(),
            i < old(self)@.2.len(),
        ensures
            final(self).wf(),
            final(self)@ == (
                old(self)@.0,
                old(self)@.1,
                old(self)@.2.update(i as int, old(self)@.2.last()).drop_last(),
            ),
    {
        self.free_rects.swap_remove(i);
        assert(self@.2 =~= old(self)@.2.update(i as int, old(self)@.2.last()).drop_last());
        proof {
            let o = old(self)@.2;
            assert forall|k: int| 0 <= k < self@.2.len() implies #[trigger] self@.2[k].0 + self@.2[k].2
                <= self@.0 && self@.2[k].1 + self@.2[k].3 <= self@.1 by {
                let j = if k == i { o.len() - 1 } else { k };
                assert(self@.2[k] == o[j]);
                assert(o[j].0 + o[j].2 <= old(self)@.0 && o[j].1 + o[j].3 <= old(self)@.1);
            }
        }
    }

    /// Widens the bin to `width` x `height`; the free rectangles stay as they are.
    pub fn set_size(&mut self, width: u16, height: u16)
        requires
            old(self).wf(),
            width >= old(self)@.0,
            height >= old(self)@.1,
        ensures
            final(self).wf(),
            final(self)@ == (width, height, old(self)@.2),
    {
        self.width = width;
        self.height = height;
    }

    /// Forgets everything packed: one free rectangle, the whole bin.
    pub fn reset(&mut self)
        ensures
            final(self)@ == (old(self)@.0, old(self)@.1, seq![(0u16, 0u16, old(self)@.0, old(self)@.1)]),
            final(self).wf(),
    {
        let mut free_rects: Vec<Rect> = Vec::new();
        free_rects.push(Rect::new(0, 0, self.width, self.height));
        self.free_rects = free_rects;
        assert(self@.2 =~= seq![(0u16, 0u16, self.width, self.height)]);
    }

    pub fn width(&self) -> (r: u16)
        ensures
            r == self@.0,
    {
        self.width
    }

    pub fn height(&self) -> (r: u16)
        ensures
            r == self@.1,
    {
        self.height
    }
}

proof fn lemma_adj_scan_full_stays(rects: Seq<Quad>, x: u16, y: u16, w: u16, h: u16, i: nat, n: nat)
    requires
        i <= n,
        adj_full(adj_scan(rects, x, y, w, h, i)),
    ensures
        adj_scan(rects, x, y, w, h, n) == adj_scan(rects, x, y, w, h, i),
    decreases n - i,
{
    if i < n {
        lemma_adj_scan_full_stays(rects, x, y, w, h, i, (n - 1) as nat);
    }
}

proof fn lemma_adj_scan_idx(rects: Seq<Quad>, x: u16, y: u16, w: u16, h: u16, n: nat)
    requires
        n <= rects.len(),
    ensures
        ({
            let s = adj_scan(rects, x, y, w, h, n);
            &&& s.0 matches Some(a) ==> adj_idx(a) < n
            &&& s.1 matches Some(a) ==> adj_idx(a) < n
            &&& s.2 matches Some(a) ==> adj_idx(a) < n
            &&& s.3 matches Some(a) ==> adj_idx(a) < n
        }),
    decreases n,
{
    if n > 0 {
        lemma_adj_scan_idx(rects, x, y, w, h, (n - 1) as nat);
    }
}

} // verus!
