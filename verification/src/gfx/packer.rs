use vstd::prelude::*;

verus! {

// ---------------------------------------------------------------------------
// Rect
// ---------------------------------------------------------------------------

/// The packed form of a rectangle: `w` in bits 48..64, `h` in 32..48, `x` in 16..32, `y` in 0..16.
pub open spec fn pack_whxy(x: u16, y: u16, w: u16, h: u16) -> u64 {
    ((w as u64) << 48u64) | ((h as u64) << 32u64) | ((x as u64) << 16u64) | (y as u64)
}

proof fn lemma_unpack_bv(x: u16, y: u16, w: u16, h: u16)
    by (bit_vector)
    ensures
        ((((w as u64) << 48u64) | ((h as u64) << 32u64) | ((x as u64) << 16u64) | (y as u64)) >> 16u64) as u16 == x,
        (((w as u64) << 48u64) | ((h as u64) << 32u64) | ((x as u64) << 16u64) | (y as u64)) as u16 == y,
        ((((w as u64) << 48u64) | ((h as u64) << 32u64) | ((x as u64) << 16u64) | (y as u64)) >> 48u64) as u16 == w,
        ((((w as u64) << 48u64) | ((h as u64) << 32u64) | ((x as u64) << 16u64) | (y as u64)) >> 32u64) as u16 == h,
{
}

proof fn lemma_repack_bv(r: u64)
    by (bit_vector)
    ensures
        ((((r >> 48u64) as u16) as u64) << 48u64) | ((((r >> 32u64) as u16) as u64) << 32u64) | ((((r
            >> 16u64) as u16) as u64) << 16u64) | ((r as u16) as u64) == r,
{
}

/// A rectangle `(x, y, w, h)` with 16-bit fields, held packed in a `u64`.
#[derive(Clone, Copy, Default, PartialEq, Eq, Structural)]
pub struct Rect(u64);

impl View for Rect {
    /// `(x, y, w, h)`.
    type V = (u16, u16, u16, u16);

    closed spec fn view(&self) -> (u16, u16, u16, u16) {
        (
            (self.0 >> 16u64) as u16,
            self.0 as u16,
            (self.0 >> 48u64) as u16,
            (self.0 >> 32u64) as u16,
        )
    }
}

impl Rect {
    /// The packed value.
    pub closed spec fn packed(&self) -> u64 {
        self.0
    }

    pub fn new(x: u16, y: u16, w: u16, h: u16) -> (r: Self)
        ensures
            r@ == (x, y, w, h),
            r.packed() == pack_whxy(x, y, w, h),
    {
        proof {
            lemma_unpack_bv(x, y, w, h);
        }
        Self(((w as u64) << 48u64) | ((h as u64) << 32u64) | ((x as u64) << 16u64) | y as u64)
    }

    pub fn xywh(self) -> (r: (u16, u16, u16, u16))
        ensures
            r == self@,
    {
        let r = self.0;
        ((r >> 16u64) as u16, r as u16, (r >> 48u64) as u16, (r >> 32u64) as u16)
    }

    pub fn xy(self) -> (r: (u16, u16))
        ensures
            r == (self@.0, self@.1),
    {
        let r = self.0;
        ((r >> 16u64) as u16, r as u16)
    }

    pub fn wh(self) -> (r: (u16, u16))
        ensures
            r == (self@.2, self@.3),
    {
        let r = self.0;
        ((r >> 48u64) as u16, (r >> 32u64) as u16)
    }

    /// `w << 48 | h << 32 | x << 16 | y`.
    pub fn packed_whxy(self) -> (r: u64)
        ensures
            r == pack_whxy(self@.0, self@.1, self@.2, self@.3),
            r == self.packed(),
    {
        proof {
            lemma_repack_bv(self.0);
        }
        self.0
    }

    pub fn area(self) -> (r: u32)
        ensures
            r == self@.2 * self@.3,
    {
        let (w, h) = self.wh();
        proof {
            vstd::arithmetic::mul::lemma_mul_upper_bound(w as int, 0xffff, h as int, 0xffff);
        }
        w as u32 * h as u32
    }

    pub fn perim(self) -> (r: u32)
        ensures
            r == self@.2 + self@.3,
    {
        let (w, h) = self.wh();
        w as u32 + h as u32
    }
}


/// Two rectangles are equal exactly when their fields are: packing loses no field.
pub proof fn lemma_rect_eq_iff_fields(a: Rect, b: Rect)
    ensures
        a == b <==> a@ == b@,
        a == b <==> a.packed() == b.packed(),
{
    lemma_repack_bv(a.0);
    lemma_repack_bv(b.0);
}

/// Packing is one to one: two packed forms are equal exactly when their fields are.
pub proof fn lemma_pack_whxy_injective(
    x1: u16,
    y1: u16,
    w1: u16,
    h1: u16,
    x2: u16,
    y2: u16,
    w2: u16,
    h2: u16,
)
    ensures
        pack_whxy(x1, y1, w1, h1) == pack_whxy(x2, y2, w2, h2) <==> (x1, y1, w1, h1) == (x2, y2, w2,
            h2),
{
    lemma_unpack_bv(x1, y1, w1, h1);
    lemma_unpack_bv(x2, y2, w2, h2);
}

// ---------------------------------------------------------------------------
// Shelf
// ---------------------------------------------------------------------------

/// The state of a shelf packer: `(width, height, xpos, ypos, row_max_height)`.
pub type ShelfState = (u16, u16, u16, u16, u16);

/// Where the next `w` x `h` rectangle goes: the current row when it still fits across,
/// else the start of a new row on top of the current one.
pub open spec fn shelf_slot(s: ShelfState, w: u16) -> (int, int, int) {
    let (width, _height, xpos, ypos, rmh) = s;
    if xpos + w > width {
        (0, ypos + rmh, 0)
    } else {
        (xpos as int, ypos as int, rmh as int)
    }
}

/// Packing `w` x `h` never overflows a `u16`.
pub open spec fn shelf_fits_u16(s: ShelfState, w: u16, h: u16) -> bool {
    let (x1, y1, _r1) = shelf_slot(s, w);
    &&& s.2 + w <= u16::MAX
    &&& y1 <= u16::MAX
    &&& y1 + h <= u16::MAX
}

/// The state after packing `w` x `h` and where it went, `None` when it does not fit.
pub open spec fn shelf_pack(s: ShelfState, w: u16, h: u16) -> (ShelfState, Option<(u16, u16)>) {
    let (width, height, _xpos, _ypos, _rmh) = s;
    let (x1, y1, r1) = shelf_slot(s, w);
    if y1 + h > height || x1 + w > width {
        ((width, height, x1 as u16, y1 as u16, r1 as u16), None)
    } else {
        (
            (width, height, (x1 + w) as u16, y1 as u16, (if r1 >= h { r1 } else { h as int }) as u16),
            Some((x1 as u16, y1 as u16)),
        )
    }
}

/// The order key of a `(w, h)` request: taller first, then wider.
pub open spec fn shelf_key(r: (u16, u16)) -> nat {
    (r.1 * 65535 + r.0) as nat
}

/// How many of the requests listed in `order` have a key of at least `k`.
pub open spec fn count_key_ge(order: Seq<usize>, rects: Seq<(u16, u16)>, k: nat) -> nat
    decreases order.len(),
{
    if order.len() == 0 {
        0
    } else {
        count_key_ge(order.drop_last(), rects, k) + (if shelf_key(rects[order.last() as int]) >= k {
            1nat
        } else {
            0nat
        })
    }
}

/// The first `n` requests in packing order: by key from the largest, equal keys in the order
/// given. Each request goes in after every earlier one whose key is at least as large.
pub open spec fn shelf_order(rects: Seq<(u16, u16)>, n: nat) -> Seq<usize>
    decreases n,
{
    if n == 0 {
        Seq::empty()
    } else {
        let o = shelf_order(rects, (n - 1) as nat);
        o.insert(count_key_ge(o, rects, shelf_key(rects[n - 1])) as int, (n - 1) as usize)
    }
}

/// The state and the positions after packing the first `k` requests of `order`, starting from
/// `s` with every position unset.
pub open spec fn shelf_run(s: ShelfState, rects: Seq<(u16, u16)>, order: Seq<usize>, k: nat) -> (
    ShelfState,
    Seq<Option<(u16, u16)>>,
)
    decreases k,
{
    if k == 0 {
        (s, Seq::new(rects.len(), |_i: int| None))
    } else {
        let (s1, res) = shelf_run(s, rects, order, (k - 1) as nat);
        let r = rects[order[k - 1] as int];
        let (s2, p) = shelf_pack(s1, r.0, r.1);
        (s2, res.update(order[k - 1] as int, p))
    }
}

/// Each of the first `k` packing steps gets a request of nonzero size that cannot overflow.
pub open spec fn shelf_run_fits(s: ShelfState, rects: Seq<(u16, u16)>, order: Seq<usize>, k: nat) -> bool
    decreases k,
{
    if k == 0 {
        true
    } else {
        let r = rects[order[k - 1] as int];
        &&& shelf_run_fits(s, rects, order, (k - 1) as nat)
        &&& r.0 != 0 && r.1 != 0
        &&& shelf_fits_u16(shelf_run(s, rects, order, (k - 1) as nat).0, r.0, r.1)
    }
}

proof fn lemma_shelf_order(rects: Seq<(u16, u16)>, n: nat)
    requires
        n <= rects.len(),
    ensures
        shelf_order(rects, n).len() == n,
        forall|k: int| 0 <= k < n ==> #[trigger] shelf_order(rects, n)[k] < n,
    decreases n,
{
    if n > 0 {
        lemma_shelf_order(rects, (n - 1) as nat);
        let o = shelf_order(rects, (n - 1) as nat);
        lemma_count_le(o, rects, shelf_key(rects[n - 1]));
    }
}

proof fn lemma_count_le(order: Seq<usize>, rects: Seq<(u16, u16)>, k: nat)
    ensures
        count_key_ge(order, rects, k) <= order.len(),
    decreases order.len(),
{
    if order.len() > 0 {
        lemma_count_le(order.drop_last(), rects, k);
    }
}


/// The order in which `pack_all` places the requests, as `shelf_order` says.
fn shelf_order_exec(rects: &[(u16, u16)]) -> (order: Vec<usize>)
    ensures
        order@ == shelf_order(rects@, rects@.len()),
{
    let n = rects.len();
    let mut order: Vec<usize> = Vec::new();
    let mut i: usize = 0;
    while i < n
        invariant
            i <= n,
            n == rects@.len(),
            order@ == shelf_order(rects@, i as nat),
        decreases n - i,
    {
        proof {
            lemma_shelf_order(rects@, i as nat);
        }
        let (wi, hi) = rects[i];
        let ki: u32 = hi as u32 * 65535 + wi as u32;
        let mut c: usize = 0;
        let mut j: usize = 0;
        while j < order.len()
            invariant
                j <= order@.len(),
                order@ == shelf_order(rects@, i as nat),
                order@.len() == i,
                i < n,
                n == rects@.len(),
                forall|q: int| 0 <= q < i ==> #[trigger] order@[q] < i,
                ki == shelf_key(rects@[i as int]),
                c == count_key_ge(order@.subrange(0, j as int), rects@, ki as nat),
                c <= j,
            decreases order@.len() - j,
        {
            let (wj, hj) = rects[order[j]];
            let kj: u32 = hj as u32 * 65535 + wj as u32;
            proof {
                assert(order@.subrange(0, j + 1).drop_last() =~= order@.subrange(0, j as int));
            }
            if kj >= ki {
                c = c + 1;
            }
            j = j + 1;
        }
        assert(order@.subrange(0, order@.len() as int) =~= order@);
        order.insert(c, i);
        i = i + 1;
    }
    order
}

/// A packer that fills rows left to right and starts a new row on top when one is full.
pub struct Shelf {
    width: u16,
    height: u16,
    xpos: u16,
    ypos: u16,
    row_max_height: u16,
}

impl View for Shelf {
    type V = ShelfState;

    closed spec fn view(&self) -> ShelfState {
        (self.width, self.height, self.xpos, self.ypos, self.row_max_height)
    }
}

impl Shelf {
    pub fn new(width: u16, height: u16) -> (r: Self)
        ensures
            r@ == (width, height, 0u16, 0u16, 0u16),
    {
        Self { width, height, xpos: 0, ypos: 0, row_max_height: 0 }
    }

    /// Places a `w` x `h` rectangle and returns its position, or `None` when it does not fit.
    pub fn pack(&mut self, w: u16, h: u16) -> (r: Option<(u16, u16)>)
        requires
            w != 0,
            h != 0,
            shelf_fits_u16(old(self)@, w, h),
        ensures
            (final(self)@, r) == shelf_pack(old(self)@, w, h),
    {
        if self.xpos + w > self.width {
            self.xpos = 0;
            self.ypos = self.ypos + self.row_max_height;
            self.row_max_height = 0;
        }
        if self.ypos + h > self.height || self.xpos + w > self.width {
            None
        } else {
            let pos = Some((self.xpos, self.ypos));
            self.row_max_height = if self.row_max_height >= h { self.row_max_height } else { h };
            self.xpos = self.xpos + w;
            pos
        }
    }

    /// Packs every request, the tallest (then widest) first, and returns where each went, in
    /// the order of the requests.
    pub fn pack_all(&mut self, rects: &[(u16, u16)]) -> (r: Vec<Option<(u16, u16)>>)
        requires
            shelf_run_fits(old(self)@, rects@, shelf_order(rects@, rects@.len()), rects@.len()),
        ensures
            (final(self)@, r@) == shelf_run(
                old(self)@,
                rects@,
                shelf_order(rects@, rects@.len()),
                rects@.len(),
            ),
    {
        let n = rects.len();
        let order = shelf_order_exec(rects);
        proof {
            lemma_shelf_order(rects@, n as nat);
        }
        let mut res: Vec<Option<(u16, u16)>> = Vec::new();
        let mut z: usize = 0;
        while z < n
            invariant
                z <= n,
                res@ == Seq::new(z as nat, |_i: int| None::<(u16, u16)>),
            decreases n - z,
        {
            res.push(None);
            z = z + 1;
            assert(res@ =~= Seq::new(z as nat, |_i: int| None::<(u16, u16)>));
        }
        let ghost s0 = self@;
        let mut k: usize = 0;
        while k < n
            invariant
                k <= n,
                n == rects@.len(),
                order@ == shelf_order(rects@, n as nat),
                order@.len() == n,
                forall|q: int| 0 <= q < n ==> #[trigger] order@[q] < n,
                shelf_run_fits(s0, rects@, order@, n as nat),
                (self@, res@) == shelf_run(s0, rects@, order@, k as nat),
            decreases n - k,
        {
            proof {
                lemma_run_fits_prefix(s0, rects@, order@, (k + 1) as nat, n as nat);
                lemma_run_len(s0, rects@, order@, k as nat);
            }
            let idx = order[k];
            let (w, h) = rects[idx];
            let p = self.pack(w, h);
            res.set(idx, p);
            k = k + 1;
        }
        res
    }

    /// Whether packing `w` x `h` next keeps every coordinate within `u16`.
    pub fn fits_u16(&self, w: u16, h: u16) -> (r: bool)
        ensures
            r == shelf_fits_u16(self@, w, h),
    {
        let (x1, y1): (u32, u32) = if self.xpos as u32 + w as u32 > self.width as u32 {
            (0, self.ypos as u32 + self.row_max_height as u32)
        } else {
            (self.xpos as u32, self.ypos as u32)
        };
        self.xpos as u32 + w as u32 <= 0xFFFF && y1 <= 0xFFFF && y1 + h as u32 <= 0xFFFF
    }

    /// Whether `pack_all(rects)` keeps every coordinate within `u16` and meets no empty request.
    pub fn fits_all(&self, rects: &[(u16, u16)]) -> (r: bool)
        ensures
            r == shelf_run_fits(self@, rects@, shelf_order(rects@, rects@.len()), rects@.len()),
    {
        let n = rects.len();
        let order = shelf_order_exec(rects);
        proof {
            lemma_shelf_order(rects@, n as nat);
        }
        let ghost s0 = self@;
        let mut s = Shelf {
            width: self.width,
            height: self.height,
            xpos: self.xpos,
            ypos: self.ypos,
            row_max_height: self.row_max_height,
        };
        let mut k: usize = 0;
        while k < n
            invariant
                k <= n,
                n == rects@.len(),
                order@ == shelf_order(rects@, n as nat),
                order@.len() == n,
                forall|q: int| 0 <= q < n ==> #[trigger] order@[q] < n,
                s0 == self@,
                shelf_run_fits(s0, rects@, order@, k as nat),
                s@ == shelf_run(s0, rects@, order@, k as nat).0,
            decreases n - k,
        {
            let (w, h) = rects[order[k]];
            if w == 0 || h == 0 || !s.fits_u16(w, h) {
                assert(rects@[order@[k as int] as int] == (w, h));
                assert(!shelf_run_fits(s0, rects@, order@, (k + 1) as nat));
                proof {
                    if shelf_run_fits(s0, rects@, order@, n as nat) {
                        lemma_run_fits_prefix(s0, rects@, order@, (k + 1) as nat, n as nat);
                    }
                }
                return false;
            }
            s.pack(w, h);
            k = k + 1;
        }
        true
    }

    /// Starts over with nothing packed.
    pub fn reset(&mut self)
        ensures
            final(self)@ == (old(self)@.0, old(self)@.1, 0u16, 0u16, 0u16),
    {
        self.xpos = 0;
        self.ypos = 0;
        self.row_max_height = 0;
    }

    /// Changes the bounds and keeps what is packed.
    pub fn resize(&mut self, width: u16, height: u16)
        ensures
            final(self)@ == (width, height, old(self)@.2, old(self)@.3, old(self)@.4),
    {
        self.width = width;
        self.height = height;
    }

    pub fn width(&self) -> (r: u16)
        ensures
            r == self@.0,
    {
        self.width
    }

    pub fn height(&self) -> (r: u16)
        ensures
            r == self@.1,
    {
        self.height
    }
}

proof fn lemma_run_len(s: ShelfState, rects: Seq<(u16, u16)>, order: Seq<usize>, k: nat)
    requires
        k <= order.len(),
        forall|q: int| 0 <= q < order.len() ==> #[trigger] order[q] < rects.len(),
    ensures
        shelf_run(s, rects, order, k).1.len() == rects.len(),
    decreases k,
{
    if k > 0 {
        lemma_run_len(s, rects, order, (k - 1) as nat);
    }
}

proof fn lemma_run_fits_prefix(s: ShelfState, rects: Seq<(u16, u16)>, order: Seq<usize>, k: nat, n: nat)
    requires
        k <= n,
        shelf_run_fits(s, rects, order, n),
    ensures
        shelf_run_fits(s, rects, order, k),
    decreases n - k,
{
    if k < n {
        lemma_run_fits_prefix(s, rects, order, k, (n - 1) as nat);
    }
}

/// The part of the bin a shelf packer has used: every row below the current one, and the
/// current row left of `xpos` up to its tallest rectangle.
pub open spec fn shelf_used(s: ShelfState, px: int, py: int) -> bool {
    let (_width, _height, xpos, ypos, rmh) = s;
    (0 <= py < ypos && px >= 0) || (ypos <= py < ypos + rmh && 0 <= px < xpos)
}

/// Packing never overlaps what is packed: a rectangle that `pack` places lies inside the bin,
/// shares no point with the used part, and the used part afterwards holds both.
pub proof fn lemma_shelf_pack_disjoint(s: ShelfState, w: u16, h: u16)
    requires
        w != 0,
        h != 0,
        shelf_fits_u16(s, w, h),
    ensures
        ({
            let (s2, r) = shelf_pack(s, w, h);
            r matches Some((x, y)) ==> {
                &&& x + w <= s.0 && y + h <= s.1
                &&& forall|px: int, py: int| x <= px < x + w && y <= py < y + h ==> !shelf_used(s, px, py)
                &&& forall|px: int, py: int| x <= px < x + w && y <= py < y + h ==> shelf_used(s2, px, py)
                &&& forall|px: int, py: int| shelf_used(s, px, py) ==> shelf_used(s2, px, py)
            }
        }),
{
}

} // verus!
