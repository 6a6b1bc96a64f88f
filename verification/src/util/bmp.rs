use vstd::prelude::*;
use crate::qoi::ImageData;
use crate::util::bytes::{byte_bound, le_bytes, le_value, lemma_le_roundtrip, lemma_le_value_2, lemma_le_value_4};
use crate::util::writer::le_bytes_of;

verus! {

/// Why a BMP stream was refused.
#[derive(Debug, Clone, Copy, PartialEq, Eq, Structural)]
pub enum BmpError {
    /// The stream ends inside the header, the colour table or the pixel rows.
    Truncated,
    /// The stream does not start with `BM`.
    BadMagic,
    /// The file size in the header is no larger than the header itself.
    TooSmall,
    /// The pixel data would start inside the header.
    BadOffset,
    /// The info header is not the 40-byte kind.
    BadInfoSize,
    /// The pixels are compressed.
    Compressed,
    /// The bit count is none of 1, 4, 8, 16, 24, 32.
    BadBitCount,
    /// The bit count is one of 1, 4, 16, whose rows are not read.
    Unsupported,
}

/// The length of the file header and the info header together.
pub const BMP_HEAD_LEN: usize = 54;

/// The 16-bit little-endian value at `i`.
pub open spec fn le16_at(d: Seq<u8>, i: int) -> nat {
    le_value(d.subrange(i, i + 2))
}

/// The 32-bit little-endian value at `i`.
pub open spec fn le32_at(d: Seq<u8>, i: int) -> nat {
    le_value(d.subrange(i, i + 4))
}

/// The first `n` 3-byte groups of `row`, each with its first and last byte swapped.
pub open spec fn swap3(row: Seq<u8>, n: nat) -> Seq<u8>
    decreases n,
{
    if n == 0 {
        Seq::empty()
    } else {
        swap3(row, (n - 1) as nat) + seq![row[3 * n - 1], row[3 * n - 2], row[3 * n - 3]]
    }
}

/// The first `n` 4-byte groups of `row`, each with its first and third byte swapped.
pub open spec fn swap4(row: Seq<u8>, n: nat) -> Seq<u8>
    decreases n,
{
    if n == 0 {
        Seq::empty()
    } else {
        swap4(row, (n - 1) as nat) + seq![row[4 * n - 2], row[4 * n - 3], row[4 * n - 4], row[4 * n - 1]]
    }
}

/// The pixels that a stored row gives: the first `w` bytes at 8 bits, every whole 3-byte group
/// (the padding too) turned from BGR to RGB at 24 bits, every 4-byte group turned from BGRA to
/// RGBA at 32 bits.
pub open spec fn bmp_row(row: Seq<u8>, bc: nat, w: nat) -> Seq<u8> {
    if bc == 8 {
        row.subrange(0, w as int)
    } else if bc == 24 {
        swap3(row, row.len() / 3)
    } else {
        swap4(row, row.len() / 4)
    }
}

/// The pixels of the first `h` stored rows of `rs` bytes from `off` on.
pub open spec fn bmp_rows(d: Seq<u8>, off: nat, rs: nat, bc: nat, w: nat, h: nat) -> Seq<u8>
    decreases h,
{
    if h == 0 {
        Seq::empty()
    } else {
        bmp_rows(d, off, rs, bc, w, (h - 1) as nat) + bmp_row(
            d.subrange((off + (h - 1) * rs) as int, (off + h * rs) as int),
            bc,
            w,
        )
    }
}

/// The length of a stored row: `w` pixels of `bc` bits, padded to 4 bytes.
pub open spec fn row_len(w: nat, bc: nat) -> nat {
    (w * bc + 31) / 32 * 4
}

/// The channel count for a bit count.
pub open spec fn bmp_channels(bc: nat) -> Option<u8> {
    if bc == 1 || bc == 4 || bc == 8 {
        Some(1u8)
    } else if bc == 16 || bc == 24 {
        Some(3u8)
    } else if bc == 32 {
        Some(4u8)
    } else {
        None
    }
}

/// What decoding `d` gives: the pixels, width, height and channel count, or why `d` is refused,
/// checked in the order in which the header is read.
pub open spec fn bmp_decode(d: Seq<u8>) -> Result<(Seq<u8>, u32, u32, u8), BmpError> {
    if d.len() < 2 {
        Err(BmpError::Truncated)
    } else if d[0] != 0x42 || d[1] != 0x4D {
        Err(BmpError::BadMagic)
    } else if d.len() < 6 {
        Err(BmpError::Truncated)
    } else if le32_at(d, 2) <= BMP_HEAD_LEN {
        Err(BmpError::TooSmall)
    } else if d.len() < 14 {
        Err(BmpError::Truncated)
    } else if le32_at(d, 10) < BMP_HEAD_LEN {
        Err(BmpError::BadOffset)
    } else if d.len() < 18 {
        Err(BmpError::Truncated)
    } else if le32_at(d, 14) != 40 {
        Err(BmpError::BadInfoSize)
    } else if d.len() < 34 {
        Err(BmpError::Truncated)
    } else if le32_at(d, 30) != 0 {
        Err(BmpError::Compressed)
    } else if d.len() < 50 {
        Err(BmpError::Truncated)
    } else {
        let off = le32_at(d, 10);
        let w = le32_at(d, 18);
        let h = le32_at(d, 22);
        let bc = le16_at(d, 28);
        let cu = le32_at(d, 46);
        let rs = row_len(w, bc);
        if bc <= 8 && BMP_HEAD_LEN + 4 * cu > d.len() {
            Err(BmpError::Truncated)
        } else {
            match bmp_channels(bc) {
                None => Err(BmpError::BadBitCount),
                Some(ch) => {
                    if h == 0 {
                        Ok((Seq::empty(), w as u32, h as u32, ch))
                    } else if off + rs > d.len() {
                        Err(BmpError::Truncated)
                    } else if bc != 8 && bc != 24 && bc != 32 {
                        Err(BmpError::Unsupported)
                    } else if off + h * rs > d.len() {
                        Err(BmpError::Truncated)
                    } else {
                        Ok((bmp_rows(d, off, rs, bc, w, h), w as u32, h as u32, ch))
                    }
                },
            }
        }
    }
}

/// Reads the 16-bit little-endian value at `i`.
fn read_le16(d: &[u8], i: usize) -> (r: u16)
    requires
        i + 2 <= d@.len(),
    ensures
        r == le16_at(d@, i as int),
{
    proof {
        lemma_le_value_2(d@.subrange(i as int, i + 2));
    }
    d[i] as u16 + (d[i + 1] as u16) * 0x100
}

/// Reads the 32-bit little-endian value at `i`.
fn read_le32(d: &[u8], i: usize) -> (r: u32)
    requires
        i + 4 <= d@.len(),
    ensures
        r == le32_at(d@, i as int),
{
    proof {
        lemma_le_value_4(d@.subrange(i as int, i + 4));
    }
    d[i] as u32 + (d[i + 1] as u32) * 0x100 + (d[i + 2] as u32) * 0x1_0000 + (d[i + 3] as u32)
        * 0x100_0000
}

proof fn lemma_swap3_len(row: Seq<u8>, n: nat)
    ensures
        swap3(row, n).len() == 3 * n,
    decreases n,
{
    if n > 0 {
        lemma_swap3_len(row, (n - 1) as nat);
    }
}

proof fn lemma_swap4_len(row: Seq<u8>, n: nat)
    ensures
        swap4(row, n).len() == 4 * n,
    decreases n,
{
    if n > 0 {
        lemma_swap4_len(row, (n - 1) as nat);
    }
}

/// Appends to `out` the pixels of the stored row `row`, as `bmp_row` says.
fn push_row(out: &mut Vec<u8>, row: &[u8], bc: u16, w: usize)
    requires
        bc == 8 || bc == 24 || bc == 32,
        bc == 8 ==> w <= row@.len(),
    ensures
        final(out)@ == old(out)@ + bmp_row(row@, bc as nat, w as nat),
{
    let ghost o = out@;
    let len = row.len();
    if bc == 8 {
        let mut k: usize = 0;
        while k < w
            invariant
                k <= w <= row@.len(),
                out@ == o + row@.subrange(0, k as int),
            decreases w - k,
        {
            out.push(row[k]);
            k = k + 1;
            assert(out@ =~= o + row@.subrange(0, k as int));
        }
    } else if bc == 24 {
        let n = row.len() / 3;
        let mut j: usize = 0;
        while j < n
            invariant
                j <= n,
                n == row@.len() / 3,
                len == row@.len(),
                out@ == o + swap3(row@, j as nat),
            decreases n - j,
        {
            assert(3 * j + 3 <= row@.len()) by (nonlinear_arith)
                requires
                    j < n,
                    n == row@.len() / 3,
            ;
            let b = 3 * j;
            out.push(row[b + 2]);
            out.push(row[b + 1]);
            out.push(row[b]);
            j = j + 1;
            assert(out@ =~= o + swap3(row@, j as nat));
        }
    } else {
        let n = row.len() / 4;
        let mut j: usize = 0;
        while j < n
            invariant
                j <= n,
                n == row@.len() / 4,
                len == row@.len(),
                out@ == o + swap4(row@, j as nat),
            decreases n - j,
        {
            assert(4 * j + 4 <= row@.len()) by (nonlinear_arith)
                requires
                    j < n,
                    n == row@.len() / 4,
            ;
            let b = 4 * j;
            out.push(row[b + 2]);
            out.push(row[b + 1]);
            out.push(row[b]);
            out.push(row[b + 3]);
            j = j + 1;
            assert(out@ =~= o + swap4(row@, j as nat));
        }
    }
}

/// `n` zero bytes.
pub open spec fn zeros(n: nat) -> Seq<u8> {
    Seq::new(n, |_k: int| 0u8)
}

/// A grey colour table of `n` entries: entry `i` is `i i i 0`.
pub open spec fn bmp_palette(n: nat) -> Seq<u8>
    decreases n,
{
    if n == 0 {
        Seq::empty()
    } else {
        bmp_palette((n - 1) as nat) + seq![(n - 1) as u8, (n - 1) as u8, (n - 1) as u8, 0u8]
    }
}

/// A row of `w` pixels of `ch` bytes as stored: RGB turned to BGR, RGBA to BGRA.
pub open spec fn out_row(row: Seq<u8>, ch: nat, w: nat) -> Seq<u8> {
    if ch == 1 {
        row
    } else if ch == 3 {
        swap3(row, w)
    } else {
        swap4(row, w)
    }
}

/// The first `h` rows of `img`, each stored and followed by `pad` zero bytes.
pub open spec fn bmp_body(img: Seq<u8>, w: nat, ch: nat, pad: nat, h: nat) -> Seq<u8>
    decreases h,
{
    if h == 0 {
        Seq::empty()
    } else {
        bmp_body(img, w, ch, pad, (h - 1) as nat) + out_row(
            img.subrange(((h - 1) * w * ch) as int, (h * w * ch) as int),
            ch,
            w,
        ) + zeros(pad)
    }
}

/// The 54-byte header.
pub open spec fn bmp_header(fs: nat, off: nat, w: nat, h: nat, bc: nat, padded: nat, cu: nat) -> Seq<
    u8,
> {
    seq![0x42u8, 0x4Du8] + le_bytes(fs, 4) + le_bytes(0, 4) + le_bytes(off, 4) + le_bytes(40, 4)
        + le_bytes(w, 4) + le_bytes(h, 4) + le_bytes(1, 2) + le_bytes(bc, 2) + le_bytes(0, 4)
        + le_bytes(padded, 4) + le_bytes(0, 4) + le_bytes(0, 4) + le_bytes(cu, 4) + le_bytes(0, 4)
}

/// The number of colour-table entries written for `ch` channels.
pub open spec fn bmp_colors(ch: nat) -> nat {
    if ch == 1 {
        256
    } else {
        0
    }
}

/// What encoding `img` gives: header, colour table (a grey ramp for one channel), then each row
/// stored and padded to 4 bytes.
pub open spec fn bmp_encode(img: Seq<u8>, w: u32, h: u32, ch: u8) -> Seq<u8> {
    let bc = ch * 8;
    let cu = bmp_colors(ch as nat);
    let off = BMP_HEAD_LEN + 4 * cu;
    let rs = row_len(w as nat, bc as nat);
    let padded = rs * h;
    bmp_header((off + padded) as nat, off as nat, w as nat, h as nat, bc as nat, padded as nat, cu)
        + bmp_palette(cu) + bmp_body(img, w as nat, ch as nat, (rs - w * ch) as nat, h as nat)
}

/// What `encode` needs: a non-empty image of `height` whole rows of `width` pixels of 1, 3 or 4
/// bytes (a shorter tail is ignored), whose file size fits in 32 bits.
pub open spec fn bmp_encodable(img: Seq<u8>, w: u32, h: u32, ch: u8) -> bool {
    &&& img.len() > 0
    &&& w != 0
    &&& h != 0
    &&& ch == 1 || ch == 3 || ch == 4
    &&& w * (ch * 8) + 31 <= u32::MAX
    &&& BMP_HEAD_LEN + 4 * bmp_colors(ch as nat) + row_len(w as nat, (ch * 8) as nat) * h <= u32::MAX
    &&& img.len() as int / (w * ch) == h
}

fn push_le(out: &mut Vec<u8>, x: u32, n: usize)
    ensures
        final(out)@ == old(out)@ + le_bytes(x as nat, n as nat),
{
    let mut b = le_bytes_of(x as u64, n);
    out.append(&mut b);
}

proof fn lemma_swap3_prefix(a: Seq<u8>, b: Seq<u8>, n: nat)
    requires
        3 * n <= a.len(),
    ensures
        swap3(a + b, n) == swap3(a, n),
    decreases n,
{
    if n > 0 {
        lemma_swap3_prefix(a, b, (n - 1) as nat);
    }
}

proof fn lemma_swap4_prefix(a: Seq<u8>, b: Seq<u8>, n: nat)
    requires
        4 * n <= a.len(),
    ensures
        swap4(a + b, n) == swap4(a, n),
    decreases n,
{
    if n > 0 {
        lemma_swap4_prefix(a, b, (n - 1) as nat);
    }
}

proof fn lemma_swap3_twice(x: Seq<u8>, n: nat)
    requires
        3 * n <= x.len(),
    ensures
        swap3(swap3(x, n), n) == x.subrange(0, (3 * n) as int),
    decreases n,
{
    lemma_swap3_len(x, n);
    if n > 0 {
        let k = (n - 1) as nat;
        let y = swap3(x, n);
        let tail = seq![x[3 * n - 1], x[3 * n - 2], x[3 * n - 3]];
        assert(y == swap3(x, k) + tail);
        lemma_swap3_len(x, k);
        lemma_swap3_prefix(swap3(x, k), tail, k);
        lemma_swap3_twice(x, k);
        assert(swap3(y, n) == swap3(y, k) + seq![y[3 * n - 1], y[3 * n - 2], y[3 * n - 3]]);
        assert(swap3(y, n) =~= x.subrange(0, (3 * n) as int));
    } else {
        assert(x.subrange(0, 0) =~= Seq::<u8>::empty());
    }
}

proof fn lemma_swap4_twice(x: Seq<u8>, n: nat)
    requires
        4 * n <= x.len(),
    ensures
        swap4(swap4(x, n), n) == x.subrange(0, (4 * n) as int),
    decreases n,
{
    lemma_swap4_len(x, n);
    if n > 0 {
        let k = (n - 1) as nat;
        let y = swap4(x, n);
        let tail = seq![x[4 * n - 2], x[4 * n - 3], x[4 * n - 4], x[4 * n - 1]];
        assert(y == swap4(x, k) + tail);
        lemma_swap4_len(x, k);
        lemma_swap4_prefix(swap4(x, k), tail, k);
        lemma_swap4_twice(x, k);
        assert(swap4(y, n) == swap4(y, k) + seq![y[4 * n - 2], y[4 * n - 3], y[4 * n - 4], y[4 * n - 1]]);
        assert(swap4(y, n) =~= x.subrange(0, (4 * n) as int));
    } else {
        assert(x.subrange(0, 0) =~= Seq::<u8>::empty());
    }
}

/// Reading back a row written by `encode` gives the row, unless a 3-byte group of padding
/// follows it.
proof fn lemma_row_back(x: Seq<u8>, ch: nat, w: nat, pad: nat)
    requires
        ch == 1 || ch == 3 || ch == 4,
        x.len() == w * ch,
        ch == 3 ==> pad < 3,
        ch == 4 ==> pad == 0,
    ensures
        bmp_row(out_row(x, ch, w) + zeros(pad), ch * 8, w) == x,
{
    let o = out_row(x, ch, w);
    if ch == 1 {
        assert((o + zeros(pad)).subrange(0, w as int) =~= x);
    } else if ch == 3 {
        lemma_swap3_len(x, w);
        assert((3 * w + pad) / 3 == w);
        lemma_swap3_prefix(o, zeros(pad), w);
        lemma_swap3_twice(x, w);
        assert(x.subrange(0, (3 * w) as int) =~= x);
    } else {
        lemma_swap4_len(x, w);
        assert((o + zeros(pad)).len() == 4 * w);
        assert((4 * w + pad) / 4 == w);
        lemma_swap4_prefix(o, zeros(pad), w);
        lemma_swap4_twice(x, w);
        assert(x.subrange(0, (4 * w) as int) =~= x);
    }
}

proof fn lemma_out_row_len(x: Seq<u8>, ch: nat, w: nat)
    requires
        ch == 1 || ch == 3 || ch == 4,
        x.len() == w * ch,
    ensures
        out_row(x, ch, w).len() == w * ch,
{
    if ch == 3 {
        lemma_swap3_len(x, w);
    } else if ch == 4 {
        lemma_swap4_len(x, w);
    }
}

proof fn lemma_body_step(img: Seq<u8>, w: nat, ch: nat, pad: nat, h: nat)
    requires
        ch == 1 || ch == 3 || ch == 4,
        h >= 1,
        h * w * ch <= img.len(),
    ensures
        ({
            let j = (h - 1) as nat;
            let x = img.subrange((j * w * ch) as int, (h * w * ch) as int);
            &&& j * w * ch + w * ch == h * w * ch
            &&& x.len() == w * ch
            &&& out_row(x, ch, w).len() == w * ch
            &&& bmp_body(img, w, ch, pad, h) == bmp_body(img, w, ch, pad, j) + out_row(x, ch, w)
                + zeros(pad)
        }),
{
    let j = (h - 1) as nat;
    assert(j * w * ch + w * ch == h * w * ch) by (nonlinear_arith)
        requires
            j + 1 == h,
    ;
    let x = img.subrange((j * w * ch) as int, (h * w * ch) as int);
    lemma_out_row_len(x, ch, w);
}

proof fn lemma_body_len(img: Seq<u8>, w: nat, ch: nat, pad: nat, h: nat)
    requires
        ch == 1 || ch == 3 || ch == 4,
        h * w * ch <= img.len(),
    ensures
        bmp_body(img, w, ch, pad, h).len() == h * (w * ch + pad),
    decreases h,
{
    if h == 0 {
        assert(h * (w * ch + pad) == 0) by (nonlinear_arith)
            requires
                h == 0,
        ;
    } else {
        let j = (h - 1) as nat;
        lemma_body_step(img, w, ch, pad, h);
        lemma_body_len(img, w, ch, pad, j);
        assert(h * (w * ch + pad) == j * (w * ch + pad) + (w * ch + pad)) by (nonlinear_arith)
            requires
                h == j + 1,
        ;
    }
}

proof fn lemma_body_prefix(img: Seq<u8>, w: nat, ch: nat, pad: nat, h: nat, k: nat)
    requires
        ch == 1 || ch == 3 || ch == 4,
        k <= h,
        h * w * ch <= img.len(),
    ensures
        bmp_body(img, w, ch, pad, h).len() == h * (w * ch + pad),
        bmp_body(img, w, ch, pad, h).subrange(0, (k * (w * ch + pad)) as int) == bmp_body(
            img,
            w,
            ch,
            pad,
            k,
        ),
    decreases h,
{
    let rs = w * ch + pad;
    lemma_body_len(img, w, ch, pad, h);
    if k == h {
        assert(bmp_body(img, w, ch, pad, h).subrange(0, (k * rs) as int) =~= bmp_body(
            img,
            w,
            ch,
            pad,
            h,
        ));
    } else {
        let j = (h - 1) as nat;
        lemma_body_step(img, w, ch, pad, h);
        assert(j * w * ch <= h * w * ch);
        lemma_body_prefix(img, w, ch, pad, j, k);
        assert(k * rs <= j * rs) by (nonlinear_arith)
            requires
                k <= j,
        ;
        let prev = bmp_body(img, w, ch, pad, j);
        assert(bmp_body(img, w, ch, pad, h).subrange(0, (k * rs) as int) =~= prev.subrange(
            0,
            (k * rs) as int,
        ));
    }
}

#[verifier::spinoff_prover]
#[verifier::rlimit(40)]
proof fn lemma_rows_back(d: Seq<u8>, pre: Seq<u8>, img: Seq<u8>, w: nat, ch: nat, pad: nat, h: nat, k: nat)
    requires
        ch == 1 || ch == 3 || ch == 4,
        ch == 3 ==> pad < 3,
        ch == 4 ==> pad == 0,
        k <= h,
        h * w * ch <= img.len(),
        d == pre + bmp_body(img, w, ch, pad, h),
    ensures
        bmp_rows(d, pre.len(), w * ch + pad, ch * 8, w, k) == img.subrange(0, (k * w * ch) as int),
    decreases k,
{
    let rs = w * ch + pad;
    if k == 0 {
        assert(k * w * ch == 0) by (nonlinear_arith)
            requires
                k == 0,
        ;
        assert(img.subrange(0, 0) =~= Seq::<u8>::empty());
    } else {
        let j = (k - 1) as nat;
        assert(j * w * ch + w * ch == k * w * ch && k * w * ch <= h * w * ch) by (nonlinear_arith)
            requires
                j + 1 == k,
                k <= h,
        ;
        lemma_rows_back(d, pre, img, w, ch, pad, h, j);
        lemma_body_prefix(img, w, ch, pad, h, k);
        lemma_body_prefix(img, w, ch, pad, k, j);
        lemma_body_step(img, w, ch, pad, k);
        assert(j * rs + rs == k * rs && k * rs <= h * rs) by (nonlinear_arith)
            requires
                j + 1 == k,
                k <= h,
        ;
        let x = img.subrange((j * w * ch) as int, (k * w * ch) as int);
        lemma_out_row_len(x, ch, w);
        let body_k = bmp_body(img, w, ch, pad, k);
        assert(body_k == bmp_body(img, w, ch, pad, j) + out_row(x, ch, w) + zeros(pad));
        let row = d.subrange((pre.len() + j * rs) as int, (pre.len() + k * rs) as int);
        let body_h = bmp_body(img, w, ch, pad, h);
        lemma_body_len(img, w, ch, pad, j);
        assert(row =~= body_h.subrange((j * rs) as int, (k * rs) as int));
        assert(body_h.subrange((j * rs) as int, (k * rs) as int) =~= body_k.subrange(
            (j * rs) as int,
            (k * rs) as int,
        ));
        assert(body_k.subrange((j * rs) as int, (k * rs) as int) =~= out_row(x, ch, w) + zeros(
            pad,
        ));
        lemma_row_back(x, ch, w, pad);
        assert(img.subrange(0, (k * w * ch) as int) =~= img.subrange(0, (j * w * ch) as int) + x);
    }
}

proof fn lemma_header_fields(
    fs: nat,
    off: nat,
    w: nat,
    h: nat,
    bc: nat,
    padded: nat,
    cu: nat,
    rest: Seq<u8>,
)
    requires
        fs < byte_bound(4),
        off < byte_bound(4),
        w < byte_bound(4),
        h < byte_bound(4),
        bc < byte_bound(2),
        padded < byte_bound(4),
        cu < byte_bound(4),
    ensures
        ({
            let d = bmp_header(fs, off, w, h, bc, padded, cu) + rest;
            &&& d.len() == BMP_HEAD_LEN + rest.len()
            &&& d[0] == 0x42 && d[1] == 0x4D
            &&& le32_at(d, 2) == fs
            &&& le32_at(d, 10) == off
            &&& le32_at(d, 14) == 40
            &&& le32_at(d, 18) == w
            &&& le32_at(d, 22) == h
            &&& le16_at(d, 28) == bc
            &&& le32_at(d, 30) == 0
            &&& le32_at(d, 46) == cu
            &&& d.subrange(0, BMP_HEAD_LEN as int) == bmp_header(fs, off, w, h, bc, padded, cu)
        }),
{
    assert(byte_bound(4) > 40 && byte_bound(2) > 1) by {
        reveal_with_fuel(byte_bound, 5);
    }
    lemma_le_roundtrip(fs, 4);
    lemma_le_roundtrip(0, 4);
    lemma_le_roundtrip(off, 4);
    lemma_le_roundtrip(40, 4);
    lemma_le_roundtrip(w, 4);
    lemma_le_roundtrip(h, 4);
    lemma_le_roundtrip(1, 2);
    lemma_le_roundtrip(bc, 2);
    lemma_le_roundtrip(padded, 4);
    lemma_le_roundtrip(cu, 4);
    let d = bmp_header(fs, off, w, h, bc, padded, cu) + rest;
    assert(d.subrange(2, 6) =~= le_bytes(fs, 4));
    assert(d.subrange(10, 14) =~= le_bytes(off, 4));
    assert(d.subrange(14, 18) =~= le_bytes(40, 4));
    assert(d.subrange(18, 22) =~= le_bytes(w, 4));
    assert(d.subrange(22, 26) =~= le_bytes(h, 4));
    assert(d.subrange(28, 30) =~= le_bytes(bc, 2));
    assert(d.subrange(30, 34) =~= le_bytes(0, 4));
    assert(d.subrange(46, 50) =~= le_bytes(cu, 4));
    assert(d.subrange(0, BMP_HEAD_LEN as int) =~= bmp_header(fs, off, w, h, bc, padded, cu));
}

proof fn lemma_palette_len(n: nat)
    ensures
        bmp_palette(n).len() == 4 * n,
    decreases n,
{
    if n > 0 {
        lemma_palette_len((n - 1) as nat);
    }
}

proof fn lemma_decode_ok(d: Seq<u8>, w: nat, h: nat, bc: nat, cu: nat, ch: u8)
    requires
        d.len() >= 50,
        d[0] == 0x42 && d[1] == 0x4D,
        le32_at(d, 2) > BMP_HEAD_LEN,
        le32_at(d, 10) >= BMP_HEAD_LEN,
        le32_at(d, 14) == 40,
        le32_at(d, 18) == w,
        le32_at(d, 22) == h,
        le16_at(d, 28) == bc,
        le32_at(d, 30) == 0,
        le32_at(d, 46) == cu,
        w <= u32::MAX,
        h <= u32::MAX,
        bc <= 8 ==> BMP_HEAD_LEN + 4 * cu <= d.len(),
        bmp_channels(bc) == Some(ch),
        bc == 8 || bc == 24 || bc == 32,
        h > 0,
        le32_at(d, 10) + row_len(w, bc) <= d.len(),
        le32_at(d, 10) + h * row_len(w, bc) <= d.len(),
    ensures
        bmp_decode(d) == Ok::<(Seq<u8>, u32, u32, u8), BmpError>(
            (bmp_rows(d, le32_at(d, 10), row_len(w, bc), bc, w, h), w as u32, h as u32, ch),
        ),
{
}

proof fn lemma_row_len_facts(w: nat, ch: nat)
    requires
        ch == 1 || ch == 3 || ch == 4,
        w >= 1,
        ch == 3 ==> w % 4 != 3,
    ensures
        row_len(w, ch * 8) >= w * ch,
        row_len(w, ch * 8) >= 4,
        ch == 3 ==> row_len(w, ch * 8) - w * ch < 3,
        ch == 4 ==> row_len(w, ch * 8) == w * ch,
{
    let a = w / 4;
    let b = w % 4;
    assert(w == 4 * a + b);
    if ch == 1 {
        assert((w * 8 + 31) / 32 * 4 >= w && (w * 8 + 31) / 32 * 4 >= 4) by (nonlinear_arith)
            requires
                w == 4 * a + b,
                0 <= b < 4,
                w >= 1,
        ;
    } else if ch == 3 {
        assert((w * 24 + 31) / 32 * 4 >= 3 * w && (w * 24 + 31) / 32 * 4 >= 4 && (b != 3 ==> (w
            * 24 + 31) / 32 * 4 - 3 * w < 3)) by (nonlinear_arith)
            requires
                w == 4 * a + b,
                0 <= b < 4,
                w >= 1,
        ;
    } else {
        assert((w * 32 + 31) / 32 * 4 == 4 * w) by (nonlinear_arith)
            requires
                w >= 1,
        ;
    }
}

/// Decoding what `encode` makes gives the image back, with its width, height and channel
/// count. The one exception: at 3 channels with a width of the form 4k + 3, each row is padded
/// with 3 bytes, which decoding reads as one more (black) pixel.
pub proof fn lemma_bmp_roundtrip(img: Seq<u8>, w: u32, h: u32, ch: u8)
    requires
        bmp_encodable(img, w, h, ch),
        ch == 3 ==> w % 4 != 3,
    ensures
        bmp_decode(bmp_encode(img, w, h, ch)) == Ok::<(Seq<u8>, u32, u32, u8), BmpError>(
            (img.subrange(0, (h * w * ch) as int), w, h, ch),
        ),
{
    let bc: nat = (ch * 8) as nat;
    let cu = bmp_colors(ch as nat);
    let off: nat = (BMP_HEAD_LEN + 4 * cu) as nat;
    let rs = row_len(w as nat, bc);
    lemma_row_len_facts(w as nat, ch as nat);
    let padded: nat = (rs * h) as nat;
    let pad: nat = (rs - w * ch) as nat;
    assert(byte_bound(4) == 0x1_0000_0000 && byte_bound(2) == 0x1_0000) by {
        reveal_with_fuel(byte_bound, 5);
    }
    assert(h * w * ch <= img.len()) by (nonlinear_arith)
        requires
            img.len() as int / (w * ch) == h,
            w * ch > 0,
    ;
    assert(padded >= rs) by (nonlinear_arith)
        requires
            padded == rs * h,
            h >= 1,
    ;
    let body = bmp_body(img, w as nat, ch as nat, pad, h as nat);
    let pal = bmp_palette(cu);
    lemma_palette_len(cu);
    lemma_body_len(img, w as nat, ch as nat, pad, h as nat);
    assert(h * (w * ch + pad) == padded) by (nonlinear_arith)
        requires
            rs == w * ch + pad,
            padded == rs * h,
    ;
    let d = bmp_encode(img, w, h, ch);
    lemma_header_fields((off + padded) as nat, off, w as nat, h as nat, bc, padded, cu, pal + body);
    let hd = bmp_header((off + padded) as nat, off, w as nat, h as nat, bc, padded, cu);
    assert(d =~= hd + (pal + body));
    assert(d =~= (hd + pal) + body);
    lemma_rows_back(d, hd + pal, img, w as nat, ch as nat, pad, h as nat, h as nat);
    assert(bmp_channels(bc) == Some(ch));
    lemma_decode_ok(d, w as nat, h as nat, bc, cu, ch);
}

/// The codec for uncompressed BMP images.
pub struct Bmp;

impl Bmp {
    /// Decodes a BMP stream, as `bmp_decode` says.
    pub fn decode(data: &[u8]) -> (r: Result<ImageData, BmpError>)
        ensures
            match bmp_decode(data@) {
                Ok((img, w, h, ch)) => r matches Ok(im) && im.img@ == img && im.width == w
                    && im.height == h && im.channels == ch,
                Err(e) => r matches Err(re) && re == e,
            },
    {
        let n = data.len();
        if n < 2 {
            return Err(BmpError::Truncated);
        }
        if data[0] != 0x42 || data[1] != 0x4D {
            return Err(BmpError::BadMagic);
        }
        if n < 6 {
            return Err(BmpError::Truncated);
        }
        let file_size = read_le32(data, 2);
        if file_size as usize <= BMP_HEAD_LEN {
            return Err(BmpError::TooSmall);
        }
        if n < 14 {
            return Err(BmpError::Truncated);
        }
        let off = read_le32(data, 10);
        if (off as usize) < BMP_HEAD_LEN {
            return Err(BmpError::BadOffset);
        }
        if n < 18 {
            return Err(BmpError::Truncated);
        }
        if read_le32(data, 14) != 40 {
            return Err(BmpError::BadInfoSize);
        }
        if n < 34 {
            return Err(BmpError::Truncated);
        }
        let width = read_le32(data, 18);
        let height = read_le32(data, 22);
        let bit_count = read_le16(data, 28);
        if read_le32(data, 30) != 0 {
            return Err(BmpError::Compressed);
        }
        if n < 50 {
            return Err(BmpError::Truncated);
        }
        let colors_used = read_le32(data, 46);
        if bit_count <= 8 && (n as u64) < BMP_HEAD_LEN as u64 + 4 * colors_used as u64 {
            return Err(BmpError::Truncated);
        }
        assert(width as u64 * bit_count as u64 <= 0xffff_ffff * 0xffff) by (nonlinear_arith)
            requires
                width <= 0xffff_ffff,
                bit_count <= 0xffff,
        ;
        let rs64: u64 = (width as u64 * bit_count as u64 + 31) / 32 * 4;
        let channels: u8 = if bit_count == 1 || bit_count == 4 || bit_count == 8 {
            1
        } else if bit_count == 16 || bit_count == 24 {
            3
        } else if bit_count == 32 {
            4
        } else {
            return Err(BmpError::BadBitCount);
        };
        let mut img: Vec<u8> = Vec::new();
        if height == 0 {
            return Ok(ImageData { img, width, height, channels });
        }
        if (n as u64) < off as u64 + rs64 {
            return Err(BmpError::Truncated);
        }
        if bit_count != 8 && bit_count != 24 && bit_count != 32 {
            return Err(BmpError::Unsupported);
        }
        if rs64 > 0 && (n as u64 - off as u64) / rs64 < height as u64 {
            proof {
                assert((n - off) / (rs64 as int) < height ==> off + height * rs64 > n) by (
                nonlinear_arith)
                    requires
                        rs64 > 0,
                        off <= n,
                ;
            }
            return Err(BmpError::Truncated);
        }
        proof {
            if rs64 > 0 {
                assert(off + height * rs64 <= n) by (nonlinear_arith)
                    requires
                        (n - off) / (rs64 as int) >= height,
                        rs64 > 0,
                        off <= n,
                ;
            }
        }
        let rs = rs64 as usize;
        let mut r: u32 = 0;
        let mut pos: usize = off as usize;
        while r < height
            invariant
                r <= height,
                n == data@.len(),
                rs == row_len(width as nat, bit_count as nat),
                off + height * rs <= n,
                pos == off + r * rs,
                bit_count == 8 || bit_count == 24 || bit_count == 32,
                bit_count == 8 ==> width <= rs,
                img@ == bmp_rows(data@, off as nat, rs as nat, bit_count as nat, width as nat, r as nat),
            decreases height - r,
        {
            assert(pos + rs <= n) by (nonlinear_arith)
                requires
                    pos == off + r * rs,
                    r < height,
                    off + height * rs <= n,
            ;
            let row = &data[pos..pos + rs];
            assert(row@ == data@.subrange(off + r * rs, off + (r + 1) * rs)) by {
                assert(off + (r + 1) * rs == pos + rs) by (nonlinear_arith)
                    requires
                        pos == off + r * rs,
                ;
            }
            push_row(&mut img, row, bit_count, width as usize);
            r = r + 1;
            pos = pos + rs;
            assert(pos == off + r * rs) by (nonlinear_arith)
                requires
                    pos == off + (r - 1) * rs + rs,
            ;
        }
        Ok(ImageData { img, width, height, channels })
    }

    /// Encodes `img`, `width` by `height` pixels of `channels` bytes, as `bmp_encode` says.
    pub fn encode(img: &[u8], width: u32, height: u32, channels: u8) -> (r: Vec<u8>)
        requires
            bmp_encodable(img@, width, height, channels),
        ensures
            r@ == bmp_encode(img@, width, height, channels),
    {
        let ch = channels;
        let colors_used: u32 = if ch == 1 { 256 } else { 0 };
        let off: u32 = BMP_HEAD_LEN as u32 + colors_used * 4;
        let bit_count: u16 = if ch == 1 { 8 } else if ch == 3 { 24 } else { 32 };
        let row_size: u32 = (width * bit_count as u32 + 31) / 32 * 4;
        assert(row_size * height <= u32::MAX) by (nonlinear_arith)
            requires
                off + row_size * height <= u32::MAX,
                off >= 0,
        ;
        let padded: u32 = row_size * height;
        let file_size: u32 = off + padded;
        let mut out: Vec<u8> = Vec::new();
        out.push(0x42);
        out.push(0x4D);
        push_le(&mut out, file_size, 4);
        push_le(&mut out, 0, 4);
        push_le(&mut out, off, 4);
        push_le(&mut out, 40, 4);
        push_le(&mut out, width, 4);
        push_le(&mut out, height, 4);
        push_le(&mut out, 1, 2);
        push_le(&mut out, bit_count as u32, 2);
        push_le(&mut out, 0, 4);
        push_le(&mut out, padded, 4);
        push_le(&mut out, 0, 4);
        push_le(&mut out, 0, 4);
        push_le(&mut out, colors_used, 4);
        push_le(&mut out, 0, 4);
        let ghost hd = bmp_header(
            file_size as nat,
            off as nat,
            width as nat,
            height as nat,
            bit_count as nat,
            padded as nat,
            colors_used as nat,
        );
        assert(out@ =~= hd);
        let mut i: u32 = 0;
        while i < colors_used
            invariant
                i <= colors_used <= 256,
                out@ == hd + bmp_palette(i as nat),
            decreases colors_used - i,
        {
            out.push(i as u8);
            out.push(i as u8);
            out.push(i as u8);
            out.push(0);
            i = i + 1;
            assert(out@ =~= hd + bmp_palette(i as nat));
        }
        let ghost pal = out@;
        assert(width * ch <= u32::MAX) by (nonlinear_arith)
            requires
                width * (ch * 8) + 31 <= u32::MAX,
        ;
        let wc: usize = width as usize * ch as usize;
        assert(wc <= row_size) by (nonlinear_arith)
            requires
                wc == width * ch,
                row_size == (width * (ch * 8) + 31) / 32 * 4,
        ;
        let pad: usize = (row_size - width * ch as u32) as usize;
        let len = img.len();
        let mut r: u32 = 0;
        while r < height
            invariant
                r <= height,
                len == img@.len(),
                wc == width * ch,
                wc > 0,
                len / wc == height,
                ch == 1 || ch == 3 || ch == 4,
                bit_count == ch * 8,
                pad == row_size - wc,
                out@ == pal + bmp_body(img@, width as nat, ch as nat, pad as nat, r as nat),
            decreases height - r,
        {
            assert((r + 1) * wc <= len) by (nonlinear_arith)
                requires
                    r < height,
                    len / wc == height,
                    wc > 0,
            ;
            assert(r * wc + wc == (r + 1) * wc) by (nonlinear_arith);
            let start = r as usize * wc;
            let row = &img[start..start + wc];
            let ghost o = out@;
            let mut k: usize = 0;
            if ch == 1 {
                while k < wc
                    invariant
                        k <= wc,
                        row@.len() == wc,
                        out@ == o + row@.subrange(0, k as int),
                    decreases wc - k,
                {
                    out.push(row[k]);
                    k = k + 1;
                    assert(out@ =~= o + row@.subrange(0, k as int));
                }
                assert(row@.subrange(0, wc as int) =~= row@);
            } else if ch == 3 {
                let mut j: usize = 0;
                while j < width as usize
                    invariant
                        j <= width,
                        wc == 3 * width,
                        row@.len() == wc,
                        out@ == o + swap3(row@, j as nat),
                    decreases width - j,
                {
                    let b = 3 * j;
                    out.push(row[b + 2]);
                    out.push(row[b + 1]);
                    out.push(row[b]);
                    j = j + 1;
                    assert(out@ =~= o + swap3(row@, j as nat));
                }
            } else {
                let mut j: usize = 0;
                while j < width as usize
                    invariant
                        j <= width,
                        wc == 4 * width,
                        row@.len() == wc,
                        out@ == o + swap4(row@, j as nat),
                    decreases width - j,
                {
                    let b = 4 * j;
                    out.push(row[b + 2]);
                    out.push(row[b + 1]);
                    out.push(row[b]);
                    out.push(row[b + 3]);
                    j = j + 1;
                    assert(out@ =~= o + swap4(row@, j as nat));
                }
            }
            let ghost o2 = out@;
            let mut z: usize = 0;
            while z < pad
                invariant
                    z <= pad,
                    out@ == o2 + zeros(z as nat),
                decreases pad - z,
            {
                out.push(0);
                z = z + 1;
                assert(out@ =~= o2 + zeros(z as nat));
            }
            proof {
                assert(row@ == img@.subrange((r * width * ch) as int, ((r + 1) * width * ch) as int))
                    by {
                    assert(r * width * ch == r * wc && (r + 1) * width * ch == (r + 1) * wc) by (
                    nonlinear_arith)
                        requires
                            wc == width * ch,
                    ;
                }
                let prev = bmp_body(img@, width as nat, ch as nat, pad as nat, r as nat);
                assert(pal + (prev + out_row(row@, ch as nat, width as nat) + zeros(pad as nat))
                    =~= out@);
            }
            r = r + 1;
        }
        out
    }
}

proof fn lemma_le_bytes_len(x: nat, n: nat)
    ensures
        le_bytes(x, n).len() == n,
    decreases n,
{
    if n > 0 {
        lemma_le_bytes_len(x / 256, (n - 1) as nat);
    }
}

/// RGBA and BGRA swap places group by group: in the first `n` 4-byte groups, group `j` of
/// `[x0, x1, x2, x3]` becomes `[x2, x1, x0, x3]`.
pub proof fn lemma_swap4_is_bgra(row: Seq<u8>, n: nat)
    requires
        4 * n <= row.len(),
    ensures
        swap4(row, n).len() == 4 * n,
        forall|j: int|
            0 <= j < n ==> {
                &&& #[trigger] swap4(row, n)[4 * j] == row[4 * j + 2]
                &&& swap4(row, n)[4 * j + 1] == row[4 * j + 1]
                &&& swap4(row, n)[4 * j + 2] == row[4 * j]
                &&& swap4(row, n)[4 * j + 3] == row[4 * j + 3]
            },
    decreases n,
{
    if n > 0 {
        let k = (n - 1) as nat;
        lemma_swap4_is_bgra(row, k);
        let p = swap4(row, k);
        let t = seq![row[4 * n - 2], row[4 * n - 3], row[4 * n - 4], row[4 * n - 1]];
        assert(swap4(row, n) == p + t);
        assert forall|j: int| 0 <= j < n implies {
            &&& #[trigger] swap4(row, n)[4 * j] == row[4 * j + 2]
            &&& swap4(row, n)[4 * j + 1] == row[4 * j + 1]
            &&& swap4(row, n)[4 * j + 2] == row[4 * j]
            &&& swap4(row, n)[4 * j + 3] == row[4 * j + 3]
        } by {
            if j < k {
                assert(p[4 * j] == row[4 * j + 2]);
            }
        }
    }
}

/// RGB and BGR swap places group by group: in the first `n` 3-byte groups, group `j` of
/// `[x0, x1, x2]` becomes `[x2, x1, x0]`.
pub proof fn lemma_swap3_is_bgr(row: Seq<u8>, n: nat)
    requires
        3 * n <= row.len(),
    ensures
        swap3(row, n).len() == 3 * n,
        forall|j: int|
            0 <= j < n ==> {
                &&& #[trigger] swap3(row, n)[3 * j] == row[3 * j + 2]
                &&& swap3(row, n)[3 * j + 1] == row[3 * j + 1]
                &&& swap3(row, n)[3 * j + 2] == row[3 * j]
            },
    decreases n,
{
    if n > 0 {
        let k = (n - 1) as nat;
        lemma_swap3_is_bgr(row, k);
        let p = swap3(row, k);
        let t = seq![row[3 * n - 1], row[3 * n - 2], row[3 * n - 3]];
        assert(swap3(row, n) == p + t);
        assert forall|j: int| 0 <= j < n implies {
            &&& #[trigger] swap3(row, n)[3 * j] == row[3 * j + 2]
            &&& swap3(row, n)[3 * j + 1] == row[3 * j + 1]
            &&& swap3(row, n)[3 * j + 2] == row[3 * j]
        } by {
            if j < k {
                assert(p[3 * j] == row[3 * j + 2]);
            }
        }
    }
}

/// Decoding a stored row turns its byte groups from the file's order to the image's: at 32 bits
/// each 4-byte group `[x0, x1, x2, x3]` (blue, green, red, alpha) gives the pixel
/// `[x2, x1, x0, x3]`, and at 24 bits each 3-byte group `[x0, x1, x2]` gives `[x2, x1, x0]`.
pub proof fn lemma_stored_row_decodes(row: Seq<u8>, w: nat)
    ensures
        forall|j: int|
            0 <= j < row.len() / 4 ==> {
                &&& #[trigger] bmp_row(row, 32, w)[4 * j] == row[4 * j + 2]
                &&& bmp_row(row, 32, w)[4 * j + 1] == row[4 * j + 1]
                &&& bmp_row(row, 32, w)[4 * j + 2] == row[4 * j]
                &&& bmp_row(row, 32, w)[4 * j + 3] == row[4 * j + 3]
            },
        forall|j: int|
            0 <= j < row.len() / 3 ==> {
                &&& #[trigger] bmp_row(row, 24, w)[3 * j] == row[3 * j + 2]
                &&& bmp_row(row, 24, w)[3 * j + 1] == row[3 * j + 1]
                &&& bmp_row(row, 24, w)[3 * j + 2] == row[3 * j]
            },
{
    lemma_swap4_is_bgra(row, row.len() / 4);
    lemma_swap3_is_bgr(row, row.len() / 3);
}

#[verifier::spinoff_prover]
proof fn lemma_body_rgba_at(img: Seq<u8>, w: nat, h: nat, r: nat, j: nat)
    requires
        h * w * 4 <= img.len(),
        r < h,
        j < w,
    ensures
        ({
            let b = bmp_body(img, w, 4, 0, h);
            let q = (4 * (r * w + j)) as int;
            &&& b.len() == h * (w * 4)
            &&& b[q] == img[q + 2]
            &&& b[q + 1] == img[q + 1]
            &&& b[q + 2] == img[q]
            &&& b[q + 3] == img[q + 3]
        }),
    decreases h,
{
    let k = (h - 1) as nat;
    lemma_body_step(img, w, 4, 0, h);
    lemma_body_len(img, w, 4, 0, h);
    lemma_body_len(img, w, 4, 0, k);
    let x = img.subrange((k * w * 4) as int, (h * w * 4) as int);
    let q = (4 * (r * w + j)) as int;
    assert(k * w * 4 <= h * w * 4) by (nonlinear_arith)
        requires
            k <= h,
    ;
    assert(zeros(0) =~= Seq::<u8>::empty());
    let pre = bmp_body(img, w, 4, 0, k);
    let b = bmp_body(img, w, 4, 0, h);
    assert(b == pre + out_row(x, 4, w) + zeros(0));
    assert(b =~= pre + out_row(x, 4, w));
    assert(pre.len() == k * (w * 4));
    if r < k {
        lemma_body_rgba_at(img, w, k, r, j);
        assert(q + 3 < k * (w * 4)) by (nonlinear_arith)
            requires
                r < k,
                j < w,
                q == 4 * (r * w + j),
        ;
        assert(b[q] == pre[q] && b[q + 1] == pre[q + 1] && b[q + 2] == pre[q + 2] && b[q + 3] == pre[q + 3]);
    } else {
        lemma_swap4_is_bgra(x, w);
        assert(q == k * (w * 4) + 4 * j) by (nonlinear_arith)
            requires
                r == k,
                q == 4 * (r * w + j),
        ;
        assert(k * w * 4 + 4 * j + 3 < h * w * 4) by (nonlinear_arith)
            requires
                k + 1 == h,
                j < w,
        ;
        assert(k * (w * 4) == k * w * 4) by (nonlinear_arith);
        assert(x[4 * (j as int) + 2] == img[q + 2]);
        assert(x[4 * (j as int)] == img[q]);
    }
    assert(b.len() == h * (w * 4));
    assert(b[q] == img[q + 2]);
    assert(b[q + 1] == img[q + 1]);
    assert(b[q + 2] == img[q]);
    assert(b[q + 3] == img[q + 3]);
}

/// Encoding an RGBA image stores each pixel `[r, g, b, a]` as `[b, g, r, a]`, rows one after
/// another right after the 54-byte header: pixel `j` of row `r` at byte `54 + 4 * (r * w + j)`.
pub proof fn lemma_encode_stores_bgra(img: Seq<u8>, w: u32, h: u32)
    requires
        h * w * 4 <= img.len(),
    ensures
        forall|r: int, j: int|
            0 <= r < h && 0 <= j < w ==> {
                &&& #[trigger] bmp_encode(img, w, h, 4)[54 + 4 * (r * w + j)] == img[4 * (r * w + j) + 2]
                &&& bmp_encode(img, w, h, 4)[54 + 4 * (r * w + j) + 1] == img[4 * (r * w + j) + 1]
                &&& bmp_encode(img, w, h, 4)[54 + 4 * (r * w + j) + 2] == img[4 * (r * w + j)]
                &&& bmp_encode(img, w, h, 4)[54 + 4 * (r * w + j) + 3] == img[4 * (r * w + j) + 3]
            },
{
    let e = bmp_encode(img, w, h, 4);
    let rs = row_len(w as nat, 32);
    assert((w * 32 + 31) / 32 == w) by (nonlinear_arith)
        requires
            w >= 0,
    ;
    assert(rs == 4 * w);
    let hd = bmp_header((BMP_HEAD_LEN + rs * h) as nat, BMP_HEAD_LEN as nat, w as nat, h as nat, 32, (rs * h) as nat, 0);
    lemma_le_bytes_len((BMP_HEAD_LEN + rs * h) as nat, 4);
    lemma_le_bytes_len(0, 4);
    lemma_le_bytes_len(BMP_HEAD_LEN as nat, 4);
    lemma_le_bytes_len(40, 4);
    lemma_le_bytes_len(w as nat, 4);
    lemma_le_bytes_len(h as nat, 4);
    lemma_le_bytes_len(1, 2);
    lemma_le_bytes_len(32, 2);
    lemma_le_bytes_len((rs * h) as nat, 4);
    assert(hd.len() == 54);
    assert(bmp_palette(0) =~= Seq::<u8>::empty());
    let body = bmp_body(img, w as nat, 4, 0, h as nat);
    assert(e == hd + bmp_palette(0) + body);
    assert forall|r: int, j: int| 0 <= r < h && 0 <= j < w implies {
        &&& #[trigger] bmp_encode(img, w, h, 4)[54 + 4 * (r * w + j)] == img[4 * (r * w + j) + 2]
        &&& bmp_encode(img, w, h, 4)[54 + 4 * (r * w + j) + 1] == img[4 * (r * w + j) + 1]
        &&& bmp_encode(img, w, h, 4)[54 + 4 * (r * w + j) + 2] == img[4 * (r * w + j)]
        &&& bmp_encode(img, w, h, 4)[54 + 4 * (r * w + j) + 3] == img[4 * (r * w + j) + 3]
    } by {
        lemma_body_rgba_at(img, w as nat, h as nat, r as nat, j as nat);
        let q = 4 * (r * w + j);
        assert(q + 3 < h * (w * 4)) by (nonlinear_arith)
            requires
                0 <= r < h,
                0 <= j < w,
                q == 4 * (r * w + j),
        ;
    }
}

proof fn lemma_le_bytes4(x: nat)
    ensures
        le_bytes(x, 4) == seq![
            (x % 256) as u8,
            (x / 256 % 256) as u8,
            (x / 0x1_0000 % 256) as u8,
            (x / 0x100_0000 % 256) as u8,
        ],
{
    reveal_with_fuel(le_bytes, 5);
    assert(x / 256 / 256 == x / 0x1_0000) by {
        vstd::arithmetic::div_mod::lemma_div_denominator(x as int, 256, 256);
    }
    assert(x / 0x1_0000 / 256 == x / 0x100_0000) by {
        vstd::arithmetic::div_mod::lemma_div_denominator(x as int, 0x1_0000, 256);
    }
    assert(le_bytes(x, 4) =~= seq![
        (x % 256) as u8,
        (x / 256 % 256) as u8,
        (x / 0x1_0000 % 256) as u8,
        (x / 0x100_0000 % 256) as u8,
    ]);
}

proof fn lemma_le_bytes2(x: nat)
    ensures
        le_bytes(x, 2) == seq![(x % 256) as u8, (x / 256 % 256) as u8],
{
    reveal_with_fuel(le_bytes, 3);
    assert(le_bytes(x, 2) =~= seq![(x % 256) as u8, (x / 256 % 256) as u8]);
}

/// Encoding writes the 54-byte header of a BMP file with a 40-byte info header: `BM`; the data
/// offset at byte 10, the info header size 40 at byte 14, the width at byte 18 and the height at
/// byte 22, each four bytes little-endian; one plane at byte 26 and the bit count `8 * ch` at
/// byte 28, two bytes little-endian; and for grey images a colour table of 256 entries from
/// byte 54, entry `k` being `k, k, k, 0`, which puts the pixels at byte 54 + 1024.
pub proof fn lemma_encode_header(img: Seq<u8>, w: u32, h: u32, ch: u8)
    requires
        ch == 1 || ch == 3 || ch == 4,
    ensures
        ({
            let e = bmp_encode(img, w, h, ch);
            let off: nat = if ch == 1 { 54 + 1024 } else { 54 };
            &&& e[0] == 0x42 && e[1] == 0x4D
            &&& e[10] == (off % 256) as u8 && e[11] == (off / 256) as u8 && e[12] == 0 && e[13] == 0
            &&& e[14] == 40 && e[15] == 0 && e[16] == 0 && e[17] == 0
            &&& e[18] == (w % 256) as u8 && e[19] == (w / 256 % 256) as u8 && e[20] == (w / 0x1_0000 % 256) as u8
                && e[21] == (w / 0x100_0000) as u8
            &&& e[22] == (h % 256) as u8 && e[23] == (h / 256 % 256) as u8 && e[24] == (h / 0x1_0000 % 256) as u8
                && e[25] == (h / 0x100_0000) as u8
            &&& e[26] == 1 && e[27] == 0
            &&& e[28] == 8 * ch && e[29] == 0
            &&& ch == 1 ==> forall|k: int|
                0 <= k < 256 ==> #[trigger] e[54 + 4 * k] == k && e[54 + 4 * k + 1] == k && e[54 + 4 * k + 2] == k
                    && e[54 + 4 * k + 3] == 0
        }),
{
    let e = bmp_encode(img, w, h, ch);
    let bc = ch * 8;
    let cu = bmp_colors(ch as nat);
    let off = BMP_HEAD_LEN + 4 * cu;
    let rs = row_len(w as nat, bc as nat);
    let padded = rs * h;
    let hd = bmp_header((off + padded) as nat, off as nat, w as nat, h as nat, bc as nat, padded as nat, cu);
    lemma_le_bytes4((off + padded) as nat);
    lemma_le_bytes4(0);
    lemma_le_bytes4(off as nat);
    lemma_le_bytes4(40);
    lemma_le_bytes4(w as nat);
    lemma_le_bytes4(h as nat);
    lemma_le_bytes2(1);
    lemma_le_bytes2(bc as nat);
    lemma_le_bytes4(padded as nat);
    lemma_le_bytes4(cu);
    assert(hd.len() == 54);
    let pal = bmp_palette(cu);
    let body = bmp_body(img, w as nat, ch as nat, (rs - w * ch) as nat, h as nat);
    assert(e == hd + pal + body);
    assert(e[10] == hd[10] && e[11] == hd[11] && e[12] == hd[12] && e[13] == hd[13]);
    assert(e[18] == hd[18] && e[21] == hd[21] && e[25] == hd[25] && e[28] == hd[28]);
    if ch == 1 {
        lemma_palette_len(256);
        assert forall|k: int| 0 <= k < 256 implies #[trigger] e[54 + 4 * k] == k && e[54 + 4 * k + 1] == k && e[54
            + 4 * k + 2] == k && e[54 + 4 * k + 3] == 0 by {
            lemma_palette_entry(256, k as nat);
            assert(e[54 + 4 * k] == pal[4 * k]);
            assert(e[54 + 4 * k + 3] == pal[4 * k + 3]);
        }
    }
}

proof fn lemma_palette_entry(n: nat, k: nat)
    requires
        k < n <= 256,
    ensures
        bmp_palette(n).len() == 4 * n,
        bmp_palette(n)[4 * k as int] == k,
        bmp_palette(n)[4 * k as int + 1] == k,
        bmp_palette(n)[4 * k as int + 2] == k,
        bmp_palette(n)[4 * k as int + 3] == 0,
    decreases n,
{
    lemma_palette_len(n);
    let j = (n - 1) as nat;
    lemma_palette_len(j);
    if k < j {
        lemma_palette_entry(j, k);
    }
}

/// A stored row holds the row's bits rounded up to whole 32-bit words: a multiple of 4 bytes,
/// the fewest that hold `w * bc` bits.
pub proof fn lemma_row_len_padded(w: nat, bc: nat)
    ensures
        row_len(w, bc) % 4 == 0,
        w * bc <= 8 * row_len(w, bc) < w * bc + 32,
{
    let x = w * bc;
    let q = (x + 31) / 32;
    vstd::arithmetic::div_mod::lemma_fundamental_div_mod((x + 31) as int, 32);
    assert(row_len(w, bc) == q * 4);
    assert((q * 4) % 4 == 0) by {
        vstd::arithmetic::div_mod::lemma_mod_multiples_basic(q as int, 4);
    }
}

} // verus!
