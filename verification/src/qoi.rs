use vstd::prelude::*;

verus! {

/// A decoded image: its bytes, row after row, `channels` bytes per pixel.
pub struct ImageData {
    pub img: Vec<u8>,
    pub width: u32,
    pub height: u32,
    pub channels: u8,
}

impl ImageData {
    pub fn new(img: Vec<u8>, width: u32, height: u32, channels: u8) -> (r: Self)
        ensures
            r.img@ == img@,
            r.width == width,
            r.height == height,
            r.channels == channels,
    {
        Self { img, width, height, channels }
    }
}

/// Why a QOI stream was refused.
#[derive(Debug, Clone, Copy, PartialEq, Eq, Structural)]
pub enum QoiError {
    /// The stream does not start with `qoif`.
    BadMagic,
    /// The width in the header is 0.
    ZeroWidth,
    /// The height in the header is 0.
    ZeroHeight,
    /// The image has more than `MAX_PIXELS` pixels.
    TooLarge,
    /// The channel count is neither 3 nor 4.
    BadChannels,
    /// The colour space is neither sRGB (0) nor linear (1).
    BadColorspace,
    /// An RGBA chunk in a 3-channel image.
    RgbaInRgb,
    /// A run goes past the last pixel.
    RunTooLong,
    /// The stream ends inside the header, a chunk or the end marker.
    Truncated,
    /// The end marker is not `0 0 0 0 0 0 0 1`.
    BadPadding,
}

pub const MAX_PIXELS: u32 = 400_000_000;

pub const SRGB: u8 = 0;

pub const LINEAR: u8 = 1;

pub const RGB_MASK: u8 = 0b1111_1110;

pub const RGBA_MASK: u8 = 0b1111_1111;

pub const INDEX_MASK: u8 = 0b0000_0000;

pub const DIFF_MASK: u8 = 0b0100_0000;

pub const LUMA_MASK: u8 = 0b1000_0000;

pub const RUN_MASK: u8 = 0b1100_0000;

/// magic + width + height + channels + colorspace + padding
pub const MIN_QOI_LEN: usize = 22;

/// A pixel `(r, g, b, a)`.
pub type Px = (u8, u8, u8, u8);

/// The slot of `p` in the table of recently seen pixels.
pub open spec fn qoi_hash(p: Px) -> u8 {
    ((p.0.wrapping_mul(3)).wrapping_add(p.1.wrapping_mul(5)).wrapping_add(p.2.wrapping_mul(7)).wrapping_add(
        p.3.wrapping_mul(11),
    )) % 64
}

/// The bytes of `p` that an image of `ch` channels stores.
pub open spec fn px_bytes(p: Px, ch: nat) -> Seq<u8> {
    if ch == 4 {
        seq![p.0, p.1, p.2, p.3]
    } else {
        seq![p.0, p.1, p.2]
    }
}

/// `n` copies of the bytes of `p`.
pub open spec fn repeat_px(p: Px, ch: nat, n: nat) -> Seq<u8>
    decreases n,
{
    if n == 0 {
        Seq::empty()
    } else {
        px_bytes(p, ch) + repeat_px(p, ch, (n - 1) as nat)
    }
}

#[verifier::opaque]
/// Decodes the chunk at `i` given the previous pixel `px` and the seen-pixel table: the index
/// after the chunk, its pixel, and how many more times the pixel repeats.
pub open spec fn decode_chunk(d: Seq<u8>, i: int, px: Px, seen: Seq<Px>, ch: nat) -> Result<
    (int, Px, nat),
    QoiError,
> {
    if i < 0 || i >= d.len() {
        Err(QoiError::Truncated)
    } else {
        let tag = d[i];
        if tag == 0xFF {
            if ch != 4 {
                Err(QoiError::RgbaInRgb)
            } else if d.len() - i <= 4 {
                Err(QoiError::Truncated)
            } else {
                Ok((i + 5, (d[i + 1], d[i + 2], d[i + 3], d[i + 4]), 0))
            }
        } else if tag == 0xFE {
            if d.len() - i <= 3 {
                Err(QoiError::Truncated)
            } else {
                Ok((i + 4, (d[i + 1], d[i + 2], d[i + 3], px.3), 0))
            }
        } else if tag & 0xC0 == 0x00 {
            Ok((i + 1, seen[tag as int], 0))
        } else if tag & 0xC0 == 0x40 {
            let dr = (tag >> 4u8) & 3;
            let dg = (tag >> 2u8) & 3;
            let db = tag & 3;
            Ok(
                (
                    i + 1,
                    (
                        px.0.wrapping_add(dr.wrapping_sub(2)),
                        px.1.wrapping_add(dg.wrapping_sub(2)),
                        px.2.wrapping_add(db.wrapping_sub(2)),
                        px.3,
                    ),
                    0,
                ),
            )
        } else if tag & 0xC0 == 0x80 {
            if i + 1 >= d.len() {
                Err(QoiError::Truncated)
            } else {
                let nxt = d[i + 1];
                let dg = (tag & 0x3F).wrapping_sub(32);
                let dr = ((nxt >> 4u8) & 0x0F).wrapping_sub(8);
                let db = (nxt & 0x0F).wrapping_sub(8);
                Ok(
                    (
                        i + 2,
                        (
                            px.0.wrapping_add(dr).wrapping_add(dg),
                            px.1.wrapping_add(dg),
                            px.2.wrapping_add(db).wrapping_add(dg),
                            px.3,
                        ),
                        0,
                    ),
                )
            }
        } else {
            Ok((i + 1, px, (tag & 0x3F) as nat))
        }
    }
}

#[verifier::opaque]
/// Decodes chunks from `i` until `remaining` pixels are out: the index after the last chunk and
/// the pixel bytes.
pub open spec fn decode_body(d: Seq<u8>, ch: nat, i: int, px: Px, seen: Seq<Px>, remaining: nat) -> Result<
    (int, Seq<u8>),
    QoiError,
>
    decreases remaining,
{
    if remaining == 0 {
        Ok((i, Seq::empty()))
    } else {
        match decode_chunk(d, i, px, seen, ch) {
            Err(e) => Err(e),
            Ok((ni, p, run)) => {
                if run + 1 > remaining {
                    Err(QoiError::RunTooLong)
                } else {
                    match decode_body(
                        d,
                        ch,
                        ni,
                        p,
                        seen.update(qoi_hash(p) as int, p),
                        (remaining - (run + 1)) as nat,
                    ) {
                        Err(e) => Err(e),
                        Ok((fi, rest)) => Ok((fi, repeat_px(p, ch, run + 1) + rest)),
                    }
                }
            },
        }
    }
}

/// The 32-bit big-endian value at `i`.
pub open spec fn be32_at(d: Seq<u8>, i: int) -> nat {
    d[i] as nat * 0x100_0000 + d[i + 1] as nat * 0x1_0000 + d[i + 2] as nat * 0x100 + d[i + 3] as nat
}

/// The end marker.
pub open spec fn qoi_padding() -> Seq<u8> {
    seq![0u8, 0, 0, 0, 0, 0, 0, 1]
}

/// The magic number `qoif`.
pub open spec fn qoi_magic() -> Seq<u8> {
    seq![0x71u8, 0x6f, 0x69, 0x66]
}

/// A table of 64 black transparent pixels.
pub open spec fn empty_seen() -> Seq<Px> {
    Seq::new(64, |_i: int| (0u8, 0u8, 0u8, 0u8))
}

/// What decoding `d` gives: the pixel bytes, width, height and channel count, or why `d` is
/// refused. The checks come in this order: magic, width, height, size, channels, colour space,
/// the chunks, the end marker.
pub open spec fn qoi_decode(d: Seq<u8>) -> Result<(Seq<u8>, u32, u32, u8), QoiError> {
    if d.len() < 4 {
        Err(QoiError::Truncated)
    } else if d.subrange(0, 4) != qoi_magic() {
        Err(QoiError::BadMagic)
    } else if d.len() < 8 {
        Err(QoiError::Truncated)
    } else if be32_at(d, 4) == 0 {
        Err(QoiError::ZeroWidth)
    } else if d.len() < 12 {
        Err(QoiError::Truncated)
    } else if be32_at(d, 8) == 0 {
        Err(QoiError::ZeroHeight)
    } else if be32_at(d, 4) * be32_at(d, 8) > MAX_PIXELS {
        Err(QoiError::TooLarge)
    } else if d.len() < 13 {
        Err(QoiError::Truncated)
    } else if d[12] != 3 && d[12] != 4 {
        Err(QoiError::BadChannels)
    } else if d.len() < 14 {
        Err(QoiError::Truncated)
    } else if d[13] != SRGB && d[13] != LINEAR {
        Err(QoiError::BadColorspace)
    } else {
        let w = be32_at(d, 4);
        let h = be32_at(d, 8);
        match decode_body(d, d[12] as nat, 14, (0u8, 0u8, 0u8, 255u8), empty_seen(), w * h) {
            Err(e) => Err(e),
            Ok((fi, img)) => {
                if fi + 8 > d.len() {
                    Err(QoiError::Truncated)
                } else if d.subrange(fi, fi + 8) != qoi_padding() {
                    Err(QoiError::BadPadding)
                } else {
                    Ok((img, w as u32, h as u32, d[12]))
                }
            },
        }
    }
}

/// The pixel whose bytes start at `i` in an image of `ch` channels; a 3-channel pixel is
/// opaque.
pub open spec fn px_at(img: Seq<u8>, ch: nat, i: int) -> Px {
    (img[i], img[i + 1], img[i + 2], if ch == 4 { img[i + 3] } else { 255u8 })
}

/// The chunk that stands for `rgba` after `prev` when it does not repeat `prev`: an index into
/// the seen table, a small difference, a luma difference, or the colour itself.
pub open spec fn enc_px(rgba: Px, prev: Px, seen: Seq<Px>) -> Seq<u8> {
    let h = qoi_hash(rgba);
    if seen[h as int] == rgba {
        seq![INDEX_MASK | h]
    } else if rgba.3 == prev.3 {
        let dr = rgba.0.wrapping_sub(prev.0);
        let dg = rgba.1.wrapping_sub(prev.1);
        let db = rgba.2.wrapping_sub(prev.2);
        let dru = dr.wrapping_add(2);
        let dgu = dg.wrapping_add(2);
        let dbu = db.wrapping_add(2);
        if dru <= 3 && dgu <= 3 && dbu <= 3 {
            seq![DIFF_MASK | (dru << 4u8) | (dgu << 2u8) | dbu]
        } else {
            let lg = dg.wrapping_add(32);
            let lr = dr.wrapping_sub(dg).wrapping_add(8);
            let lb = db.wrapping_sub(dg).wrapping_add(8);
            if lg <= 63 && lr <= 15 && lb <= 15 {
                seq![LUMA_MASK | lg, (lr << 4u8) | lb]
            } else {
                seq![RGB_MASK, rgba.0, rgba.1, rgba.2]
            }
        }
    } else {
        seq![RGBA_MASK, rgba.0, rgba.1, rgba.2, rgba.3]
    }
}

#[verifier::opaque]
/// How many pixels from byte `i` on repeat `prev`, at most `cap`, and the byte after them.
pub open spec fn skip_run(img: Seq<u8>, ch: nat, i: int, prev: Px, cap: nat) -> (nat, int)
    decreases cap,
{
    if cap == 0 || px_at(img, ch, i) != prev {
        (0, i)
    } else {
        let (c, e) = skip_run(img, ch, i + ch, prev, (cap - 1) as nat);
        (c + 1, e)
    }
}

#[verifier::opaque]
/// The chunks for the `n` pixels from byte `i` on, after `prev` and with the seen table `seen`:
/// a repeat of `prev` becomes one run chunk of at most 62 pixels, any other pixel the chunk of
/// `enc_px`.
pub open spec fn encode_from(img: Seq<u8>, ch: nat, i: int, prev: Px, seen: Seq<Px>, n: nat) -> Seq<
    u8,
>
    decreases n,
{
    if n == 0 {
        Seq::empty()
    } else {
        let rgba = px_at(img, ch, i);
        if rgba == prev {
            let (c, e) = skip_run(img, ch, i, prev, if n < 62 { n } else { 62 });
            if c == 0 || c > n {
                Seq::empty()
            } else {
                seq![(RUN_MASK + (c - 1)) as u8] + encode_from(img, ch, e, prev, seen, (n - c) as nat)
            }
        } else {
            enc_px(rgba, prev, seen) + encode_from(
                img,
                ch,
                i + ch,
                rgba,
                seen.update(qoi_hash(rgba) as int, rgba),
                (n - 1) as nat,
            )
        }
    }
}

/// The 4 big-endian bytes of `v`.
pub open spec fn be32_bytes(v: u32) -> Seq<u8> {
    seq![(v / 0x100_0000) as u8, ((v / 0x1_0000) % 0x100) as u8, ((v / 0x100) % 0x100) as u8, (v % 0x100) as u8]
}

/// The 14-byte header: magic, width, height, channels and sRGB.
pub open spec fn qoi_header(w: u32, h: u32, ch: u8) -> Seq<u8> {
    qoi_magic() + be32_bytes(w) + be32_bytes(h) + seq![ch, SRGB]
}

/// What encoding `img` gives: the header, the chunks, the end marker.
pub open spec fn qoi_encode(img: Seq<u8>, w: u32, h: u32, ch: u8) -> Seq<u8> {
    qoi_header(w, h, ch) + encode_from(img, ch as nat, 0, (0u8, 0u8, 0u8, 255u8), empty_seen(), (w * h) as nat)
        + qoi_padding()
}

/// `bytes` put in front of the pixels of a decoding result.
pub open spec fn prepend_px(bytes: Seq<u8>, r: Result<(int, Seq<u8>), QoiError>) -> Result<
    (int, Seq<u8>),
    QoiError,
> {
    match r {
        Ok((fi, rest)) => Ok((fi, bytes + rest)),
        Err(e) => Err(e),
    }
}

proof fn lemma_prepend_twice(a: Seq<u8>, b: Seq<u8>, r: Result<(int, Seq<u8>), QoiError>)
    ensures
        prepend_px(a, prepend_px(b, r)) == prepend_px(a + b, r),
{
    match r {
        Ok((fi, rest)) => {
            assert(a + (b + rest) =~= (a + b) + rest);
        },
        Err(_) => {},
    }
}

proof fn lemma_repeat_px_push(p: Px, ch: nat, n: nat)
    ensures
        repeat_px(p, ch, n + 1) == repeat_px(p, ch, n) + px_bytes(p, ch),
        repeat_px(p, ch, n).len() == n * px_bytes(p, ch).len(),
    decreases n,
{
    if n == 0 {
        assert(repeat_px(p, ch, 0) == Seq::<u8>::empty());
        assert(repeat_px(p, ch, 1) =~= px_bytes(p, ch) + Seq::<u8>::empty());
        assert(repeat_px(p, ch, 0) + px_bytes(p, ch) =~= px_bytes(p, ch));
    } else {
        lemma_repeat_px_push(p, ch, (n - 1) as nat);
        let k = (n - 1) as nat;
        assert(repeat_px(p, ch, n + 1) == px_bytes(p, ch) + repeat_px(p, ch, n));
        assert(repeat_px(p, ch, n) == px_bytes(p, ch) + repeat_px(p, ch, k));
        assert(repeat_px(p, ch, n) == repeat_px(p, ch, k) + px_bytes(p, ch));
        assert(px_bytes(p, ch) + (repeat_px(p, ch, k) + px_bytes(p, ch)) =~= (px_bytes(p, ch)
            + repeat_px(p, ch, k)) + px_bytes(p, ch));
        assert(n * px_bytes(p, ch).len() == k * px_bytes(p, ch).len() + px_bytes(p, ch).len())
            by (nonlinear_arith)
            requires
                n == k + 1,
        ;
    }
}

proof fn lemma_decode_done(d: Seq<u8>, ch: nat, i: int, px: Px, seen: Seq<Px>)
    ensures
        decode_body(d, ch, i, px, seen, 0) == Ok::<(int, Seq<u8>), QoiError>((i, Seq::empty())),
{
    reveal(decode_body);
}

proof fn lemma_decode_step(d: Seq<u8>, ch: nat, i: int, px: Px, seen: Seq<Px>, rem: nat)
    requires
        rem > 0,
    ensures
        match decode_chunk(d, i, px, seen, ch) {
            Err(e) => decode_body(d, ch, i, px, seen, rem) == Err::<(int, Seq<u8>), QoiError>(e),
            Ok((ni, p, run)) => if run + 1 > rem {
                decode_body(d, ch, i, px, seen, rem) == Err::<(int, Seq<u8>), QoiError>(
                    QoiError::RunTooLong,
                )
            } else {
                decode_body(d, ch, i, px, seen, rem) == prepend_px(
                    repeat_px(p, ch, run + 1),
                    decode_body(
                        d,
                        ch,
                        ni,
                        p,
                        seen.update(qoi_hash(p) as int, p),
                        (rem - (run + 1)) as nat,
                    ),
                )
            },
        },
{
    reveal(decode_body);
}

/// Computes `qoi_hash`.
fn hash(p: Px) -> (h: u8)
    ensures
        h == qoi_hash(p),
        h < 64,
{
    (p.0.wrapping_mul(3)).wrapping_add(p.1.wrapping_mul(5)).wrapping_add(p.2.wrapping_mul(7)).wrapping_add(
        p.3.wrapping_mul(11),
    ) % 64
}

/// Decodes the chunk at `i`, as `decode_chunk` says.
fn next_chunk(d: &[u8], i: usize, px: Px, seen: &Vec<Px>, ch: u8) -> (r: Result<(usize, Px, u8), QoiError>)
    requires
        seen@.len() == 64,
    ensures
        match decode_chunk(d@, i as int, px, seen@, ch as nat) {
            Ok((ni, p, run)) => r matches Ok((eni, ep, erun)) && eni == ni && ep == p && erun == run
                && ni <= d@.len(),
            Err(e) => r == Err::<(usize, Px, u8), QoiError>(e),
        },
        r matches Ok((_, _, erun)) ==> erun < 64,
{
    reveal(decode_chunk);
    if i >= d.len() {
        return Err(QoiError::Truncated);
    }
    let tag = d[i];
    if tag == 0xFF {
        if ch != 4 {
            Err(QoiError::RgbaInRgb)
        } else if d.len() - i <= 4 {
            Err(QoiError::Truncated)
        } else {
            Ok((i + 5, (d[i + 1], d[i + 2], d[i + 3], d[i + 4]), 0))
        }
    } else if tag == 0xFE {
        if d.len() - i <= 3 {
            Err(QoiError::Truncated)
        } else {
            Ok((i + 4, (d[i + 1], d[i + 2], d[i + 3], px.3), 0))
        }
    } else if tag & 0xC0 == 0x00 {
        assert(tag & 0xC0 == 0 ==> tag < 64) by (bit_vector);
        Ok((i + 1, seen[tag as usize], 0))
    } else if tag & 0xC0 == 0x40 {
        let dr = (tag >> 4u8) & 3;
        let dg = (tag >> 2u8) & 3;
        let db = tag & 3;
        Ok(
            (
                i + 1,
                (
                    px.0.wrapping_add(dr.wrapping_sub(2)),
                    px.1.wrapping_add(dg.wrapping_sub(2)),
                    px.2.wrapping_add(db.wrapping_sub(2)),
                    px.3,
                ),
                0,
            ),
        )
    } else if tag & 0xC0 == 0x80 {
        if d.len() - i <= 1 {
            Err(QoiError::Truncated)
        } else {
            let nxt = d[i + 1];
            let dg = (tag & 0x3F).wrapping_sub(32);
            let dr = ((nxt >> 4u8) & 0x0F).wrapping_sub(8);
            let db = (nxt & 0x0F).wrapping_sub(8);
            Ok(
                (
                    i + 2,
                    (
                        px.0.wrapping_add(dr).wrapping_add(dg),
                        px.1.wrapping_add(dg),
                        px.2.wrapping_add(db).wrapping_add(dg),
                        px.3,
                    ),
                    0,
                ),
            )
        }
    } else {
        assert(tag & 0x3F < 64) by (bit_vector);
        Ok((i + 1, px, tag & 0x3F))
    }
}

fn empty_table() -> (v: Vec<Px>)
    ensures
        v@ == empty_seen(),
{
    let mut v: Vec<Px> = Vec::new();
    while v.len() < 64
        invariant
            v@.len() <= 64,
            forall|j: int| 0 <= j < v@.len() ==> v@[j] == (0u8, 0u8, 0u8, 0u8),
        decreases 64 - v@.len(),
    {
        v.push((0, 0, 0, 0));
    }
    assert(v@ =~= empty_seen());
    v
}

fn push_px(img: &mut Vec<u8>, p: Px, ch: u8)
    ensures
        final(img)@ == old(img)@ + px_bytes(p, ch as nat),
{
    img.push(p.0);
    img.push(p.1);
    img.push(p.2);
    if ch == 4 {
        img.push(p.3);
        assert(final(img)@ =~= old(img)@ + px_bytes(p, ch as nat));
    } else {
        assert(final(img)@ =~= old(img)@ + px_bytes(p, ch as nat));
    }
}

/// Decodes `total` pixels from byte 14 on, as `decode_body` says: the index after the last
/// chunk and the pixel bytes.
fn decode_pixels(qoi: &[u8], ch: u8, total: u32) -> (r: Result<(usize, Vec<u8>), QoiError>)
    requires
        ch == 3 || ch == 4,
        14 <= qoi@.len(),
    ensures
        match decode_body(qoi@, ch as nat, 14, (0u8, 0u8, 0u8, 255u8), empty_seen(), total as nat) {
            Ok((fi, bytes)) => r matches Ok((efi, eimg)) && efi == fi && eimg@ == bytes && fi
                <= qoi@.len(),
            Err(e) => r matches Err(re) && re == e,
        },
{
    let ghost whole = decode_body(
        qoi@,
        ch as nat,
        14,
        (0u8, 0u8, 0u8, 255u8),
        empty_seen(),
        total as nat,
    );
    let mut i: usize = 14;
    let mut px: Px = (0, 0, 0, 255);
    let mut seen = empty_table();
    let mut remaining: u32 = total;
    let mut img: Vec<u8> = Vec::new();
    proof {
        match whole {
            Ok((fi, rest)) => {
                assert(Seq::<u8>::empty() + rest =~= rest);
            },
            Err(_) => {},
        }
    }
    while remaining > 0
        invariant
            ch == 3 || ch == 4,
            seen@.len() == 64,
            i <= qoi@.len(),
            whole == decode_body(
                qoi@,
                ch as nat,
                14,
                (0u8, 0u8, 0u8, 255u8),
                empty_seen(),
                total as nat,
            ),
            whole == prepend_px(
                img@,
                decode_body(qoi@, ch as nat, i as int, px, seen@, remaining as nat),
            ),
        decreases remaining,
    {
        proof {
            lemma_decode_step(qoi@, ch as nat, i as int, px, seen@, remaining as nat);
        }
        let c = next_chunk(qoi, i, px, &seen, ch);
        match c {
            Err(e) => {
                return Err(e);
            },
            Ok((ni, p, run)) => {
                if run as u32 + 1 > remaining {
                    return Err(QoiError::RunTooLong);
                }
                let ghost img0 = img@;
                let ghost seen1 = seen@.update(qoi_hash(p) as int, p);
                let ghost rem1 = (remaining - (run + 1)) as nat;
                let mut k: u8 = 0;
                while k < run + 1
                    invariant
                        k <= run + 1,
                        run < 64,
                        img@ == img0 + repeat_px(p, ch as nat, k as nat),
                    decreases run + 1 - k,
                {
                    proof {
                        lemma_repeat_px_push(p, ch as nat, k as nat);
                    }
                    push_px(&mut img, p, ch);
                    assert(img@ =~= img0 + repeat_px(p, ch as nat, (k + 1) as nat));
                    k = k + 1;
                }
                let h = hash(p);
                seen.set(h as usize, p);
                proof {
                    lemma_prepend_twice(
                        img0,
                        repeat_px(p, ch as nat, run as nat + 1),
                        decode_body(qoi@, ch as nat, ni as int, p, seen1, rem1),
                    );
                }
                i = ni;
                px = p;
                remaining = remaining - (run as u32 + 1);
                assert(seen@ == seen1);
            },
        }
    }
    proof {
        lemma_decode_done(qoi@, ch as nat, i as int, px, seen@);
    }
    assert(img@ + Seq::<u8>::empty() =~= img@);
    Ok((i, img))
}

proof fn lemma_px_step(i: int, n: int, ch: int, len: int)
    requires
        len == i + n * ch,
        n >= 1,
        ch >= 1,
    ensures
        i + ch <= len,
        len == (i + ch) + (n - 1) * ch,
{
    assert(n * ch >= ch) by (nonlinear_arith)
        requires
            n >= 1,
            ch >= 1,
    ;
    assert((n - 1) * ch == n * ch - ch) by (nonlinear_arith);
}

proof fn lemma_skip_step(img: Seq<u8>, ch: nat, i: int, prev: Px, cap: nat)
    requires
        cap > 0,
        px_at(img, ch, i) == prev,
    ensures
        skip_run(img, ch, i, prev, cap) == (
            skip_run(img, ch, i + ch, prev, (cap - 1) as nat).0 + 1,
            skip_run(img, ch, i + ch, prev, (cap - 1) as nat).1,
        ),
{
    reveal(skip_run);
}

proof fn lemma_skip_stop(img: Seq<u8>, ch: nat, i: int, prev: Px, cap: nat)
    requires
        cap == 0 || px_at(img, ch, i) != prev,
    ensures
        skip_run(img, ch, i, prev, cap) == (0nat, i),
{
    reveal(skip_run);
}

proof fn lemma_encode_step(img: Seq<u8>, ch: nat, i: int, prev: Px, seen: Seq<Px>, n: nat)
    requires
        n > 0,
    ensures
        encode_from(img, ch, i, prev, seen, n) == ({
            let rgba = px_at(img, ch, i);
            if rgba == prev {
                let (c, e) = skip_run(img, ch, i, prev, if n < 62 { n } else { 62 });
                if c == 0 || c > n {
                    Seq::empty()
                } else {
                    seq![(RUN_MASK + (c - 1)) as u8] + encode_from(img, ch, e, prev, seen, (n - c) as nat)
                }
            } else {
                enc_px(rgba, prev, seen) + encode_from(
                    img,
                    ch,
                    i + ch,
                    rgba,
                    seen.update(qoi_hash(rgba) as int, rgba),
                    (n - 1) as nat,
                )
            }
        }),
{
    reveal(encode_from);
}

proof fn lemma_encode_done(img: Seq<u8>, ch: nat, i: int, prev: Px, seen: Seq<Px>)
    ensures
        encode_from(img, ch, i, prev, seen, 0) == Seq::<u8>::empty(),
{
    reveal(encode_from);
}

proof fn lemma_diff_tag(r0: u8, g0: u8, b0: u8, r: u8, g: u8, b: u8)
    by (bit_vector)
    requires
        r.wrapping_sub(r0).wrapping_add(2) <= 3,
        g.wrapping_sub(g0).wrapping_add(2) <= 3,
        b.wrapping_sub(b0).wrapping_add(2) <= 3,
    ensures
        ({
            let tag = DIFF_MASK | (r.wrapping_sub(r0).wrapping_add(2) << 4u8) | (g.wrapping_sub(
                g0,
            ).wrapping_add(2) << 2u8) | b.wrapping_sub(b0).wrapping_add(2);
            &&& tag != 0xFF
            &&& tag != 0xFE
            &&& tag & 0xC0 == 0x40
            &&& r0.wrapping_add(((tag >> 4u8) & 3).wrapping_sub(2)) == r
            &&& g0.wrapping_add(((tag >> 2u8) & 3).wrapping_sub(2)) == g
            &&& b0.wrapping_add((tag & 3).wrapping_sub(2)) == b
        }),
{
}

proof fn lemma_luma_tag(r0: u8, g0: u8, b0: u8, r: u8, g: u8, b: u8)
    by (bit_vector)
    requires
        g.wrapping_sub(g0).wrapping_add(32) <= 63,
        r.wrapping_sub(r0).wrapping_sub(g.wrapping_sub(g0)).wrapping_add(8) <= 15,
        b.wrapping_sub(b0).wrapping_sub(g.wrapping_sub(g0)).wrapping_add(8) <= 15,
    ensures
        ({
            let dg = g.wrapping_sub(g0);
            let tag = LUMA_MASK | dg.wrapping_add(32);
            let nxt = (r.wrapping_sub(r0).wrapping_sub(dg).wrapping_add(8) << 4u8) | b.wrapping_sub(
                b0,
            ).wrapping_sub(dg).wrapping_add(8);
            let ddg = (tag & 0x3F).wrapping_sub(32);
            let ddr = ((nxt >> 4u8) & 0x0F).wrapping_sub(8);
            let ddb = (nxt & 0x0F).wrapping_sub(8);
            &&& tag != 0xFF
            &&& tag != 0xFE
            &&& tag & 0xC0 == 0x80
            &&& r0.wrapping_add(ddr).wrapping_add(ddg) == r
            &&& g0.wrapping_add(ddg) == g
            &&& b0.wrapping_add(ddb).wrapping_add(ddg) == b
        }),
{
}

proof fn lemma_run_tag(r: u8)
    by (bit_vector)
    requires
        r < 62,
    ensures
        ({
            let tag = (RUN_MASK + r) as u8;
            &&& tag != 0xFF
            &&& tag != 0xFE
            &&& tag & 0xC0 == 0xC0
            &&& tag & 0x3F == r
        }),
{
}

proof fn lemma_index_tag(h: u8)
    by (bit_vector)
    requires
        h < 64,
    ensures
        INDEX_MASK | h == h,
        h & 0xC0 == 0,
        h != 0xFF,
        h != 0xFE,
{
}

/// Every slot of the encoder's seen table `se` either holds what the decoder's table `sd` holds,
/// or a pixel that hashes elsewhere, so that no index chunk can pick it.
pub open spec fn seen_agree(se: Seq<Px>, sd: Seq<Px>) -> bool {
    forall|k: int| 0 <= k < 64 ==> #[trigger] se[k] == sd[k] || qoi_hash(se[k]) != k
}

proof fn lemma_px_bytes_at(img: Seq<u8>, ch: nat, i: int)
    requires
        ch == 3 || ch == 4,
        0 <= i,
        i + ch <= img.len(),
    ensures
        px_bytes(px_at(img, ch, i), ch) == img.subrange(i, i + ch),
{
    assert(px_bytes(px_at(img, ch, i), ch) =~= img.subrange(i, i + ch));
}

proof fn lemma_chunk_decodes(rgba: Px, prev: Px, se: Seq<Px>, sd: Seq<Px>, ch: nat, d: Seq<u8>, at: int)
    requires
        ch == 3 || ch == 4,
        se.len() == 64,
        sd.len() == 64,
        0 <= at,
        at + enc_px(rgba, prev, se).len() <= d.len(),
        forall|k: int|
            0 <= k < enc_px(rgba, prev, se).len() ==> d[at + k] == #[trigger] enc_px(
                rgba,
                prev,
                se,
            )[k],
        seen_agree(se, sd),
        ch == 3 ==> rgba.3 == 255 && prev.3 == 255,
    ensures
        decode_chunk(d, at, prev, sd, ch) == Ok::<(int, Px, nat), QoiError>(
            (at + enc_px(rgba, prev, se).len(), rgba, 0nat),
        ),
{
    reveal(decode_chunk);
    let c = enc_px(rgba, prev, se);
    let h = qoi_hash(rgba);
    assert(c[0] == d[at]);
    if se[h as int] == rgba {
        lemma_index_tag(h);
        assert(se[h as int] == sd[h as int] || qoi_hash(se[h as int]) != h as int);
    } else if rgba.3 == prev.3 {
        let dr = rgba.0.wrapping_sub(prev.0);
        let dg = rgba.1.wrapping_sub(prev.1);
        let db = rgba.2.wrapping_sub(prev.2);
        if dr.wrapping_add(2) <= 3 && dg.wrapping_add(2) <= 3 && db.wrapping_add(2) <= 3 {
            lemma_diff_tag(prev.0, prev.1, prev.2, rgba.0, rgba.1, rgba.2);
        } else if dg.wrapping_add(32) <= 63 && dr.wrapping_sub(dg).wrapping_add(8) <= 15
            && db.wrapping_sub(dg).wrapping_add(8) <= 15 {
            lemma_luma_tag(prev.0, prev.1, prev.2, rgba.0, rgba.1, rgba.2);
            assert(c[1] == d[at + 1]);
        } else {
            assert(c[1] == d[at + 1] && c[2] == d[at + 2] && c[3] == d[at + 3]);
        }
    } else {
        assert(c[1] == d[at + 1] && c[2] == d[at + 2] && c[3] == d[at + 3] && c[4] == d[at + 4]);
    }
}

proof fn lemma_skip_props(img: Seq<u8>, ch: nat, i: int, prev: Px, cap: nat, m: nat)
    requires
        ch == 3 || ch == 4,
        0 <= i,
        img.len() == i + m * ch,
        cap <= m,
    ensures
        skip_run(img, ch, i, prev, cap).0 <= cap,
        i <= skip_run(img, ch, i, prev, cap).1,
        img.len() == skip_run(img, ch, i, prev, cap).1 + (m - skip_run(img, ch, i, prev, cap).0)
            * ch,
        img.subrange(i, skip_run(img, ch, i, prev, cap).1) == repeat_px(
            prev,
            ch,
            skip_run(img, ch, i, prev, cap).0,
        ),
        cap > 0 && px_at(img, ch, i) == prev ==> skip_run(img, ch, i, prev, cap).0 >= 1,
    decreases cap,
{
    if cap == 0 || px_at(img, ch, i) != prev {
        lemma_skip_stop(img, ch, i, prev, cap);
        assert(img.subrange(i, i) =~= repeat_px(prev, ch, 0));
    } else {
        lemma_skip_step(img, ch, i, prev, cap);
        lemma_px_step(i, m as int, ch as int, img.len() as int);
        lemma_skip_props(img, ch, i + ch, prev, (cap - 1) as nat, (m - 1) as nat);
        lemma_px_bytes_at(img, ch, i);
        let (c1, e) = skip_run(img, ch, i + ch, prev, (cap - 1) as nat);
        assert(img.subrange(i, e) =~= img.subrange(i, i + ch) + img.subrange(i + ch, e));
        assert(repeat_px(prev, ch, c1 + 1) == px_bytes(prev, ch) + repeat_px(prev, ch, c1));
    }
}

/// What the chunks of `n` pixels from byte `i` on decode to, after `pre` and before `t`.
pub open spec fn chunks_decode_ok(
    img: Seq<u8>,
    ch: nat,
    i: int,
    prev: Px,
    se: Seq<Px>,
    sd: Seq<Px>,
    n: nat,
    pre: Seq<u8>,
    t: Seq<u8>,
) -> bool {
    decode_body(pre + encode_from(img, ch, i, prev, se, n) + t, ch, pre.len() as int, prev, sd, n)
        == Ok::<(int, Seq<u8>), QoiError>(
        (
            pre.len() + encode_from(img, ch, i, prev, se, n).len() as int,
            img.subrange(i, img.len() as int),
        ),
    )
}

/// What the encoder and decoder hold in common before each chunk.
pub open spec fn codec_state_ok(img: Seq<u8>, ch: nat, i: int, prev: Px, se: Seq<Px>, sd: Seq<Px>, n: nat) -> bool {
    &&& ch == 3 || ch == 4
    &&& se.len() == 64
    &&& sd.len() == 64
    &&& 0 <= i
    &&& img.len() == i + n * ch
    &&& seen_agree(se, sd)
    &&& se[qoi_hash(prev) as int] == prev || qoi_hash(se[qoi_hash(prev) as int]) != qoi_hash(prev)
    &&& ch == 3 ==> prev.3 == 255
}

proof fn lemma_run_chunk_decodes(d: Seq<u8>, at: int, prev: Px, sd: Seq<Px>, ch: nat, r: u8)
    requires
        0 <= at < d.len(),
        r < 62,
        d[at] == (RUN_MASK + r) as u8,
    ensures
        decode_chunk(d, at, prev, sd, ch) == Ok::<(int, Px, nat), QoiError>((at + 1, prev, r as nat)),
{
    reveal(decode_chunk);
    lemma_run_tag(r);
}

#[verifier::spinoff_prover]
proof fn lemma_run_step(
    img: Seq<u8>,
    ch: nat,
    i: int,
    prev: Px,
    se: Seq<Px>,
    sd: Seq<Px>,
    n: nat,
    pre: Seq<u8>,
    t: Seq<u8>,
    c: nat,
    e: int,
)
    requires
        n > 0,
        1 <= c <= n,
        c <= 62,
        0 <= i <= e <= img.len(),
        img.subrange(i, e) == repeat_px(prev, ch, c),
        encode_from(img, ch, i, prev, se, n) == seq![(RUN_MASK + (c - 1)) as u8] + encode_from(
            img,
            ch,
            e,
            prev,
            se,
            (n - c) as nat,
        ),
        chunks_decode_ok(
            img,
            ch,
            e,
            prev,
            se,
            sd.update(qoi_hash(prev) as int, prev),
            (n - c) as nat,
            pre + seq![(RUN_MASK + (c - 1)) as u8],
            t,
        ),
    ensures
        chunks_decode_ok(img, ch, i, prev, se, sd, n, pre, t),
{
    let enc = encode_from(img, ch, i, prev, se, n);
    let d = pre + enc + t;
    let chunk = seq![(RUN_MASK + (c - 1)) as u8];
    let rest = encode_from(img, ch, e, prev, se, (n - c) as nat);
    lemma_decode_step(d, ch, pre.len() as int, prev, sd, n);
    assert(d[pre.len() as int] == chunk[0]);
    lemma_run_chunk_decodes(d, pre.len() as int, prev, sd, ch, (c - 1) as u8);
    assert(d =~= (pre + chunk) + rest + t);
    assert(img.subrange(i, img.len() as int) =~= img.subrange(i, e) + img.subrange(e, img.len() as int));
}

#[verifier::spinoff_prover]
proof fn lemma_px_chunk_step(
    img: Seq<u8>,
    ch: nat,
    i: int,
    prev: Px,
    se: Seq<Px>,
    sd: Seq<Px>,
    n: nat,
    pre: Seq<u8>,
    t: Seq<u8>,
)
    requires
        codec_state_ok(img, ch, i, prev, se, sd, n),
        n > 0,
        i + ch <= img.len(),
        px_at(img, ch, i) != prev,
        encode_from(img, ch, i, prev, se, n) == enc_px(px_at(img, ch, i), prev, se) + encode_from(
            img,
            ch,
            i + ch,
            px_at(img, ch, i),
            se.update(qoi_hash(px_at(img, ch, i)) as int, px_at(img, ch, i)),
            (n - 1) as nat,
        ),
        chunks_decode_ok(
            img,
            ch,
            i + ch,
            px_at(img, ch, i),
            se.update(qoi_hash(px_at(img, ch, i)) as int, px_at(img, ch, i)),
            sd.update(qoi_hash(px_at(img, ch, i)) as int, px_at(img, ch, i)),
            (n - 1) as nat,
            pre + enc_px(px_at(img, ch, i), prev, se),
            t,
        ),
    ensures
        chunks_decode_ok(img, ch, i, prev, se, sd, n, pre, t),
{
    let rgba = px_at(img, ch, i);
    let enc = encode_from(img, ch, i, prev, se, n);
    let d = pre + enc + t;
    let chunk = enc_px(rgba, prev, se);
    let se1 = se.update(qoi_hash(rgba) as int, rgba);
    let rest = encode_from(img, ch, i + ch, rgba, se1, (n - 1) as nat);
    lemma_decode_step(d, ch, pre.len() as int, prev, sd, n);
    assert forall|k: int| 0 <= k < chunk.len() implies d[pre.len() + k] == #[trigger] chunk[k] by {
        assert(d[pre.len() + k] == enc[k]);
    }
    lemma_chunk_decodes(rgba, prev, se, sd, ch, d, pre.len() as int);
    assert(d =~= (pre + chunk) + rest + t);
    lemma_px_bytes_at(img, ch, i);
    assert(repeat_px(rgba, ch, 1) =~= px_bytes(rgba, ch) + repeat_px(rgba, ch, 0));
    assert(img.subrange(i, img.len() as int) =~= img.subrange(i, i + ch) + img.subrange(
        i + ch,
        img.len() as int,
    ));
}

proof fn lemma_chunks_decode(
    img: Seq<u8>,
    ch: nat,
    i: int,
    prev: Px,
    se: Seq<Px>,
    sd: Seq<Px>,
    n: nat,
    pre: Seq<u8>,
    t: Seq<u8>,
)
    requires
        codec_state_ok(img, ch, i, prev, se, sd, n),
    ensures
        chunks_decode_ok(img, ch, i, prev, se, sd, n, pre, t),
    decreases n,
{
    if n == 0 {
        let d = pre + encode_from(img, ch, i, prev, se, n) + t;
        lemma_encode_done(img, ch, i, prev, se);
        lemma_decode_done(d, ch, pre.len() as int, prev, sd);
        assert(img.subrange(i, img.len() as int) =~= Seq::<u8>::empty());
    } else {
        lemma_encode_step(img, ch, i, prev, se, n);
        lemma_px_step(i, n as int, ch as int, img.len() as int);
        let rgba = px_at(img, ch, i);
        if rgba == prev {
            let cap: nat = if n < 62 { n } else { 62 };
            lemma_skip_props(img, ch, i, prev, cap, n);
            let (c, e) = skip_run(img, ch, i, prev, cap);
            let sd1 = sd.update(qoi_hash(prev) as int, prev);
            assert(seen_agree(se, sd1));
            lemma_chunks_decode(
                img,
                ch,
                e,
                prev,
                se,
                sd1,
                (n - c) as nat,
                pre + seq![(RUN_MASK + (c - 1)) as u8],
                t,
            );
            assert(e <= img.len()) by (nonlinear_arith)
                requires
                    img.len() == e + (n - c) * ch,
                    c <= n,
            ;
            lemma_run_step(img, ch, i, prev, se, sd, n, pre, t, c, e);
        } else {
            let se1 = se.update(qoi_hash(rgba) as int, rgba);
            let sd1 = sd.update(qoi_hash(rgba) as int, rgba);
            assert(seen_agree(se1, sd1));
            lemma_chunks_decode(
                img,
                ch,
                i + ch,
                rgba,
                se1,
                sd1,
                (n - 1) as nat,
                pre + enc_px(rgba, prev, se),
                t,
            );
            lemma_px_chunk_step(img, ch, i, prev, se, sd, n, pre, t);
        }
    }
}

proof fn lemma_be32(v: u32)
    ensures
        be32_at(be32_bytes(v), 0) == v,
{
    let a: u64 = (v / 0x100_0000) as u64;
    let b: u64 = ((v / 0x1_0000) % 0x100) as u64;
    let c: u64 = ((v / 0x100) % 0x100) as u64;
    let e: u64 = (v % 0x100) as u64;
    let w: u64 = v as u64;
    assert(a * 0x100_0000 + b * 0x1_0000 + c * 0x100 + e == w) by (bit_vector)
        requires
            w < 0x1_0000_0000,
            a == w / 0x100_0000,
            b == (w / 0x1_0000) % 0x100,
            c == (w / 0x100) % 0x100,
            e == w % 0x100,
    ;
}

/// Decoding what `encode` makes of an image gives the image back, with its width, height and
/// channel count, whenever the image has at least one row and one column.
pub proof fn lemma_qoi_roundtrip(img: Seq<u8>, w: u32, h: u32, ch: u8)
    requires
        ch == 3 || ch == 4,
        w > 0,
        h > 0,
        w * h <= MAX_PIXELS,
        img.len() == w * h * ch,
    ensures
        qoi_decode(qoi_encode(img, w, h, ch)) == Ok::<(Seq<u8>, u32, u32, u8), QoiError>(
            (img, w, h, ch),
        ),
{
    let init: Px = (0u8, 0u8, 0u8, 255u8);
    let n: nat = (w * h) as nat;
    let hd = qoi_header(w, h, ch);
    let enc = encode_from(img, ch as nat, 0, init, empty_seen(), n);
    let d = qoi_encode(img, w, h, ch);
    assert(d == hd + enc + qoi_padding());
    assert(qoi_hash(init) == 53);
    assert(qoi_hash((0u8, 0u8, 0u8, 0u8)) == 0);
    assert(img.len() == 0 + n * ch);
    lemma_chunks_decode(img, ch as nat, 0, init, empty_seen(), empty_seen(), n, hd, qoi_padding());
    lemma_be32(w);
    lemma_be32(h);
    assert(d.subrange(0, 4) =~= qoi_magic());
    assert(be32_at(d, 4) == be32_at(be32_bytes(w), 0));
    assert(be32_at(d, 8) == be32_at(be32_bytes(h), 0));
    assert(d[12] == ch && d[13] == SRGB);
    assert(img.subrange(0, img.len() as int) =~= img);
    let fi: int = (hd.len() + enc.len()) as int;
    assert(d.subrange(fi, fi + 8) =~= qoi_padding());
}

fn px_eq(a: Px, b: Px) -> (r: bool)
    ensures
        r == (a == b),
{
    a.0 == b.0 && a.1 == b.1 && a.2 == b.2 && a.3 == b.3
}

fn read_px(img: &[u8], i: usize, ch: u8) -> (p: Px)
    requires
        i + ch <= img@.len(),
        ch == 3 || ch == 4,
    ensures
        p == px_at(img@, ch as nat, i as int),
{
    (img[i], img[i + 1], img[i + 2], if ch == 4 { img[i + 3] } else { 255 })
}

fn put_be32(out: &mut Vec<u8>, v: u32)
    ensures
        final(out)@ == old(out)@ + be32_bytes(v),
{
    out.push((v / 0x100_0000) as u8);
    out.push(((v / 0x1_0000) % 0x100) as u8);
    out.push(((v / 0x100) % 0x100) as u8);
    out.push((v % 0x100) as u8);
    assert(final(out)@ =~= old(out)@ + be32_bytes(v));
}

fn put_px(out: &mut Vec<u8>, rgba: Px, prev: Px, seen: &Vec<Px>)
    requires
        seen@.len() == 64,
    ensures
        final(out)@ == old(out)@ + enc_px(rgba, prev, seen@),
{
    let h = hash(rgba);
    if px_eq(seen[h as usize], rgba) {
        out.push(INDEX_MASK | h);
    } else if rgba.3 == prev.3 {
        let dr = rgba.0.wrapping_sub(prev.0);
        let dg = rgba.1.wrapping_sub(prev.1);
        let db = rgba.2.wrapping_sub(prev.2);
        let dru = dr.wrapping_add(2);
        let dgu = dg.wrapping_add(2);
        let dbu = db.wrapping_add(2);
        if dru <= 3 && dgu <= 3 && dbu <= 3 {
            out.push(DIFF_MASK | (dru << 4u8) | (dgu << 2u8) | dbu);
        } else {
            let lg = dg.wrapping_add(32);
            let lr = dr.wrapping_sub(dg).wrapping_add(8);
            let lb = db.wrapping_sub(dg).wrapping_add(8);
            if lg <= 63 && lr <= 15 && lb <= 15 {
                out.push(LUMA_MASK | lg);
                out.push((lr << 4u8) | lb);
            } else {
                out.push(RGB_MASK);
                out.push(rgba.0);
                out.push(rgba.1);
                out.push(rgba.2);
            }
        }
    } else {
        out.push(RGBA_MASK);
        out.push(rgba.0);
        out.push(rgba.1);
        out.push(rgba.2);
        out.push(rgba.3);
    }
    assert(final(out)@ =~= old(out)@ + enc_px(rgba, prev, seen@));
}

/// `img` with 3-byte pixels widened to 4 bytes, each with alpha 255.
pub open spec fn rgb_to_rgba(rgb: Seq<u8>) -> Seq<u8> {
    Seq::new(
        (rgb.len() / 3 * 4) as nat,
        |k: int| if k % 4 == 3 { 255u8 } else { rgb[k / 4 * 3 + k % 4] },
    )
}

/// The byte at column `c` of row `r`, rows being `rs` bytes long.
pub open spec fn row_byte(s: Seq<u8>, rs: int, r: int, c: int) -> u8 {
    s[r * rs + c]
}

/// `new` is `old` with its first `h` rows of `rs` bytes in reverse order.
pub open spec fn rows_flipped(old: Seq<u8>, new: Seq<u8>, rs: int, h: int) -> bool {
    &&& new.len() == old.len()
    &&& forall|r: int, c: int|
        0 <= r < h && 0 <= c < rs ==> #[trigger] row_byte(new, rs, r, c) == row_byte(old, rs, h - 1 - r, c)
    &&& forall|k: int| h * rs <= k < old.len() ==> #[trigger] new[k] == old[k]
}

/// `new` is `old` with rows `r` and `h - 1 - r` swapped for each `r < done`.
spec fn rows_swapped_upto(old: Seq<u8>, new: Seq<u8>, rs: int, h: int, done: int) -> bool {
    &&& new.len() == old.len()
    &&& forall|r: int, c: int|
        0 <= r < h && 0 <= c < rs ==> #[trigger] row_byte(new, rs, r, c) == if r < done || h - 1 - r
            < done {
            row_byte(old, rs, h - 1 - r, c)
        } else {
            row_byte(old, rs, r, c)
        }
    &&& forall|k: int| h * rs <= k < old.len() ==> #[trigger] new[k] == old[k]
}

proof fn lemma_row_index(rs: int, r: int, c: int, h: int)
    requires
        0 <= r < h,
        0 <= c < rs,
    ensures
        0 <= r * rs + c < h * rs,
        r * rs + c < (r + 1) * rs,
{
    assert(0 <= r * rs + c < h * rs) by (nonlinear_arith)
        requires
            0 <= r < h,
            0 <= c < rs,
    ;
    assert(r * rs + c < (r + 1) * rs) by (nonlinear_arith)
        requires
            0 <= c < rs,
    ;
}

proof fn lemma_row_index_unique(rs: int, r1: int, c1: int, r2: int, c2: int)
    requires
        0 <= c1 < rs,
        0 <= c2 < rs,
        r1 * rs + c1 == r2 * rs + c2,
    ensures
        r1 == r2,
        c1 == c2,
{
    if r1 < r2 {
        assert(r1 * rs + c1 < r2 * rs + c2) by (nonlinear_arith)
            requires
                r1 < r2,
                0 <= c1 < rs,
                0 <= c2,
        ;
    } else if r2 < r1 {
        assert(r2 * rs + c2 < r1 * rs + c1) by (nonlinear_arith)
            requires
                r2 < r1,
                0 <= c2 < rs,
                0 <= c1,
        ;
    }
}

/// `ImageData::img` is `old` with its first `height` rows of `width * channels` bytes in
/// reverse order.
pub open spec fn img_flipped(old: ImageData, new: ImageData) -> bool {
    &&& new.width == old.width
    &&& new.height == old.height
    &&& new.channels == old.channels
    &&& rows_flipped(old.img@, new.img@, old.width * old.channels, old.height as int)
}

/// Turning an image upside down twice gives it back.
pub proof fn lemma_flip_twice(a: Seq<u8>, b: Seq<u8>, c: Seq<u8>, rs: int, h: int)
    requires
        0 <= rs,
        0 <= h,
        h * rs <= a.len(),
        rows_flipped(a, b, rs, h),
        rows_flipped(b, c, rs, h),
    ensures
        c == a,
{
    assert forall|k: int| 0 <= k < a.len() implies c[k] == a[k] by {
        if k < h * rs {
            let r = k / rs;
            let col = k % rs;
            assert(rs > 0) by (nonlinear_arith)
                requires
                    0 <= k < h * rs,
                    0 <= h,
            ;
            vstd::arithmetic::div_mod::lemma_fundamental_div_mod(k, rs);
            assert(k == r * rs + col);
            assert(0 <= r < h) by (nonlinear_arith)
                requires
                    k == r * rs + col,
                    0 <= col < rs,
                    0 <= k < h * rs,
            ;
            assert(row_byte(c, rs, r, col) == row_byte(b, rs, h - 1 - r, col));
            assert(row_byte(b, rs, h - 1 - r, col) == row_byte(a, rs, h - 1 - (h - 1 - r), col));
        } else {
            assert(c[k] == b[k]);
        }
    }
    assert(c =~= a);
}

/// The codec for the "Quite OK Image" format.
pub struct Qoi;

impl Qoi {
    /// Decodes a QOI stream: the pixel bytes and header fields of `qoi_decode(qoi)`, or the
    /// first fault that it names.
    pub fn decode(qoi: &[u8]) -> (r: Result<ImageData, QoiError>)
        ensures
            match qoi_decode(qoi@) {
                Ok((img, w, h, ch)) => r matches Ok(data) && data.img@ == img && data.width == w
                    && data.height == h && data.channels == ch,
                Err(e) => r matches Err(re) && re == e,
            },
    {
        let n = qoi.len();
        if n < 4 {
            return Err(QoiError::Truncated);
        }
        if qoi[0] != 0x71 || qoi[1] != 0x6f || qoi[2] != 0x69 || qoi[3] != 0x66 {
            proof {
                let s = qoi@.subrange(0, 4);
                assert(s[0] == qoi@[0] && s[1] == qoi@[1] && s[2] == qoi@[2] && s[3] == qoi@[3]);
                assert(qoi_magic()[0] == 0x71 && qoi_magic()[1] == 0x6f && qoi_magic()[2] == 0x69
                    && qoi_magic()[3] == 0x66);
            }
            return Err(QoiError::BadMagic);
        }
        assert(qoi@.subrange(0, 4) =~= qoi_magic());
        if n < 8 {
            return Err(QoiError::Truncated);
        }
        let width: u32 = (qoi[4] as u32) * 0x100_0000 + (qoi[5] as u32) * 0x1_0000 + (qoi[6] as u32)
            * 0x100 + qoi[7] as u32;
        if width == 0 {
            return Err(QoiError::ZeroWidth);
        }
        if n < 12 {
            return Err(QoiError::Truncated);
        }
        let height: u32 = (qoi[8] as u32) * 0x100_0000 + (qoi[9] as u32) * 0x1_0000 + (qoi[10] as u32)
            * 0x100 + qoi[11] as u32;
        if height == 0 {
            return Err(QoiError::ZeroHeight);
        }
        assert(width as u64 * height as u64 <= u64::MAX) by (nonlinear_arith)
            requires
                width <= u32::MAX,
                height <= u32::MAX,
        ;
        let pixels: u64 = width as u64 * height as u64;
        if pixels > MAX_PIXELS as u64 {
            return Err(QoiError::TooLarge);
        }
        if n < 13 {
            return Err(QoiError::Truncated);
        }
        let ch = qoi[12];
        if ch != 3 && ch != 4 {
            return Err(QoiError::BadChannels);
        }
        if n < 14 {
            return Err(QoiError::Truncated);
        }
        let colorspace = qoi[13];
        if colorspace != SRGB && colorspace != LINEAR {
            return Err(QoiError::BadColorspace);
        }
        let total: u32 = pixels as u32;
        let (i, img) = match decode_pixels(qoi, ch, total) {
            Ok(v) => v,
            Err(e) => {
                return Err(e);
            },
        };
        if n - i < 8 {
            return Err(QoiError::Truncated);
        }
        if qoi[i] != 0 || qoi[i + 1] != 0 || qoi[i + 2] != 0 || qoi[i + 3] != 0 || qoi[i + 4] != 0
            || qoi[i + 5] != 0 || qoi[i + 6] != 0 || qoi[i + 7] != 1 {
            proof {
                let s = qoi@.subrange(i as int, i + 8);
                assert(s[0] == qoi@[i as int] && s[1] == qoi@[i + 1] && s[2] == qoi@[i + 2] && s[3]
                    == qoi@[i + 3] && s[4] == qoi@[i + 4] && s[5] == qoi@[i + 5] && s[6] == qoi@[i
                    + 6] && s[7] == qoi@[i + 7]);
            }
            return Err(QoiError::BadPadding);
        }
        assert(qoi@.subrange(i as int, i + 8) =~= qoi_padding());
        Ok(ImageData { img, width, height, channels: ch })
    }

    /// Encodes `img`, `width` by `height` pixels of `channels` bytes, as `qoi_encode` says.
    pub fn encode(img: &[u8], width: u32, height: u32, channels: u8) -> (qoi: Vec<u8>)
        requires
            channels == 3 || channels == 4,
            width * height <= MAX_PIXELS,
            img@.len() == width * height * channels,
        ensures
            qoi@ == qoi_encode(img@, width, height, channels),
    {
        let ch = channels;
        let mut qoi: Vec<u8> = Vec::new();
        qoi.push(0x71);
        qoi.push(0x6f);
        qoi.push(0x69);
        qoi.push(0x66);
        put_be32(&mut qoi, width);
        put_be32(&mut qoi, height);
        qoi.push(ch);
        qoi.push(SRGB);
        assert(qoi@ =~= qoi_header(width, height, ch));
        let total: u32 = width * height;
        let len: usize = img.len();
        let ghost whole = encode_from(
            img@,
            ch as nat,
            0,
            (0u8, 0u8, 0u8, 255u8),
            empty_seen(),
            total as nat,
        );
        let mut i: usize = 0;
        let mut n: u32 = total;
        let mut prev: Px = (0, 0, 0, 255);
        let mut seen = empty_table();
        let ghost mut done: Seq<u8> = Seq::empty();
        assert(whole =~= done + whole);
        assert(qoi@ =~= qoi_header(width, height, ch) + done);
        while n > 0
            invariant
                ch == 3 || ch == 4,
                seen@.len() == 64,
                img@.len() == i + n * ch,
                len == img@.len(),
                qoi@ == qoi_header(width, height, ch) + done,
                whole == done + encode_from(img@, ch as nat, i as int, prev, seen@, n as nat),
            decreases n,
        {
            proof {
                lemma_px_step(i as int, n as int, ch as int, img@.len() as int);
                lemma_encode_step(img@, ch as nat, i as int, prev, seen@, n as nat);
            }
            let rgba = read_px(img, i, ch);
            if px_eq(rgba, prev) {
                let cap: u32 = if n < 62 { n } else { 62 };
                let mut c: u32 = 0;
                let mut j: usize = i;
                proof {
                    lemma_skip_step(img@, ch as nat, i as int, prev, cap as nat);
                }
                while c < cap
                    invariant
                        ch == 3 || ch == 4,
                        c <= cap <= n,
                        cap == (if n < 62 { n } else { 62 }),
                        img@.len() == j + (n - c) * ch,
                        skip_run(img@, ch as nat, i as int, prev, cap as nat).0 == c + skip_run(
                            img@,
                            ch as nat,
                            j as int,
                            prev,
                            (cap - c) as nat,
                        ).0,
                        skip_run(img@, ch as nat, i as int, prev, cap as nat).1 == skip_run(
                            img@,
                            ch as nat,
                            j as int,
                            prev,
                            (cap - c) as nat,
                        ).1,
                        c == 0 ==> j == i,
                        px_at(img@, ch as nat, i as int) == prev,
                        len == img@.len(),
                    ensures
                        c == cap || px_at(img@, ch as nat, j as int) != prev,
                    decreases cap - c,
                {
                    proof {
                        lemma_px_step(j as int, (n - c) as int, ch as int, img@.len() as int);
                    }
                    let q = read_px(img, j, ch);
                    if !px_eq(q, prev) {
                        break;
                    }
                    proof {
                        lemma_skip_step(img@, ch as nat, j as int, prev, (cap - c) as nat);
                    }
                    c = c + 1;
                    j = j + ch as usize;
                }
                proof {
                    if c < cap {
                        lemma_skip_stop(img@, ch as nat, j as int, prev, (cap - c) as nat);
                    } else {
                        lemma_skip_stop(img@, ch as nat, j as int, prev, 0);
                    }
                }
                let r = (c - 1) as u8;
                assert(r < 62 ==> RUN_MASK | r == (RUN_MASK + r) as u8) by (bit_vector);
                qoi.push(RUN_MASK | r);
                proof {
                    let chunk = seq![(RUN_MASK + (c - 1)) as u8];
                    let rest = encode_from(img@, ch as nat, j as int, prev, seen@, (n - c) as nat);
                    assert(done + (chunk + rest) =~= (done + chunk) + rest);
                    assert(qoi@ =~= qoi_header(width, height, ch) + (done + chunk));
                    done = done + chunk;
                }
                i = j;
                n = n - c;
            } else {
                let ghost chunk = enc_px(rgba, prev, seen@);
                let ghost rest = encode_from(
                    img@,
                    ch as nat,
                    i + ch,
                    rgba,
                    seen@.update(qoi_hash(rgba) as int, rgba),
                    (n - 1) as nat,
                );
                put_px(&mut qoi, rgba, prev, &seen);
                let h = hash(rgba);
                seen.set(h as usize, rgba);
                proof {
                    assert(done + (chunk + rest) =~= (done + chunk) + rest);
                    assert(qoi@ =~= qoi_header(width, height, ch) + (done + chunk));
                    done = done + chunk;
                }
                i = i + ch as usize;
                n = n - 1;
                prev = rgba;
            }
        }
        proof {
            lemma_encode_done(img@, ch as nat, i as int, prev, seen@);
        }
        assert(done + Seq::<u8>::empty() =~= done);
        let mut k: usize = 0;
        while k < 7
            invariant
                k <= 7,
                qoi@ == qoi_header(width, height, ch) + done + Seq::new(k as nat, |_j: int| 0u8),
            decreases 7 - k,
        {
            qoi.push(0);
            k = k + 1;
            assert(qoi@ =~= qoi_header(width, height, ch) + done + Seq::new(k as nat, |_j: int| 0u8));
        }
        qoi.push(1);
        assert(qoi@ =~= qoi_header(width, height, ch) + whole + qoi_padding());
        qoi
    }

    /// Turns the image upside down: row `r` and row `height - 1 - r` trade places.
    pub fn flip_vert(img_data: &mut ImageData) -> (r: &mut ImageData)
        requires
            old(img_data).height * (old(img_data).width * old(img_data).channels) <= old(
                img_data,
            ).img@.len(),
        ensures
            img_flipped(*old(img_data), *r),
            *final(img_data) == *final(r),
    {
        let h = img_data.height as usize;
        let len: usize = img_data.img.len();
        let ghost old_img = img_data.img@;
        proof {
            if h > 0 {
                assert(img_data.width * img_data.channels <= img_data.img@.len()) by (
                nonlinear_arith)
                    requires
                        h * (img_data.width * img_data.channels) <= img_data.img@.len(),
                        h > 0,
                ;
            }
        }
        let rs: usize = if h == 0 {
            0
        } else {
            img_data.width as usize * img_data.channels as usize
        };
        let ghost rsi: int = img_data.width * img_data.channels;
        assert(h > 0 ==> rs == rsi);
        let mut i: usize = 0;
        while i < h / 2
            invariant
                h == img_data.height,
                rsi == img_data.width * img_data.channels,
                img_data.width == old(img_data).width,
                img_data.height == old(img_data).height,
                img_data.channels == old(img_data).channels,
                old_img == old(img_data).img@,
                h > 0 ==> rs == rsi,
                h * rsi <= old_img.len(),
                len == old_img.len(),
                i <= h / 2,
                rows_swapped_upto(old_img, img_data.img@, rsi, h as int, i as int),
            decreases h / 2 - i,
        {
            proof {
                assert(i * rsi + rsi <= h * rsi) by (nonlinear_arith)
                    requires
                        i < h,
                        rsi >= 0,
                ;
                assert((h - 1 - i) * rsi + rsi <= h * rsi) by (nonlinear_arith)
                    requires
                        i < h,
                        rsi >= 0,
                ;
                assert(i * rsi + rsi <= (h - 1 - i) * rsi) by (nonlinear_arith)
                    requires
                        i < h - 1 - i,
                        rsi >= 0,
                ;
            }
            let top = i * rs;
            let bot = (h - 1 - i) * rs;
            let ghost before = img_data.img@;
            let mut j: usize = 0;
            while j < rs
                invariant
                    h == img_data.height,
                    rsi == img_data.width * img_data.channels,
                    img_data.width == old(img_data).width,
                    img_data.height == old(img_data).height,
                    img_data.channels == old(img_data).channels,
                    rs == rsi,
                    h * rsi <= old_img.len(),
                    len == old_img.len(),
                    before.len() == old_img.len(),
                    i < h / 2,
                    top == i * rsi,
                    bot == (h - 1 - i) * rsi,
                    top + rsi <= bot,
                    bot + rsi <= h * rsi,
                    j <= rs,
                    img_data.img@.len() == before.len(),
                    forall|k: int|
                        0 <= k < before.len() ==> #[trigger] img_data.img@[k] == if top <= k < top
                            + j {
                            before[k - top + bot]
                        } else if bot <= k < bot + j {
                            before[k - bot + top]
                        } else {
                            before[k]
                        },
                decreases rs - j,
            {
                let a = img_data.img[top + j];
                let b = img_data.img[bot + j];
                img_data.img.set(top + j, b);
                img_data.img.set(bot + j, a);
                j = j + 1;
            }
            proof {
                let new = img_data.img@;
                assert forall|r: int, c: int| 0 <= r < h && 0 <= c < rsi implies #[trigger] row_byte(
                    new,
                    rsi,
                    r,
                    c,
                ) == if r < i + 1 || h - 1 - r < i + 1 {
                    row_byte(old_img, rsi, h - 1 - r, c)
                } else {
                    row_byte(old_img, rsi, r, c)
                } by {
                    lemma_row_index(rsi, r, c, h as int);
                    let k = r * rsi + c;
                    assert(row_byte(before, rsi, r, c) == before[k]);
                    if top <= k < top + rsi {
                        lemma_row_index_unique(rsi, r, c, i as int, k - top);
                        assert(row_byte(before, rsi, h - 1 - r, c) == before[k - top + bot]);
                    } else if bot <= k < bot + rsi {
                        lemma_row_index_unique(rsi, r, c, (h - 1 - i) as int, k - bot);
                        assert(row_byte(before, rsi, h - 1 - r, c) == before[k - bot + top]);
                    } else {
                        if r == i as int {
                            assert(false);
                        }
                        if r == h - 1 - i {
                            assert(false);
                        }
                    }
                }
            }
            i = i + 1;
        }
        proof {
            assert forall|r: int, c: int| 0 <= r < h && 0 <= c < rsi implies #[trigger] row_byte(
                img_data.img@,
                rsi,
                r,
                c,
            ) == row_byte(old_img, rsi, h - 1 - r, c) by {
                if !(r < i || h - 1 - r < i) {
                    assert(r == h - 1 - r);
                }
            }
            assert(rows_flipped(old_img, img_data.img@, rsi, h as int));
        }
        assert(img_flipped(*old(img_data), *img_data));
        img_data
    }

    /// Widens 3-byte pixels to 4 bytes, each with alpha 255.
    pub fn make4(rgb: &mut [u8]) -> (rgba: Vec<u8>)
        requires
            old(rgb)@.len() % 3 == 0,
        ensures
            rgba@ == rgb_to_rgba(old(rgb)@),
            final(rgb)@ == old(rgb)@,
    {
        let n = rgb.len() / 3;
        let mut out: Vec<u8> = Vec::new();
        let mut p: usize = 0;
        while p < n
            invariant
                n == rgb@.len() / 3,
                rgb@.len() % 3 == 0,
                p <= n,
                out@.len() == 4 * p,
                forall|k: int| 0 <= k < 4 * p ==> #[trigger] out@[k] == rgb_to_rgba(rgb@)[k],
            decreases n - p,
        {
            let ghost o = out@;
            out.push(rgb[3 * p]);
            out.push(rgb[3 * p + 1]);
            out.push(rgb[3 * p + 2]);
            out.push(255);
            assert forall|k: int| 0 <= k < 4 * (p + 1) implies #[trigger] out@[k] == rgb_to_rgba(
                rgb@,
            )[k] by {
                if k >= 4 * p {
                    assert(k / 4 == p);
                    assert(k % 4 == k - 4 * p);
                }
            }
            p = p + 1;
        }
        assert(out@ =~= rgb_to_rgba(rgb@));
        out
    }
}

/// The seen-table slot is the one the QOI format fixes: `(r*3 + g*5 + b*7 + a*11) mod 256 mod
/// 64`, the sum taken in 8-bit arithmetic.
pub proof fn lemma_qoi_hash_is_standard(p: Px)
    ensures
        qoi_hash(p) as int == (p.0 as int * 3 + p.1 as int * 5 + p.2 as int * 7 + p.3 as int * 11) % 256
            % 64,
{
    let r = p.0 as int;
    let g = p.1 as int;
    let b = p.2 as int;
    let a = p.3 as int;
    let m1 = p.0.wrapping_mul(3);
    let m2 = p.1.wrapping_mul(5);
    let m3 = p.2.wrapping_mul(7);
    let m4 = p.3.wrapping_mul(11);
    lemma_wrap_mul(p.0, 3);
    lemma_wrap_mul(p.1, 5);
    lemma_wrap_mul(p.2, 7);
    lemma_wrap_mul(p.3, 11);
    let s1 = m1.wrapping_add(m2);
    let s2 = s1.wrapping_add(m3);
    let s3 = s2.wrapping_add(m4);
    lemma_wrap_add(m1, m2);
    lemma_wrap_add(s1, m3);
    lemma_wrap_add(s2, m4);
    lemma_sum_mod(r * 3, g * 5, m1 as int, m2 as int, s1 as int);
    lemma_sum_mod(r * 3 + g * 5, b * 7, s1 as int, m3 as int, s2 as int);
    lemma_sum_mod(r * 3 + g * 5 + b * 7, a * 11, s2 as int, m4 as int, s3 as int);
}

proof fn lemma_wrap_mul(a: u8, k: u8)
    ensures
        a.wrapping_mul(k) as int == (a as int * k as int) % 256,
{
}

proof fn lemma_sum_mod(x: int, y: int, xm: int, ym: int, s: int)
    requires
        xm == x % 256,
        ym == y % 256,
        s == (xm + ym) % 256,
    ensures
        s == (x + y) % 256,
{
    vstd::arithmetic::div_mod::lemma_add_mod_noop(x, y, 256);
}

proof fn lemma_index_byte(h: u8)
    by (bit_vector)
    requires
        h < 64,
    ensures
        (0u8 | h) == h,
        h & 0xC0 == 0,
{
}

/// An index chunk names the pixel's standard slot: the encoder writes a pixel that the seen
/// table holds at slot `(r*3 + g*5 + b*7 + a*11) mod 256 mod 64` as the one byte of that slot,
/// and whenever it writes one byte below 64 for a pixel, that byte is the pixel's slot and the
/// table holds the pixel there. Decoding such a byte gives the pixel the table holds there.
pub proof fn lemma_index_chunk_is_standard(rgba: Px, prev: Px, seen: Seq<Px>, d: Seq<u8>, i: int, ch: nat)
    requires
        seen.len() == 64,
    ensures
        ({
            let slot = (rgba.0 as int * 3 + rgba.1 as int * 5 + rgba.2 as int * 7 + rgba.3 as int * 11) % 256
                % 64;
            &&& seen[slot] == rgba ==> enc_px(rgba, prev, seen) == seq![slot as u8]
            &&& enc_px(rgba, prev, seen).len() == 1 && enc_px(rgba, prev, seen)[0] < 64 ==> enc_px(
                rgba,
                prev,
                seen,
            )[0] == slot && seen[slot] == rgba
        }),
        0 <= i < d.len() && d[i] < 64 ==> decode_chunk(d, i, prev, seen, ch) == Ok::<(int, Px, nat), QoiError>(
            (i + 1, seen[d[i] as int], 0),
        ),
{
    lemma_qoi_hash_is_standard(rgba);
    let h = qoi_hash(rgba);
    lemma_index_byte(h);
    assert(h < 64);
    reveal(decode_chunk);
    if 0 <= i < d.len() && d[i] < 64 {
        lemma_index_byte(d[i]);
        assert(d[i] != 0xFF && d[i] != 0xFE);
    }
    if enc_px(rgba, prev, seen).len() == 1 && enc_px(rgba, prev, seen)[0] < 64 {
        if seen[h as int] != rgba {
            let e = enc_px(rgba, prev, seen);
            if rgba.3 == prev.3 {
                let dr = rgba.0.wrapping_sub(prev.0);
                let dg = rgba.1.wrapping_sub(prev.1);
                let db = rgba.2.wrapping_sub(prev.2);
                let dru = dr.wrapping_add(2);
                let dgu = dg.wrapping_add(2);
                let dbu = db.wrapping_add(2);
                if dru <= 3 && dgu <= 3 && dbu <= 3 {
                    assert((DIFF_MASK | (dru << 4u8) | (dgu << 2u8) | dbu) >= 64) by (bit_vector)
                        requires
                            DIFF_MASK == 0x40u8,
                    ;
                }
            }
        }
    }
}

proof fn lemma_tag_bits(t: u8)
    by (bit_vector)
    ensures
        (t & 0xC0 == 0x00) == (t < 64),
        (t & 0xC0 == 0x40) == (64 <= t && t < 128),
        (t & 0xC0 == 0x80) == (128 <= t && t < 192),
        (t >> 4u8) & 3 == (t / 16) % 4,
        (t >> 2u8) & 3 == (t / 4) % 4,
        t & 3 == t % 4,
        t & 0x3F == t % 64,
        (t >> 4u8) & 0x0F == t / 16,
        t & 0x0F == t % 16,
{
}

proof fn lemma_wrap_add(a: u8, b: u8)
    ensures
        a.wrapping_add(b) as int == (a as int + b as int) % 256,
        a.wrapping_sub(b) as int == (a as int - b as int) % 256,
{
}

/// Decoding one chunk follows the QOI format, byte by byte: `0xFE` gives the colour of the next
/// three bytes with the previous alpha; `0xFF` the colour and alpha of the next four; a byte
/// below 64 the pixel that the seen table holds at that slot; a byte `0x40 + 16 dr + 4 dg + db`
/// the previous pixel with `dr - 2`, `dg - 2`, `db - 2` added to red, green and blue modulo 256;
/// a byte `0x80 + g` followed by `16 r + b` the previous pixel with `g - 32` added to every
/// channel and `r - 8` more to red, `b - 8` more to blue, modulo 256; and a byte
/// `0xC0 + n` below `0xFE` the previous pixel, `n + 1` times in all.
pub proof fn lemma_chunk_decodes_as_qoi(d: Seq<u8>, i: int, px: Px, seen: Seq<Px>, ch: nat)
    requires
        0 <= i < d.len(),
        seen.len() == 64,
    ensures
        ({
            let t = d[i] as int;
            let r = decode_chunk(d, i, px, seen, ch);
            &&& t == 0xFE && i + 3 < d.len() ==> r == Ok::<(int, Px, nat), QoiError>(
                (i + 4, (d[i + 1], d[i + 2], d[i + 3], px.3), 0),
            )
            &&& t == 0xFF && ch == 4 && i + 4 < d.len() ==> r == Ok::<(int, Px, nat), QoiError>(
                (i + 5, (d[i + 1], d[i + 2], d[i + 3], d[i + 4]), 0),
            )
            &&& t < 64 ==> r == Ok::<(int, Px, nat), QoiError>((i + 1, seen[t], 0))
            &&& 64 <= t < 128 ==> (r matches Ok((ni, p, n)) && ni == i + 1 && n == 0 && p.3 == px.3
                && p.0 as int == (px.0 as int + (t / 16) % 4 - 2) % 256 && p.1 as int == (px.1 as int + (t
                / 4) % 4 - 2) % 256 && p.2 as int == (px.2 as int + t % 4 - 2) % 256)
            &&& 128 <= t < 192 && i + 1 < d.len() ==> {
                let dg = t % 64 - 32;
                let nx = d[i + 1] as int;
                (r matches Ok((ni, p, n)) && ni == i + 2 && n == 0 && p.3 == px.3 && p.1 as int == (
                px.1 as int + dg) % 256 && p.0 as int == (px.0 as int + nx / 16 - 8 + dg) % 256
                    && p.2 as int == (px.2 as int + nx % 16 - 8 + dg) % 256)
            }
            &&& 192 <= t < 0xFE ==> r == Ok::<(int, Px, nat), QoiError>((i + 1, px, (t % 64) as nat))
        }),
{
    reveal(decode_chunk);
    let t = d[i];
    lemma_tag_bits(t);
    if 64 <= t < 128 {
        let dr = (t >> 4u8) & 3;
        let dg = (t >> 2u8) & 3;
        let db = t & 3;
        lemma_wrap_add(dr, 2);
        lemma_wrap_add(dg, 2);
        lemma_wrap_add(db, 2);
        lemma_wrap_add(px.0, dr.wrapping_sub(2));
        lemma_wrap_add(px.1, dg.wrapping_sub(2));
        lemma_wrap_add(px.2, db.wrapping_sub(2));
        vstd::arithmetic::div_mod::lemma_add_mod_noop_right(px.0 as int, dr as int - 2, 256);
        vstd::arithmetic::div_mod::lemma_add_mod_noop_right(px.1 as int, dg as int - 2, 256);
        vstd::arithmetic::div_mod::lemma_add_mod_noop_right(px.2 as int, db as int - 2, 256);
    }
    if 128 <= t < 192 && i + 1 < d.len() {
        let nxt = d[i + 1];
        lemma_tag_bits(nxt);
        let dg = (t & 0x3F).wrapping_sub(32);
        let dr = ((nxt >> 4u8) & 0x0F).wrapping_sub(8);
        let db = (nxt & 0x0F).wrapping_sub(8);
        lemma_wrap_add(t & 0x3F, 32);
        lemma_wrap_add((nxt >> 4u8) & 0x0F, 8);
        lemma_wrap_add(nxt & 0x0F, 8);
        lemma_wrap_add(px.0, dr);
        lemma_wrap_add(px.0.wrapping_add(dr), dg);
        lemma_wrap_add(px.1, dg);
        lemma_wrap_add(px.2, db);
        lemma_wrap_add(px.2.wrapping_add(db), dg);
        let g = t as int % 64 - 32;
        vstd::arithmetic::div_mod::lemma_add_mod_noop_right(px.1 as int, g, 256);
        vstd::arithmetic::div_mod::lemma_add_mod_noop_right(px.0 as int, nxt as int / 16 - 8, 256);
        vstd::arithmetic::div_mod::lemma_add_mod_noop(px.0 as int + nxt as int / 16 - 8, g, 256);
        vstd::arithmetic::div_mod::lemma_add_mod_noop_right(px.2 as int, nxt as int % 16 - 8, 256);
        vstd::arithmetic::div_mod::lemma_add_mod_noop(px.2 as int + nxt as int % 16 - 8, g, 256);
        vstd::arithmetic::div_mod::lemma_add_mod_noop(
            (px.0 as int + nxt as int / 16 - 8) % 256,
            g % 256,
            256,
        );
    }
}

proof fn lemma_diff_byte(a: u8, b: u8, c: u8)
    by (bit_vector)
    requires
        a <= 3,
        b <= 3,
        c <= 3,
    ensures
        (0x40u8 | (a << 4u8) | (b << 2u8) | c) == 64 + 16 * a + 4 * b + c,
{
}

proof fn lemma_luma_bytes(g: u8, r: u8, b: u8)
    by (bit_vector)
    requires
        g <= 63,
        r <= 15,
        b <= 15,
    ensures
        (0x80u8 | g) == 128 + g,
        ((r << 4u8) | b) == 16 * r + b,
{
}

/// The encoder picks a chunk for a pixel as the QOI format's encoder does: the pixel's slot
/// where the seen table holds it there; else, where alpha changes, `0xFF` and all four channels;
/// else the one-byte difference `0x40 + 16 (dr + 2) + 4 (dg + 2) + (db + 2)` where each channel
/// moved by -2 to 1 (modulo 256); else the two-byte luma difference `0x80 + (dg + 32)`,
/// `16 (dr - dg + 8) + (db - dg + 8)` where those fit in 6 and 4 bits; else `0xFE` and the
/// three colour channels.
pub proof fn lemma_encoder_picks_qoi_chunk(rgba: Px, prev: Px, seen: Seq<Px>)
    requires
        seen.len() == 64,
    ensures
        ({
            let slot = (rgba.0 as int * 3 + rgba.1 as int * 5 + rgba.2 as int * 7 + rgba.3 as int * 11) % 256
                % 64;
            let dr = rgba.0 as int - prev.0 as int;
            let dg = rgba.1 as int - prev.1 as int;
            let db = rgba.2 as int - prev.2 as int;
            let er = (dr + 2) % 256;
            let eg = (dg + 2) % 256;
            let eb = (db + 2) % 256;
            let lg = (dg + 32) % 256;
            let lr = (dr - dg + 8) % 256;
            let lb = (db - dg + 8) % 256;
            let e = enc_px(rgba, prev, seen);
            &&& seen[slot] != rgba && rgba.3 != prev.3 ==> e == seq![0xFFu8, rgba.0, rgba.1, rgba.2, rgba.3]
            &&& seen[slot] != rgba && rgba.3 == prev.3 && er <= 3 && eg <= 3 && eb <= 3 ==> e == seq![
                (64 + 16 * er + 4 * eg + eb) as u8,
            ]
            &&& seen[slot] != rgba && rgba.3 == prev.3 && !(er <= 3 && eg <= 3 && eb <= 3) && lg <= 63
                && lr <= 15 && lb <= 15 ==> e == seq![(128 + lg) as u8, (16 * lr + lb) as u8]
            &&& seen[slot] != rgba && rgba.3 == prev.3 && !(er <= 3 && eg <= 3 && eb <= 3) && !(lg <= 63
                && lr <= 15 && lb <= 15) ==> e == seq![0xFEu8, rgba.0, rgba.1, rgba.2]
        }),
{
    lemma_qoi_hash_is_standard(rgba);
    let ddr = rgba.0.wrapping_sub(prev.0);
    let ddg = rgba.1.wrapping_sub(prev.1);
    let ddb = rgba.2.wrapping_sub(prev.2);
    let dr = rgba.0 as int - prev.0 as int;
    let dg = rgba.1 as int - prev.1 as int;
    let db = rgba.2 as int - prev.2 as int;
    lemma_wrap_add(rgba.0, prev.0);
    lemma_wrap_add(rgba.1, prev.1);
    lemma_wrap_add(rgba.2, prev.2);
    lemma_wrap_add(ddr, 2);
    lemma_wrap_add(ddg, 2);
    lemma_wrap_add(ddb, 2);
    vstd::arithmetic::div_mod::lemma_add_mod_noop(dr, 2, 256);
    vstd::arithmetic::div_mod::lemma_add_mod_noop(dg, 2, 256);
    vstd::arithmetic::div_mod::lemma_add_mod_noop(db, 2, 256);
    vstd::arithmetic::div_mod::lemma_add_mod_noop(dg, 32, 256);
    lemma_wrap_add(ddg, 32);
    let x = ddr.wrapping_sub(ddg);
    let y = ddb.wrapping_sub(ddg);
    lemma_wrap_add(ddr, ddg);
    lemma_wrap_add(ddb, ddg);
    lemma_wrap_add(x, 8);
    lemma_wrap_add(y, 8);
    vstd::arithmetic::div_mod::lemma_sub_mod_noop(dr, dg, 256);
    vstd::arithmetic::div_mod::lemma_sub_mod_noop(db, dg, 256);
    vstd::arithmetic::div_mod::lemma_add_mod_noop(dr - dg, 8, 256);
    vstd::arithmetic::div_mod::lemma_add_mod_noop(db - dg, 8, 256);
    let dru = ddr.wrapping_add(2);
    let dgu = ddg.wrapping_add(2);
    let dbu = ddb.wrapping_add(2);
    if dru <= 3 && dgu <= 3 && dbu <= 3 {
        lemma_diff_byte(dru, dgu, dbu);
    }
    let lgu = ddg.wrapping_add(32);
    let lru = x.wrapping_add(8);
    let lbu = y.wrapping_add(8);
    if lgu <= 63 && lru <= 15 && lbu <= 15 {
        lemma_luma_bytes(lgu, lru, lbu);
    }
}

proof fn lemma_be32_bytes_value(v: u32)
    ensures
        be32_bytes(v).len() == 4,
        be32_bytes(v)[0] as nat * 0x100_0000 + be32_bytes(v)[1] as nat * 0x1_0000 + be32_bytes(v)[2] as nat
            * 0x100 + be32_bytes(v)[3] as nat == v,
{
    assert((v / 0x100_0000) * 0x100_0000 + ((v / 0x1_0000) % 0x100) * 0x1_0000 + ((v / 0x100) % 0x100)
        * 0x100 + v % 0x100 == v) by (bit_vector);
    assert(v / 0x100_0000 < 0x100) by (bit_vector);
}

/// An encoding starts with the 14-byte header: the magic `qoif`, the width and the height as
/// big-endian 32-bit values, the channel count and 0 for sRGB; the chunks follow, and it ends
/// with seven 0 bytes and a 1.
pub proof fn lemma_encode_header_and_end(img: Seq<u8>, w: u32, h: u32, ch: u8)
    ensures
        ({
            let q = qoi_encode(img, w, h, ch);
            let n = q.len();
            &&& n >= 22
            &&& q[0] == 0x71 && q[1] == 0x6f && q[2] == 0x69 && q[3] == 0x66
            &&& q[4] as nat * 0x100_0000 + q[5] as nat * 0x1_0000 + q[6] as nat * 0x100 + q[7] as nat == w
            &&& q[8] as nat * 0x100_0000 + q[9] as nat * 0x1_0000 + q[10] as nat * 0x100 + q[11] as nat == h
            &&& q[12] == ch && q[13] == 0
            &&& forall|k: int| n - 8 <= k < n - 1 ==> #[trigger] q[k] == 0
            &&& q[n - 1] == 1
        }),
{
    lemma_be32_bytes_value(w);
    lemma_be32_bytes_value(h);
    let body = encode_from(img, ch as nat, 0, (0u8, 0u8, 0u8, 255u8), empty_seen(), (w * h) as nat);
    let hd = qoi_header(w, h, ch);
    let q = qoi_encode(img, w, h, ch);
    assert(hd.len() == 14);
    assert(q == hd + body + qoi_padding());
    assert forall|k: int| 0 <= k < 14 implies #[trigger] q[k] == hd[k] by {}
    assert(hd[4] == be32_bytes(w)[0] && hd[5] == be32_bytes(w)[1] && hd[6] == be32_bytes(w)[2] && hd[7]
        == be32_bytes(w)[3]);
    assert(hd[8] == be32_bytes(h)[0] && hd[9] == be32_bytes(h)[1] && hd[10] == be32_bytes(h)[2] && hd[11]
        == be32_bytes(h)[3]);
    let n = q.len();
    assert forall|k: int| n - 8 <= k < n implies #[trigger] q[k] == qoi_padding()[k - (n - 8)] by {}
}

/// Counting the repeats of `prev` from byte `i` on, at most `cap` of them, gives the number `c`
/// of pixels from `i` on, one every `ch` bytes, that all equal `prev`, stopping only at a pixel
/// that differs or at `cap`, and the byte `i + c * ch` after them.
pub proof fn lemma_skip_run_counts(img: Seq<u8>, ch: nat, i: int, prev: Px, cap: nat)
    ensures
        ({
            let (c, e) = skip_run(img, ch, i, prev, cap);
            &&& c <= cap
            &&& e == i + c * ch
            &&& forall|j: int| 0 <= j < c ==> #[trigger] px_at(img, ch, i + j * ch) == prev
            &&& c < cap ==> px_at(img, ch, i + c * ch) != prev
        }),
    decreases cap,
{
    reveal(skip_run);
    if cap == 0 || px_at(img, ch, i) != prev {
        assert(i + 0 * ch == i);
    } else {
        lemma_skip_run_counts(img, ch, i + ch, prev, (cap - 1) as nat);
        let (c2, e2) = skip_run(img, ch, i + ch, prev, (cap - 1) as nat);
        let c = c2 + 1;
        assert(i + ch + c2 * ch == i + c * ch) by (nonlinear_arith)
            requires
                c == c2 + 1,
        ;
        assert forall|j: int| 0 <= j < c implies #[trigger] px_at(img, ch, i + j * ch) == prev by {
            if j > 0 {
                assert(i + ch + (j - 1) * ch == i + j * ch) by (nonlinear_arith);
                assert(px_at(img, ch, i + ch + (j - 1) * ch) == prev);
            } else {
                assert(i + j * ch == i) by (nonlinear_arith)
                    requires
                        j == 0,
                ;
            }
        }
    }
}

/// Where the next pixel repeats the previous one, the encoding goes on with one run chunk
/// `0b11xx_xxxx` that stands for `c` pixels, `c` being the number of pixels from there on that
/// repeat it, but at most 62 and at most the pixels left: the byte is `0xC0 + c - 1`.
pub proof fn lemma_encoder_run_chunk(img: Seq<u8>, ch: nat, i: int, prev: Px, seen: Seq<Px>, n: nat)
    requires
        n > 0,
        px_at(img, ch, i) == prev,
    ensures
        ({
            let b = encode_from(img, ch, i, prev, seen, n)[0];
            let cap: nat = if n < 62 { n } else { 62 };
            let c = b - 0xC0 + 1;
            &&& encode_from(img, ch, i, prev, seen, n).len() > 0
            &&& 0xC0 <= b < 0xC0 + cap
            &&& forall|j: int| 0 <= j < c ==> #[trigger] px_at(img, ch, i + j * ch) == prev
            &&& c < cap ==> px_at(img, ch, i + c * ch) != prev
        }),
{
    reveal(encode_from);
    let cap: nat = if n < 62 { n } else { 62 };
    lemma_skip_run_counts(img, ch, i, prev, cap);
    let (c, e) = skip_run(img, ch, i, prev, cap);
    if c == 0 {
        assert(i + 0 * ch == i);
        assert(px_at(img, ch, i + c * ch) != prev);
    }
    assert(c >= 1 && c <= n);
    let rest = encode_from(img, ch, e, prev, seen, (n - c) as nat);
    assert(encode_from(img, ch, i, prev, seen, n) == seq![(RUN_MASK + (c - 1)) as u8] + rest);
    assert(encode_from(img, ch, i, prev, seen, n)[0] == (RUN_MASK + (c - 1)) as u8);
}

} // verus!
