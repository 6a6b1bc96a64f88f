use silk_engine::gfx::packer::{Rect, Shelf};
use silk_engine::util::dirty::Dirty;
use silk_engine::util::print::{bg_col, col, dim};
use silk_engine::util::rand::Rand;
use silk_engine::util::reader::{Reader, ReaderBe};
use silk_engine::util::vec::Vec3i;
use silk_engine::util::writer::Writer;

#[test]
fn colours_wrap_text() {
    assert_eq!(col("hi", [1, 22, 255]), "\x1b[38;2;1;22;255mhi\x1b[0m");
    assert_eq!(bg_col("x", [0, 0, 7]), "\x1b[48;2;0;0;7mx\x1b[0m");
    assert_eq!(dim("d"), "\x1b[2md\x1b[0m");
    assert_eq!(silk_engine::print::err("e"), "\x1b[38;2;241;76;76me\x1b[0m");
    assert_eq!(silk_engine::print::fatal("f"), "\x1b[48;2;241;76;76mf\x1b[0m");
    assert_eq!(silk_engine::print::warn("w"), "\x1b[38;2;245;245;67mw\x1b[0m");
    assert_eq!(silk_engine::print::info("i"), "\x1b[38;2;41;184;219mi\x1b[0m");
    assert_eq!(silk_engine::print::trace("t"), "\x1b[2mt\x1b[0m");
}

#[test]
fn rand_hashes() {
    assert_eq!(0u8.rand(), 58);
    assert_eq!(7u8.rand(), 219);
    assert_eq!(0u16.rand(), 4524);
    assert_eq!(1234u16.rand(), 30769);
    assert_eq!(0u32.rand(), 1684164658);
    assert_eq!(42u32.rand(), 551831576);
    assert_eq!(0u64.rand(), 16294208416658607535);
    assert_eq!(42u64.rand(), 13679457532755275413);
    assert_eq!((-5i8).rand(), 9);
}

#[test]
fn reader_reads_little_and_big_endian() {
    let bytes = [1u8, 2, 3, 4, 5, 6, 7, 8, 9];
    let mut r = Reader::new(&bytes);
    assert_eq!(r.read8(), 1);
    assert_eq!(r.read16(), 0x0302);
    assert_eq!(r.read32(), 0x07060504);
    assert_eq!(r.idx(), 7);
    r.goto(0);
    assert_eq!(r.read64(), 0x0807060504030201);
    let mut b = ReaderBe::new(&bytes);
    assert_eq!(b.read16(), 0x0102);
    b.skip(1);
    assert_eq!(b.read32(), 0x04050607);
    assert_eq!(b.read(2), &[8, 9]);
}

#[test]
fn writer_writes_little_endian() {
    let mut w = Writer::new(8);
    w.write16(0x0102);
    w.write8(9);
    w.skip(1);
    w.write32(0x0A0B0C0D);
    assert_eq!(w.idx(), 8);
    assert_eq!(w.finish(), vec![2, 1, 9, 0, 0x0D, 0x0C, 0x0B, 0x0A]);
}

#[test]
fn rect_packs_fields() {
    let r = Rect::new(1, 2, 3, 4);
    assert_eq!(r.xywh(), (1, 2, 3, 4));
    assert_eq!(r.xy(), (1, 2));
    assert_eq!(r.wh(), (3, 4));
    assert_eq!(r.packed_whxy(), (3u64 << 48) | (4u64 << 32) | (1u64 << 16) | 2);
    assert_eq!(r.area(), 12);
    assert_eq!(r.perim(), 7);
}

#[test]
fn shelf_fills_rows() {
    let mut s = Shelf::new(10, 10);
    assert_eq!(s.pack(6, 3), Some((0, 0)));
    assert_eq!(s.pack(4, 5), Some((6, 0)));
    assert_eq!(s.pack(3, 2), Some((0, 5)));
    assert_eq!(s.pack(3, 6), None);
    s.reset();
    assert_eq!(s.pack(10, 10), Some((0, 0)));
    s.resize(20, 20);
    assert_eq!((s.width(), s.height()), (20, 20));
}

#[test]
fn dirty_tracks_writes() {
    let mut d = Dirty::new(5);
    assert!(!d.is_dirty());
    *d.get_mut() = 4;
    assert!(d.is_dirty());
    d.reset();
    assert!(!d.is_dirty());
    assert_eq!(*d.get(), 4);
    *d.get_mut() = 6;
    assert!(d.is_dirty());
    assert_eq!(*d.get(), 6);
}

#[test]
fn vec3i_cross() {
    let c = Vec3i::new(1, 0, 0).cross(Vec3i::new(0, 1, 0));
    assert_eq!((c.x(), c.y(), c.z()), (0, 0, 1));
    let c = Vec3i::new(2, 3, 4).cross(Vec3i::new(5, 6, 7));
    assert_eq!((c.x(), c.y(), c.z()), (-3, 6, -3));
}

#[test]
fn shelf_pack_all_tallest_first() {
    let mut s = Shelf::new(10, 10);
    let r = s.pack_all(&[(2, 2), (3, 5), (4, 5), (1, 1)]);
    // Order: (4, 5) and (3, 5) (taller, then wider), then (2, 2), then (1, 1).
    assert_eq!(r, vec![Some((7, 0)), Some((4, 0)), Some((0, 0)), Some((9, 0))]);
}

#[test]
fn dirty_exactly_when_written_since_reset() {
    let mut d = Dirty::new(vec![1u8]);
    assert!(!d.is_dirty());
    assert_eq!(d.get(), &vec![1u8]);
    assert!(!d.is_dirty());
    d.get_mut().push(2);
    assert!(d.is_dirty());
    let _ = d.get();
    assert!(d.is_dirty());
    d.reset();
    assert!(!d.is_dirty());
    let _ = d.get();
    assert!(!d.is_dirty());
    d.get_mut();
    d.reset();
    assert!(!d.is_dirty());
    assert_eq!(d.get(), &vec![1u8, 2]);
}

#[test]
fn watched_exactly_when_written_since_reset() {
    let mut w = silk_engine::util::watched::Watched::new(3u32);
    assert!(!w.is_dirty());
    let _ = w.get();
    assert!(!w.is_dirty());
    *w.get_mut() = 4;
    assert!(w.is_dirty());
    w.reset();
    assert!(!w.is_dirty());
    assert_eq!(*w.get(), 4);
}

#[test]
fn big_endian_read_is_little_endian_read_of_reversed_bytes() {
    let bytes = [9u8, 0x12, 0x34, 0x56, 0x78];
    let mut be = ReaderBe::new(&bytes);
    be.goto(1);
    let v = be.read32();
    assert_eq!(v, 0x1234_5678);
    assert_eq!(v, u32::from_be_bytes([0x12, 0x34, 0x56, 0x78]));
    assert_eq!(be.idx(), 5);
    let rev = [0x78u8, 0x56, 0x34, 0x12];
    assert_eq!(Reader::new(&rev).read32(), v);
}
