use silk_engine::util::bmp::{Bmp, BmpError};

fn back(img: &[u8], w: u32, h: u32, ch: u8) -> Vec<u8> {
    let data = Bmp::encode(img, w, h, ch);
    let d = Bmp::decode(&data).unwrap();
    assert_eq!((d.width, d.height, d.channels), (w, h, ch));
    d.img
}

#[test]
fn bmp_roundtrip_gray_rgb_rgba() {
    let gray = vec![1, 2, 3, 4, 5, 6];
    assert_eq!(back(&gray, 3, 2, 1), gray);
    let rgb = vec![10, 20, 30, 40, 50, 60, 70, 80, 90, 100, 110, 120];
    assert_eq!(back(&rgb, 2, 2, 3), rgb);
    let rgba = vec![1, 2, 3, 4, 5, 6, 7, 8];
    assert_eq!(back(&rgba, 1, 2, 4), rgba);
}

#[test]
fn bmp_rgb_width_three_reads_padding_as_a_pixel() {
    let rgb = vec![1, 2, 3, 4, 5, 6, 7, 8, 9];
    assert_eq!(back(&rgb, 3, 1, 3), vec![1, 2, 3, 4, 5, 6, 7, 8, 9, 0, 0, 0]);
}

#[test]
fn bmp_header_bytes() {
    let data = Bmp::encode(&[1, 2, 3], 1, 1, 3);
    assert_eq!(data.len(), 58);
    assert_eq!(&data[0..2], b"BM");
    assert_eq!(&data[2..6], &[58, 0, 0, 0]);
    assert_eq!(&data[10..14], &[54, 0, 0, 0]);
    assert_eq!(&data[14..18], &[40, 0, 0, 0]);
    assert_eq!(&data[28..30], &[24, 0]);
    assert_eq!(&data[34..38], &[4, 0, 0, 0]);
    assert_eq!(&data[54..58], &[3, 2, 1, 0]);
    let gray = Bmp::encode(&[7], 1, 1, 1);
    assert_eq!(gray.len(), 54 + 1024 + 4);
    assert_eq!(&gray[46..50], &[0, 1, 0, 0]);
    assert_eq!(&gray[54 + 4 * 200..54 + 4 * 201], &[200, 200, 200, 0]);
}

#[test]
fn bmp_decode_errors() {
    let good = Bmp::encode(&[1, 2, 3], 1, 1, 3);
    assert_eq!(Bmp::decode(&good[..1]).err(), Some(BmpError::Truncated));
    let mut bad = good.clone();
    bad[0] = b'X';
    assert_eq!(Bmp::decode(&bad).err(), Some(BmpError::BadMagic));
    let mut bad = good.clone();
    bad[2] = 54;
    assert_eq!(Bmp::decode(&bad).err(), Some(BmpError::TooSmall));
    let mut bad = good.clone();
    bad[10] = 10;
    assert_eq!(Bmp::decode(&bad).err(), Some(BmpError::BadOffset));
    let mut bad = good.clone();
    bad[14] = 41;
    assert_eq!(Bmp::decode(&bad).err(), Some(BmpError::BadInfoSize));
    let mut bad = good.clone();
    bad[30] = 1;
    assert_eq!(Bmp::decode(&bad).err(), Some(BmpError::Compressed));
    let mut bad = good.clone();
    bad[28] = 7;
    assert_eq!(Bmp::decode(&bad).err(), Some(BmpError::BadBitCount));
    let mut bad = good.clone();
    bad[28] = 16;
    assert_eq!(Bmp::decode(&bad).err(), Some(BmpError::Unsupported));
    assert_eq!(Bmp::decode(&good[..56]).err(), Some(BmpError::Truncated));
    assert_eq!(Bmp::decode(&good[..40]).err(), Some(BmpError::Truncated));
}
