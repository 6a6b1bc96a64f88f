use silk_engine::qoi::{ImageData, Qoi, QoiError};

fn assert_img_eq(a: &ImageData, b: &ImageData) {
    assert_eq!(a.img.len(), b.img.len(), "img size not equal");
    assert_eq!(a.img, b.img);
}

fn save_load(img: &ImageData) {
    let qoi = Qoi::encode(&img.img, img.width, img.height, img.channels);
    let limg = match Qoi::decode(&qoi) {
        Ok(d) => d,
        Err(e) => panic!("decode failed: {:?}", e),
    };
    assert_eq!(img.width, limg.width);
    assert_eq!(img.height, limg.height);
    assert_eq!(img.channels, limg.channels);
    assert_img_eq(&limg, img);
}

#[test]
fn save_load_test() {
    let img = vec![
        155, 000, 000, /**/ 155, 000, 000, // run len + rgb
        000, 200, 000, /**/ 250, 168, 250, // luma
        000, 000, 155, /**/ 001, 000, 153, // diff
        000, 200, 000, /**/ 250, 168, 250, // index
    ];
    save_load(&ImageData::new(img, 2, 4, 3));

    save_load(&ImageData::new(b"AAAAAA".repeat(64), 2 * 64, 1, 3)); // big run len
    save_load(&ImageData::new(b"AAAEEE".repeat(64), 2 * 64, 1, 3)); // big luma
    save_load(&ImageData::new(b"AAABBB".repeat(64), 2 * 64, 1, 3)); // big diff
    save_load(&ImageData::new(b"QQQAAA".repeat(64), 2 * 64, 1, 3)); // big index
    save_load(&ImageData::new(
        [b"AAAAAA".repeat(64), b"EEE".repeat(63)].concat(),
        2 * 64 + 63,
        1,
        3,
    )); // big double run len
}

#[test]
fn qoi_encode_exact_bytes() {
    // One pixel (1, 2, 3) after the start pixel (0, 0, 0, 255): a luma chunk.
    let q = Qoi::encode(&[1, 2, 3], 1, 1, 3);
    assert_eq!(
        q,
        vec![
            b'q', b'o', b'i', b'f', 0, 0, 0, 1, 0, 0, 0, 1, 3, 0, 0xA2, 0x79, 0, 0, 0, 0, 0, 0, 0,
            1
        ]
    );
}

#[test]
fn qoi_encode_run_and_index_bytes() {
    // The start pixel repeated twice is one run chunk of length 2.
    let q = Qoi::encode(&[0, 0, 0, 0, 0, 0], 2, 1, 3);
    assert_eq!(&q[14..15], &[0xC1]);
    // RGBA with a new alpha is a full RGBA chunk.
    let q = Qoi::encode(&[9, 8, 7, 6], 1, 1, 4);
    assert_eq!(&q[14..19], &[0xFF, 9, 8, 7, 6]);
}

#[test]
fn qoi_roundtrip_rgba() {
    let mut img = Vec::new();
    for i in 0..50u32 {
        img.extend_from_slice(&[(i * 7) as u8, (i * 3) as u8, 200, (i % 3) as u8 * 100]);
    }
    save_load(&ImageData::new(img, 10, 5, 4));
}

#[test]
fn qoi_decode_errors() {
    let good = Qoi::encode(&[1, 2, 3], 1, 1, 3);
    assert_eq!(Qoi::decode(&good[..3]).err(), Some(QoiError::Truncated));
    let mut bad = good.clone();
    bad[0] = b'x';
    assert_eq!(Qoi::decode(&bad).err(), Some(QoiError::BadMagic));
    let mut bad = good.clone();
    bad[7] = 0;
    assert_eq!(Qoi::decode(&bad).err(), Some(QoiError::ZeroWidth));
    let mut bad = good.clone();
    bad[11] = 0;
    assert_eq!(Qoi::decode(&bad).err(), Some(QoiError::ZeroHeight));
    let mut bad = good.clone();
    bad[4] = 0x20; // width 2^29 + 1
    assert_eq!(Qoi::decode(&bad).err(), Some(QoiError::TooLarge));
    let mut bad = good.clone();
    bad[12] = 5;
    assert_eq!(Qoi::decode(&bad).err(), Some(QoiError::BadChannels));
    let mut bad = good.clone();
    bad[13] = 2;
    assert_eq!(Qoi::decode(&bad).err(), Some(QoiError::BadColorspace));
    let mut bad = good.clone();
    bad[14] = 0xFF; // an RGBA chunk in an RGB image
    assert_eq!(Qoi::decode(&bad).err(), Some(QoiError::RgbaInRgb));
    let mut bad = good.clone();
    bad[14] = 0xC1; // a run of 2 in a 1-pixel image
    assert_eq!(Qoi::decode(&bad).err(), Some(QoiError::RunTooLong));
    let mut bad = good.clone();
    let last = bad.len() - 1;
    bad[last] = 2;
    assert_eq!(Qoi::decode(&bad).err(), Some(QoiError::BadPadding));
    assert_eq!(Qoi::decode(&good[..good.len() - 1]).err(), Some(QoiError::Truncated));
}

#[test]
fn qoi_flip_vert_swaps_rows() {
    let mut d = ImageData::new(vec![1, 2, 3, 4, 5, 6], 2, 3, 1);
    Qoi::flip_vert(&mut d);
    assert_eq!(d.img, vec![5, 6, 3, 4, 1, 2]);
    Qoi::flip_vert(&mut d);
    assert_eq!(d.img, vec![1, 2, 3, 4, 5, 6]);
}

#[test]
fn qoi_make4_adds_alpha() {
    let mut rgb = vec![1, 2, 3, 4, 5, 6];
    assert_eq!(Qoi::make4(&mut rgb), vec![1, 2, 3, 255, 4, 5, 6, 255]);
}
