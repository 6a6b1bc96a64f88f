use silk_engine::util::wav::{Wav, WavError, WavInfo};

#[test]
fn wav_pcm16_roundtrip() {
    let samples = [1i16, -2, 300];
    let data = Wav::encode_pcm16(&samples, 44100, 2);
    assert_eq!(data.len(), 44 + 6);
    assert_eq!(&data[0..4], b"RIFF");
    assert_eq!(&data[4..8], &[42, 0, 0, 0]);
    assert_eq!(&data[8..16], b"WAVEfmt ");
    assert_eq!(&data[44..50], &[1, 0, 0xFE, 0xFF, 0x2C, 0x01]);
    let info = Wav::parse(&data).unwrap();
    assert_eq!(
        info,
        WavInfo { channels: 2, sample_rate: 44100, bits_per_sample: 16, data_start: 44, data_len: 6 }
    );
}

#[test]
fn wav_parse_skips_unknown_chunks() {
    let mut data = Wav::encode_pcm16(&[5, 6], 8000, 1);
    // Put a 2-byte "LIST" chunk between the fmt and data chunks.
    let tail = data.split_off(36);
    data.extend_from_slice(b"LIST");
    data.extend_from_slice(&[2, 0, 0, 0, 9, 9]);
    data.extend_from_slice(&tail);
    let info = Wav::parse(&data).unwrap();
    assert_eq!(info.data_start, 54);
    assert_eq!(info.data_len, 4);
    assert_eq!(info.sample_rate, 8000);
}

#[test]
fn wav_parse_errors() {
    let good = Wav::encode_pcm16(&[5, 6], 8000, 1);
    assert_eq!(Wav::parse(&good[..3]), Err(WavError::Truncated));
    let mut bad = good.clone();
    bad[0] = b'X';
    assert_eq!(Wav::parse(&bad), Err(WavError::BadMagic));
    let mut bad = good.clone();
    bad[8] = b'X';
    assert_eq!(Wav::parse(&bad), Err(WavError::BadFormat));
    let mut bad = good.clone();
    bad[16] = 18;
    assert_eq!(Wav::parse(&bad), Err(WavError::BadFmtSize));
    let mut bad = good.clone();
    bad[20] = 3;
    assert_eq!(Wav::parse(&bad), Err(WavError::Compressed));
    let mut bad = good.clone();
    bad[28] = 0;
    assert_eq!(Wav::parse(&bad), Err(WavError::BadByteRate));
    let mut bad = good.clone();
    bad[32] = 7;
    assert_eq!(Wav::parse(&bad), Err(WavError::BadBlockAlign));
    let mut bad = good.clone();
    bad[40] = 9;
    assert_eq!(Wav::parse(&bad), Err(WavError::Truncated));
    assert_eq!(Wav::parse(&good[..44]), Err(WavError::NoData));
    let mut bad = good.clone();
    bad[12] = b'x'; // the fmt chunk is skipped, so the samples have no bit depth
    assert_eq!(Wav::parse(&bad), Err(WavError::BadBitDepth));
}
