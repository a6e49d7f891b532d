use ntk_compression::paq::Compressor;
use ntk_compression::paq::Decompressor;
use ntk_compression::model::ContextModel;
use ntk_compression::arith::ArithmeticDecoder;
use ntk_compression::error::CodecError;
use ntk_compression::lock::operation_xor;

#[test]
fn ten_a_bytes_shrink() {
    let data = [b'a'; 10];
    let compressed = Compressor::new().compress(&data);
    // strictly smaller than the raw bytes plus the 8-byte length header
    assert!(compressed.len() < data.len() + 8);
    let back = Decompressor::new().decompress(&compressed).unwrap();
    assert_eq!(back, data.to_vec());
}

#[test]
fn arith_round_trip_cases() {
    for input in [
        &b""[..],
        b"a",
        b"banana",
        b"Hello, World! Hello, World! Hello, World!",
        &[0u8, 255, 0, 255, 128, 7, 7, 7],
    ] {
        let compressed = Compressor::new().compress(input);
        let back = Decompressor::new().decompress(&compressed).unwrap();
        assert_eq!(back, input.to_vec(), "round trip failed for {:?}", input);
    }
}

#[test]
fn arith_encoding_is_deterministic() {
    let data = b"the same bytes, twice, freshly";
    let first = Compressor::new().compress(data);
    let second = Compressor::new().compress(data);
    assert_eq!(first, second);
}

#[test]
fn header_carries_original_length() {
    let data = b"some structured input text";
    let compressed = Compressor::new().compress(data);
    let decoder = ArithmeticDecoder::new(&compressed).unwrap();
    assert_eq!(decoder.original_size(), data.len() as u64);
    // big-endian length occupies the first eight bytes
    assert_eq!(&compressed[..8], &(data.len() as u64).to_be_bytes());
}

#[test]
fn short_streams_are_rejected() {
    assert_eq!(
        Decompressor::new().decompress(b"").unwrap_err(),
        CodecError::InvalidArchive
    );
    assert_eq!(
        Decompressor::new().decompress(&[1, 2, 3]).unwrap_err(),
        CodecError::InvalidArchive
    );
}

#[test]
fn absurd_header_length_is_rejected() {
    // a header naming far more bytes than the codec accepts
    let bytes = [0xFFu8; 16];
    assert_eq!(
        Decompressor::new().decompress(&bytes).unwrap_err(),
        CodecError::InvalidArchive
    );
}

#[test]
fn model_prediction_starts_uniform() {
    let model = ContextModel::new();
    let (counts, total) = model.predict(b"abc");
    assert_eq!(counts.len(), 256);
    assert!(counts.iter().all(|&c| c == 1));
    assert_eq!(total, 256);
}

#[test]
fn model_update_raises_one_count() {
    let mut model = ContextModel::new();
    model.update(b"ab", 7);
    let (counts, total) = model.predict(b"ab");
    assert_eq!(counts[7], 2);
    assert_eq!(total, 257);
    // a different context is untouched
    let (other, other_total) = model.predict(b"xy");
    assert_eq!(other[7], 1);
    assert_eq!(other_total, 256);
}

#[test]
fn longer_text_round_trip() {
    let mut data = Vec::new();
    for _ in 0..300 {
        data.extend_from_slice(b"compression by adaptive context modelling ");
    }
    let compressed = Compressor::new().compress(&data);
    assert!(compressed.len() < data.len());
    let back = Decompressor::new().decompress(&compressed).unwrap();
    assert_eq!(back, data);
}

#[test]
fn xor_lock_round_trip() {
    let data = b"archive bytes to be locked";
    let key = b"pass";
    let locked = operation_xor(data, key);
    assert_ne!(locked, data.to_vec());
    let unlocked = operation_xor(&locked, key);
    assert_eq!(unlocked, data.to_vec());
}

#[test]
fn xor_applies_key_cyclically() {
    let locked = operation_xor(&[1, 2, 3, 4, 5], &[0x10, 0x20]);
    assert_eq!(locked, vec![0x11, 0x22, 0x13, 0x24, 0x15]);
}
