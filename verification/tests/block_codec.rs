use ntk_compression::bwt::bwt_encode;
use ntk_compression::bwt::bwt_decode;
use ntk_compression::mtf::mtf_encode;
use ntk_compression::mtf::mtf_decode;
use ntk_compression::rle::rle_encode;
use ntk_compression::rle::rle_decode;
use ntk_compression::huffman::build_frequency_table;
use ntk_compression::huffman::build_huffman_tree;
use ntk_compression::huffman::generate_huffman_codes;
use ntk_compression::huffman::encode_with_huffman_codes;
use ntk_compression::huffman::decode_huffman;
use ntk_compression::block::compress;
use ntk_compression::block::decompress;
use ntk_compression::block::archive_extension;
use ntk_compression::error::CodecError;

#[test]
fn empty_input_yields_zero_block_archive() {
    let archive = compress(b"", b"txt").unwrap();
    // header only: one length byte plus the extension itself
    assert_eq!(archive.len(), 4);
    assert_eq!(archive[0], 3);
    let back = decompress(&archive).unwrap();
    assert_eq!(back, Vec::<u8>::new());
}

#[test]
fn single_byte_pipeline() {
    let (col, idx) = bwt_encode(b"A").unwrap();
    assert_eq!(col, vec![b'A']);
    assert_eq!(idx, 0);
    let mtf = mtf_encode(b"A");
    assert_eq!(mtf, vec![65]);
    let rle = rle_encode(&mtf).unwrap();
    assert_eq!(rle, vec![1, 65]);
    let archive = compress(b"A", b"").unwrap();
    assert_eq!(decompress(&archive).unwrap(), b"A".to_vec());
}

#[test]
fn single_symbol_table_gets_code_zero() {
    let ft = build_frequency_table(b"AAAA");
    assert_eq!(ft.entries, vec![(b'A', 4)]);
    let tree = build_huffman_tree(&ft).unwrap();
    let codes = generate_huffman_codes(&tree);
    assert_eq!(codes.codes[b'A' as usize], vec![0]);
    for b in 0..256usize {
        if b != b'A' as usize {
            assert!(codes.codes[b].is_empty());
        }
    }
}

#[test]
fn run_of_ten_collapses() {
    let data = [65u8; 10];
    let rle = rle_encode(&data).unwrap();
    assert_eq!(rle, vec![10, 65]);
    let archive = compress(&data, b"bin").unwrap();
    assert_eq!(decompress(&archive).unwrap(), data.to_vec());
}

#[test]
fn banana_round_trip() {
    let archive = compress(b"banana", b"txt").unwrap();
    let back = decompress(&archive).unwrap();
    assert_eq!(back, b"banana".to_vec());
}

#[test]
fn banana_bwt_by_hand() {
    // the sorted rotations of "banana" end with the column "nnbaaa",
    // and the original word sits at sorted position 3
    let (col, idx) = bwt_encode(b"banana").unwrap();
    assert_eq!(col, b"nnbaaa".to_vec());
    assert_eq!(idx, 3);
    assert_eq!(bwt_decode(&col, idx), b"banana".to_vec());
}

#[test]
fn long_run_splits_at_255() {
    let v = 7u8;
    let data = [v; 300];
    let rle = rle_encode(&data).unwrap();
    assert_eq!(rle, vec![255, v, 45, v]);
    let back = rle_decode(&rle);
    assert_eq!(back, data.to_vec());
}

#[test]
fn bwt_involution_cases() {
    for input in [&b"a"[..], b"aaaa", b"banana", b"abracadabra", b"mississippi"] {
        let (col, idx) = bwt_encode(input).unwrap();
        assert_eq!(bwt_decode(&col, idx), input.to_vec());
    }
}

#[test]
fn mtf_involution_cases() {
    for input in [&b""[..], b"a", b"banana", b"\x00\xff\x00\xff"] {
        let enc = mtf_encode(input);
        assert_eq!(mtf_decode(&enc), input.to_vec());
    }
}

#[test]
fn mtf_moves_to_front() {
    // second occurrence of a byte right after the first costs index 0
    let enc = mtf_encode(b"aa");
    assert_eq!(enc, vec![97, 0]);
}

#[test]
fn rle_involution_cases() {
    for input in [&b"a"[..], b"aabbbc", b"banana", &[9u8; 513]] {
        let enc = rle_encode(input).unwrap();
        assert_eq!(rle_decode(&enc), input.to_vec());
    }
}

#[test]
fn huffman_round_trip_through_table() {
    let data = rle_encode(&mtf_encode(b"abracadabra")).unwrap();
    let ft = build_frequency_table(&data);
    let tree = build_huffman_tree(&ft).unwrap();
    let codes = generate_huffman_codes(&tree);
    let packed = encode_with_huffman_codes(&data, &codes).unwrap();
    let back = decode_huffman(&packed, &codes).unwrap();
    assert_eq!(back, data);
}

#[test]
fn huffman_codes_are_prefix_free() {
    let data = b"the quick brown fox jumps over the lazy dog";
    let ft = build_frequency_table(data);
    let tree = build_huffman_tree(&ft).unwrap();
    let codes = generate_huffman_codes(&tree);
    let present: Vec<&Vec<u8>> = codes.codes.iter().filter(|c| !c.is_empty()).collect();
    assert!(present.len() > 1);
    for a in &present {
        for b in &present {
            if a != b {
                assert!(!(a.len() <= b.len() && &b[..a.len()] == &a[..]));
            }
        }
    }
}

#[test]
fn multi_block_round_trip() {
    // more than one 16384-byte block
    let mut data = Vec::new();
    for i in 0..40000usize {
        data.push((i % 251) as u8);
        if i % 7 == 0 {
            data.push(b'x');
        }
    }
    let archive = compress(&data, b"dat").unwrap();
    assert_eq!(decompress(&archive).unwrap(), data);
}

#[test]
fn archive_stores_extension() {
    let archive = compress(b"hello", b"txt").unwrap();
    assert_eq!(archive_extension(&archive).unwrap(), b"txt".to_vec());
}

#[test]
fn bwt_empty_input_is_rejected() {
    assert_eq!(bwt_encode(b"").unwrap_err(), CodecError::EmptyInput);
}

#[test]
fn rle_empty_input_is_rejected() {
    assert_eq!(rle_encode(b"").unwrap_err(), CodecError::EmptyInput);
}

#[test]
fn truncated_archives_are_rejected() {
    assert_eq!(decompress(b"").unwrap_err(), CodecError::InvalidArchive);
    // claims a 5-byte extension but carries none
    assert_eq!(decompress(&[5u8]).unwrap_err(), CodecError::InvalidArchive);
    // a valid header followed by a truncated block record
    assert_eq!(
        decompress(&[0u8, 1, 2, 3]).unwrap_err(),
        CodecError::InvalidArchive
    );
    // chop a real archive mid-block
    let archive = compress(b"banana", b"").unwrap();
    assert_eq!(
        decompress(&archive[..archive.len() - 1]).unwrap_err(),
        CodecError::InvalidArchive
    );
}

#[test]
fn empty_frequency_table_is_corrupt() {
    // header with no extension, then a block record whose table is empty
    let mut bytes = vec![0u8];
    bytes.extend_from_slice(&[0u8; 8]); // stored index
    bytes.extend_from_slice(&[0u8; 8]); // zero table entries
    bytes.extend_from_slice(&[0u8; 8]); // payload length
    assert_eq!(
        decompress(&bytes).unwrap_err(),
        CodecError::CorruptHuffmanTree
    );
}

#[test]
fn encoding_missing_symbol_fails() {
    let ft = build_frequency_table(b"aaaa");
    let tree = build_huffman_tree(&ft).unwrap();
    let codes = generate_huffman_codes(&tree);
    assert_eq!(
        encode_with_huffman_codes(b"ab", &codes).unwrap_err(),
        CodecError::SymbolNotFound
    );
}

#[test]
fn empty_table_has_no_tree() {
    let ft = build_frequency_table(b"");
    assert!(build_huffman_tree(&ft).is_none());
}

#[test]
fn mixed_content_round_trip() {
    let mut data = Vec::new();
    for i in 0..2000usize {
        data.push((i * i % 256) as u8);
    }
    data.extend_from_slice(b"Hello, World!");
    let archive = compress(&data, b"txt").unwrap();
    assert_eq!(decompress(&archive).unwrap(), data);
}
