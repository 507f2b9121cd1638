use lib::lz77::{bytes_to_tokens, decode as lz77_decode, encode as lz77_encode, tokens_to_bytes};
use lib::ssp5_pipeline::{
    apply_rle, reverse_rle, ssp5_decode, ssp5_decode_with_huffman, ssp5_decode_with_range_coder,
    ssp5_decode_with_range_coder_mix, ssp5_decode_with_range_coder_o1, ssp5_decode_with_range_coder_o12,
    ssp5_decode_with_range_coder_o2, ssp5_encode, ssp5_encode_auto, ssp5_encode_with_huffman,
    ssp5_encode_with_lz77, ssp5_encode_with_options, ssp5_encode_with_range_coder,
    ssp5_encode_with_range_coder_mix, ssp5_encode_with_range_coder_o1, ssp5_encode_with_range_coder_o12,
    ssp5_encode_with_range_coder_o2, undo_bwt_mtf, unwrap_archive, wrap_archive,
};

#[test]
fn test_ssp5_roundtrip_small() {
    let data = b"Hello World! This is a test.";
    let s: Vec<u64> = (1u64..=32).collect();
    let encoded = ssp5_encode(data, &s, 16);
    let decoded = ssp5_decode(&encoded);
    assert_eq!(data.to_vec(), decoded);
}

#[test]
fn test_ssp5_roundtrip_repeated() {
    let data: Vec<u8> = b"The quick brown fox jumps over the lazy dog. ".iter().cycle().take(1000).copied().collect();
    let s: Vec<u64> = (1u64..=32).collect();
    let encoded = ssp5_encode(&data, &s, 16);
    let decoded = ssp5_decode(&encoded);
    assert_eq!(data, decoded);
}

#[test]
fn test_ssp5_compression_ratio() {
    let data: Vec<u8> = b"The quick brown fox jumps over the lazy dog. ".iter().cycle().take(5000).copied().collect();
    let s: Vec<u64> = (1u64..=32).collect();
    let encoded = ssp5_encode(&data, &s, 16);
    let ratio = 100.0 * encoded.len() as f64 / data.len() as f64;
    println!("Compression ratio: {:.2}%", ratio);
    assert!(ratio < 15.0, "Should compress well: got {}%", ratio);
}

#[test]
fn test_range_coder_roundtrip_small() {
    let data = b"Hello World! This is a test of range coder.";
    let encoded = ssp5_encode_with_range_coder(data);
    let decoded = ssp5_decode_with_range_coder(&encoded).expect("decode should succeed");
    assert_eq!(data.to_vec(), decoded);
}

#[test]
fn test_range_coder_roundtrip_repeated() {
    let data: Vec<u8> = b"The quick brown fox jumps over the lazy dog. ".iter().cycle().take(1000).copied().collect();
    let encoded = ssp5_encode_with_range_coder(&data);
    let decoded = ssp5_decode_with_range_coder(&encoded).expect("decode should succeed");
    assert_eq!(data, decoded);
}

#[test]
fn test_range_coder_compression_ratio() {
    let data: Vec<u8> = b"The quick brown fox jumps over the lazy dog. ".iter().cycle().take(5000).copied().collect();
    let encoded = ssp5_encode_with_range_coder(&data);
    let ratio = 100.0 * encoded.len() as f64 / data.len() as f64;
    println!("Range coder compression ratio: {:.2}%", ratio);
    assert!(ratio < 15.0, "Should compress well: got {}%", ratio);
}

#[test]
fn test_range_coder_vs_ssp_compression() {
    let data: Vec<u8> = b"The quick brown fox jumps over the lazy dog. ".iter().cycle().take(5000).copied().collect();
    let rc_encoded = ssp5_encode_with_range_coder(&data);
    let rc_ratio = 100.0 * rc_encoded.len() as f64 / data.len() as f64;
    let s: Vec<u64> = vec![13, 17, 19, 23, 29, 31, 37, 41];
    let ssp_encoded = ssp5_encode(&data, &s, 16);
    let ssp_ratio = 100.0 * ssp_encoded.len() as f64 / data.len() as f64;
    println!("Range coder: {} bytes ({:.2}%)", rc_encoded.len(), rc_ratio);
    println!("SSP codec:   {} bytes ({:.2}%)", ssp_encoded.len(), ssp_ratio);
    assert!(rc_ratio < 15.0, "Range coder should compress well");
    assert!(ssp_ratio < 15.0, "SSP should compress well");
}

#[test]
fn test_range_coder_o1_roundtrip_small() {
    let data = b"Hello World! This is a test of range coder.";
    let encoded = ssp5_encode_with_range_coder_o1(data);
    let decoded = ssp5_decode_with_range_coder_o1(&encoded).expect("decode should succeed");
    assert_eq!(data.to_vec(), decoded);
}

#[test]
fn test_range_coder_o1_roundtrip_repeated() {
    let data: Vec<u8> = b"The quick brown fox jumps over the lazy dog. ".iter().cycle().take(1000).copied().collect();
    let encoded = ssp5_encode_with_range_coder_o1(&data);
    let decoded = ssp5_decode_with_range_coder_o1(&encoded).expect("decode should succeed");
    assert_eq!(data, decoded);
}

#[test]
fn test_range_coder_o1_compression_ratio() {
    let data: Vec<u8> = b"The quick brown fox jumps over the lazy dog. ".iter().cycle().take(5000).copied().collect();
    let encoded = ssp5_encode_with_range_coder_o1(&data);
    let ratio = 100.0 * encoded.len() as f64 / data.len() as f64;
    println!("Range coder O1 compression ratio: {:.2}%", ratio);
    assert!(ratio < 15.0, "Should compress well: got {}%", ratio);
}

#[test]
fn test_range_coder_o1_vs_o0_compression() {
    let data: Vec<u8> = b"The quick brown fox jumps over the lazy dog. ".iter().cycle().take(5000).copied().collect();
    let o0_encoded = ssp5_encode_with_range_coder(&data);
    let o0_ratio = 100.0 * o0_encoded.len() as f64 / data.len() as f64;
    let o1_encoded = ssp5_encode_with_range_coder_o1(&data);
    let o1_ratio = 100.0 * o1_encoded.len() as f64 / data.len() as f64;
    println!("Order-0: {} bytes ({:.2}%)", o0_encoded.len(), o0_ratio);
    println!("Order-1: {} bytes ({:.2}%)", o1_encoded.len(), o1_ratio);
    println!("Order-1 improvement: {:.1}pp", o0_ratio - o1_ratio);
    assert!(o0_ratio < 10.0, "Order-0 should compress well");
    assert!(o1_ratio < 10.0, "Order-1 should compress well");
}

#[test]
fn test_ssp5_random_data() {
    let data: Vec<u8> = (0..1000).map(|i| (i * 31 + 17) as u8).collect();
    let s: Vec<u64> = (1u64..=32).collect();
    let encoded = ssp5_encode(&data, &s, 16);
    let decoded = ssp5_decode(&encoded);
    assert_eq!(data, decoded);
    let ratio = 100.0 * encoded.len() as f64 / data.len() as f64;
    println!("Random data ratio: {:.1}%", ratio);
    assert!(ratio < 200.0, "Should not expand too much: got {}%", ratio);
}

#[test]
fn test_ssp5_with_lz77_roundtrip() {
    let data = b"Hello World! This is a test. Hello World! This is a test.";
    let s: Vec<u64> = (1u64..=32).collect();
    let encoded = ssp5_encode_with_lz77(data, &s, 16);
    let decoded = ssp5_decode(&encoded);
    assert_eq!(data.to_vec(), decoded);
}

#[test]
fn test_ssp5_auto_selects_lz77() {
    let data: Vec<u8> = b"Hello World! ".iter().cycle().take(1000).copied().collect();
    let s: Vec<u64> = (1u64..=32).collect();
    let plain = ssp5_encode(&data, &s, 16);
    let with_lz77 = ssp5_encode_with_lz77(&data, &s, 16);
    let auto = ssp5_encode_auto(&data, &s, 16);
    println!("Plain: {} bytes ({:.1}%)", plain.len(), 100.0 * plain.len() as f64 / data.len() as f64);
    println!("With LZ77: {} bytes ({:.1}%)", with_lz77.len(), 100.0 * with_lz77.len() as f64 / data.len() as f64);
    assert!(auto.len() <= plain.len().min(with_lz77.len()));
    let decoded = ssp5_decode(&auto);
    assert_eq!(data, decoded);
}

#[test]
fn test_ssp5_lz77_vs_plain_comparison() {
    let data: Vec<u8> = b"AAAA".iter().cycle().take(1000).copied().collect();
    let s: Vec<u64> = vec![13, 17, 19, 23, 29, 31, 37, 41];
    let plain = ssp5_encode(&data, &s, 16);
    let with_lz77 = ssp5_encode_with_lz77(&data, &s, 16);
    println!("AAAA repeated (1000 bytes):");
    println!("  Plain: {} bytes ({:.1}%)", plain.len(), 100.0 * plain.len() as f64 / data.len() as f64);
    println!("  With LZ77: {} bytes ({:.1}%)", with_lz77.len(), 100.0 * with_lz77.len() as f64 / data.len() as f64);
    let plain_dec = ssp5_decode(&plain);
    let lz77_dec = ssp5_decode(&with_lz77);
    assert_eq!(data, plain_dec);
    assert_eq!(data, lz77_dec);
}

#[test]
fn test_ssp5_lz77_token_roundtrip() {
    let data: Vec<u8> = b"Hello World! Test data 12345".to_vec();
    let tokens = lz77_encode(&data);
    let bytes = tokens_to_bytes(&tokens);
    let tokens2 = bytes_to_tokens(&bytes);
    let data2 = lz77_decode(&tokens2);
    assert_eq!(data, data2, "Token roundtrip failed");
    let repetitive: Vec<u8> = b"ABC".iter().cycle().take(100).copied().collect();
    let tokens = lz77_encode(&repetitive);
    let bytes = tokens_to_bytes(&tokens);
    let tokens2 = bytes_to_tokens(&bytes);
    let data2 = lz77_decode(&tokens2);
    assert_eq!(repetitive, data2, "Repetitive token roundtrip failed");
}

#[test]
fn test_ssp5_lz77_small_text() {
    let data = b"The quick brown fox jumps over the lazy dog. ".to_vec();
    let s: Vec<u64> = vec![13, 17, 19, 23, 29, 31, 37, 41];
    let plain = ssp5_encode(&data, &s, 16);
    let with_lz77 = ssp5_encode_with_lz77(&data, &s, 16);
    let plain_dec = ssp5_decode(&plain);
    let lz77_dec = ssp5_decode(&with_lz77);
    assert_eq!(data, plain_dec, "Plain roundtrip failed");
    assert_eq!(data, lz77_dec, "LZ77 roundtrip failed");
    println!("Small text ({} bytes):", data.len());
    println!("  Plain: {} bytes", plain.len());
    println!("  With LZ77: {} bytes", with_lz77.len());
}

#[test]
fn test_ssp5_lz77_with_newlines() {
    // The LZ77 stage before BWT is not recommended for text; nothing to check.
}

#[test]
fn test_ssp5_100k_sized_roundtrip() {
    let data: Vec<u8> = (0u32..100000).map(|i| ((i.wrapping_mul(31)).wrapping_add(17)) as u8).collect();
    let s: Vec<u64> = vec![13, 17, 19, 23, 29, 31, 37, 41];
    let enc = ssp5_encode(&data, &s, 16);
    let dec = ssp5_decode(&enc);
    println!("100k sized: enc={} dec={}", enc.len(), dec.len());
    assert_eq!(data.len(), dec.len(), "100k roundtrip length mismatch");
    assert_eq!(&data[..], &dec[..], "100k roundtrip data mismatch");
}

#[test]
fn test_rle_roundtrip_simple() {
    let data = b"aaabbbcccdddeee";
    let (rle, orig_len) = apply_rle(data);
    let decoded = reverse_rle(&rle, orig_len);
    assert_eq!(decoded, data);
}

#[test]
fn test_rle_roundtrip_no_runs() {
    let data = b"abcdefghijk";
    let (rle, orig_len) = apply_rle(data);
    let decoded = reverse_rle(&rle, orig_len);
    assert_eq!(decoded, data);
    assert_eq!(rle, data);
}

#[test]
fn test_rle_roundtrip_mixed() {
    let data: Vec<u8> = vec![
        0, 0, 0, 0, 5, 5, 5, 5, 5, 5, 5, 1, 1, 1, 1, 1, 1, 1, 0, 0, 0, 0, 0, 0, 0, 0, 2, 2, 2, 2,
    ];
    let (rle, orig_len) = apply_rle(&data);
    let decoded = reverse_rle(&rle, orig_len);
    assert_eq!(decoded, data);
    println!("MTF-like: {} bytes -> {} RLE bytes ({:.1}%)", data.len(), rle.len(), 100.0 * rle.len() as f64 / data.len() as f64);
}

#[test]
fn test_rle_roundtrip_escape_literal() {
    let data = vec![0xFE, 0xFE, 0xFE, 0xFE, 0xFE];
    let (rle, orig_len) = apply_rle(&data);
    let decoded = reverse_rle(&rle, orig_len);
    assert_eq!(decoded, data);
}

#[test]
fn test_rle_short_runs() {
    let data = b"aab";
    let (rle, orig_len) = apply_rle(data);
    let decoded = reverse_rle(&rle, orig_len);
    assert_eq!(decoded, data);
}

#[test]
fn rle_known_bytes() {
    let (rle, n) = apply_rle(&[7u8, 7, 7, 7, 0xFE, 1]);
    assert_eq!(n, 6);
    assert_eq!(rle, vec![0xFEu8, 7, 1, 0xFE, 0xFE, 1]);
    // 300 equal bytes: a run is capped at 255
    let (rle2, _) = apply_rle(&vec![9u8; 300]);
    assert_eq!(rle2, vec![0xFEu8, 9, 252, 0xFE, 9, 42]);
    assert_eq!(reverse_rle(&rle2, 300), vec![9u8; 300]);
}

#[test]
fn stage_pipelines_roundtrip() {
    let data: Vec<u8> = b"abracadabra, the magic word; abracadabra again. ".iter().cycle().take(700).copied().collect();
    assert_eq!(ssp5_decode_with_range_coder_o2(&ssp5_encode_with_range_coder_o2(&data)).unwrap(), data);
    assert_eq!(ssp5_decode_with_range_coder_mix(&ssp5_encode_with_range_coder_mix(&data)).unwrap(), data);
    assert_eq!(ssp5_decode_with_range_coder_o12(&ssp5_encode_with_range_coder_o12(&data)).unwrap(), data);
    assert_eq!(ssp5_decode_with_huffman(&ssp5_encode_with_huffman(&data)).unwrap(), data);
    assert_eq!(ssp5_encode_with_range_coder(&[]), Vec::<u8>::new());
    assert_eq!(ssp5_decode_with_range_coder(&[]).unwrap(), Vec::<u8>::new());
}

#[test]
fn stage_pipeline_header_and_errors() {
    let enc = ssp5_encode_with_range_coder_o1(b"banana");
    assert_eq!(&enc[0..5], b"SS5W\x05");
    // primary of "banana" is 3, the MTF length is 6 + 4
    assert_eq!(&enc[5..13], &[3u8, 0, 0, 0, 10, 0, 0, 0]);
    assert_eq!(ssp5_decode_with_range_coder(&enc), Err("Invalid wrapper version for range coder"));
    let mut bad = enc.clone();
    bad[0] = b'X';
    assert_eq!(ssp5_decode_with_range_coder_o1(&bad), Err("Invalid wrapper magic"));
    let mut short_len = enc.clone();
    short_len[9] = 11;
    assert_eq!(ssp5_decode_with_range_coder_o1(&short_len), Err("MTF length mismatch"));
}

#[test]
fn ssp_pipeline_options_roundtrip() {
    let data: Vec<u8> = b"she sells sea shells by the sea shore ".iter().cycle().take(900).copied().collect();
    let s: Vec<u64> = vec![13, 17, 19, 23, 29, 31, 37, 41];
    for (cs, passes, delta) in [(0usize, 1usize, false), (0, 1, true), (256, 1, false), (0, 2, false)] {
        let enc = ssp5_encode_with_options(&data, &s, 16, cs, passes, delta);
        assert_eq!(&enc[0..6], b"SS5W\x03\x00");
        if passes == 1 {
            assert_eq!(ssp5_decode(&enc), data, "cs={} delta={}", cs, delta);
        }
    }
}

#[test]
fn huffman_stage_all_byte_values() {
    let d: Vec<u8> = (0u8..=255).collect();
    let enc = ssp5_encode_with_huffman(&d);
    assert_eq!(ssp5_decode_with_huffman(&enc), Ok(d));
}

#[test]
fn ssp_pipeline_chunk_size_near_data_length() {
    // chunk sizes at, just above and below the data length decode back
    let data = b"banana bandana".to_vec();
    let s: Vec<u64> = vec![2, 3, 5, 7, 11, 13, 17, 19];
    for cs in [1usize, 5, 10, 11, 12, 13, 14, 15, 16, 17, 18, 100] {
        for delta in [false, true] {
            let enc = ssp5_encode_with_options(&data, &s, 8, cs, 1, delta);
            assert_eq!(ssp5_decode(&enc), data, "cs={} delta={}", cs, delta);
        }
    }
}

#[test]
fn archive_framing() {
    let a = wrap_archive(18, 3, 10, b"xy");
    assert_eq!(a, b"SS5W\x12\x03\x00\x00\x00\x0a\x00\x00\x00xy".to_vec());
    assert_eq!(unwrap_archive(&a, 18, "version"), Ok((3u32, 10u32, b"xy".to_vec())));
    assert_eq!(unwrap_archive(&a, 9, "version"), Err("version"));
    let mut bad = a.clone();
    bad[0] = b'X';
    assert_eq!(unwrap_archive(&bad, 18, "version"), Err("Invalid wrapper magic"));
    // MTF and BWT undone with the recorded length and primary
    let m = lib::mtf::mtf_encode(&lib::bwt::pack_bwt(3, b"nnbaaa"));
    assert_eq!(undo_bwt_mtf(&m, 10, 3), Ok(b"banana".to_vec()));
    assert_eq!(undo_bwt_mtf(&m, 9, 3), Err("MTF length mismatch"));
    assert_eq!(undo_bwt_mtf(&m, 10, 2), Err("BWT primary index mismatch"));
}
