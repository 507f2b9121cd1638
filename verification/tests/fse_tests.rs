use lib::fse::{huff_readable_check, huffman_decode, huffman_encode};


#[test]
fn test_huffman_simple() {
    let data = b"abacabadabacaba";
    let encoded = huffman_encode(data);
    let decoded = huffman_decode(&encoded).unwrap();
    assert_eq!(decoded, data, "roundtrip should match");
}

#[test]
fn test_huffman_all_same() {
    let data = vec![42u8; 1000];
    let encoded = huffman_encode(&data);
    let decoded = huffman_decode(&encoded).unwrap();
    assert_eq!(decoded, data);
}

#[test]
fn test_huffman_known_vector() {
    // "aaaaabbbccd" — valid Huffman: a=1, b=2, c=3, d=3
    let data = b"aaaaabbbccd";
    let encoded = huffman_encode(data);
    let decoded = huffman_decode(&encoded).unwrap();
    assert_eq!(decoded, data);
}

#[test]
fn test_huffman_sizes_debug_012() {
    // Test minimal [0,1,2] through actual encode/decode
    let data = [0u8, 1, 2];
    let encoded = huffman_encode(&data);
    let decoded = huffman_decode(&encoded).unwrap();
    assert_eq!(decoded, data, "minimal [0,1,2]");
}

#[test]
fn test_huffman_sizes() {
    let data2 = [0u8, 1];
    let enc2 = huffman_encode(&data2);
    let dec2 = huffman_decode(&enc2).unwrap();
    assert_eq!(dec2, data2, "size 2");

    let data3 = [0u8, 1, 2];
    let enc3 = huffman_encode(&data3);
    let dec3 = huffman_decode(&enc3).unwrap();
    assert_eq!(dec3, data3, "size 3");

    let data4 = [0u8, 1, 2, 3];
    let enc4 = huffman_encode(&data4);
    let dec4 = huffman_decode(&enc4).unwrap();
    assert_eq!(dec4, data4, "size 4");

    let data10: Vec<u8> = (0..10).collect();
    let enc10 = huffman_encode(&data10);
    let dec10 = huffman_decode(&enc10).unwrap();
    assert_eq!(dec10, data10, "size 10");
}

#[test]
fn test_huffman_skewed() {
    let mut data = vec![0u8; 500];
    data.push(1);
    data.push(2);
    let encoded = huffman_encode(&data);
    let decoded = huffman_decode(&encoded).unwrap();
    assert_eq!(decoded, data, "skewed data should roundtrip");
}

#[test]
fn test_huffman_repetitive() {
    let data: Vec<u8> = (0..10).flat_map(|i| vec![i; 100]).collect();
    let encoded = huffman_encode(&data);
    let decoded = huffman_decode(&encoded).unwrap();
    assert_eq!(decoded, data, "repetitive data should roundtrip");
}

#[test]
fn test_huffman_mtf_like() {
    let mut data = Vec::new();
    for _ in 0..200 {
        data.extend_from_slice(&[0, 0, 0, 1, 2, 3]);
    }
    let encoded = huffman_encode(&data);
    let decoded = huffman_decode(&encoded).unwrap();
    assert_eq!(decoded, data, "mtf-like data should roundtrip");
}

#[test]
fn test_huffman_alice29_like() {
    let mut data = Vec::new();
    for _ in 0..100 {
        data.extend_from_slice(&[0, 0, 0, 0, 0, 1, 2, 3, 10, 20, 30]);
    }
    let encoded = huffman_encode(&data);
    let decoded = huffman_decode(&encoded).unwrap();
    assert_eq!(decoded, data, "alice29-like data should roundtrip");
}

#[test]
fn test_huffman_random() {
    let data: Vec<u8> = (0u8..100).cycle().take(1000).collect();
    let encoded = huffman_encode(&data);
    let decoded = huffman_decode(&encoded).unwrap();
    assert_eq!(decoded, data, "random-like data should roundtrip");
}

#[test]
fn test_huffman_debug_012() {
    // Minimal [0,1,2] — all equal frequency
    let data = [0u8, 1, 2];
    let encoded = huffman_encode(&data);
    let decoded = huffman_decode(&encoded).unwrap();
    assert_eq!(decoded, data.as_slice(), "[0,1,2] should roundtrip");
}

#[test]
fn test_huffman_debug_sizes() {
    // [0,1] — basic two-symbol case
    let data = [0u8, 1];
    let encoded = huffman_encode(&data);
    let decoded = huffman_decode(&encoded).unwrap();
    assert_eq!(decoded, data.as_slice(), "size 2");
}

#[test]
fn huffman_empty_input() {
    let encoded = huffman_encode(&[]);
    assert_eq!(huffman_decode(&encoded).unwrap(), Vec::<u8>::new());
}

#[test]
fn huffman_decode_rejects_garbage() {
    assert_eq!(huffman_decode(&[]), Ok(Vec::new()));
    // a count byte of 0 stands for 256 codebook entries, which one byte lacks
    assert!(!huff_readable_check(&[0u8]));
    assert!(!huff_readable_check(&[3u8, 1, 2]));
}

#[test]
fn huffman_skewed_is_smaller() {
    let mut data = vec![7u8; 2000];
    data.extend_from_slice(&[1, 2, 3]);
    let encoded = huffman_encode(&data);
    assert!(encoded.len() < data.len());
}

#[test]
fn huffman_all_byte_values_roundtrip() {
    let data: Vec<u8> = (0u8..=255).chain(0u8..=255).chain(0u8..=40).collect();
    let encoded = huffman_encode(&data);
    assert_eq!(encoded[0], 0);
    assert_eq!(huffman_decode(&encoded).unwrap(), data);
}
