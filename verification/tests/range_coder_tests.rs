use lib::range_coder::{
    range_decode_bytes, range_decode_bytes_order1, range_decode_bytes_order12_mix, range_decode_bytes_order2,
    range_decode_bytes_order_mix, range_encode_bytes, range_encode_bytes_order1, range_encode_bytes_order12_mix,
    range_encode_bytes_order2, range_encode_bytes_order_mix, RangeDecoder, RangeEncoder,
};
use lib::range_coder::{o3_hash, o4_hash, o5_hash, o6_hash, o7_hash, CONTEXT_SLOTS};


fn roundtrip(syms: &[usize], cum: &[u64], total: u64) -> Vec<usize> {
    let mut enc = RangeEncoder::new();
    for &sym in syms {
        enc.encode(cum[sym], cum[sym + 1] - cum[sym], total);
    }
    let data = enc.flush();

    let mut dec = RangeDecoder::new(&data);
    let mut out = Vec::with_capacity(syms.len());
    for _ in 0..syms.len() {
        let f = dec.get_freq(total);
        let mut sym = 0usize;
        for i in 0..cum.len() - 1 {
            if cum[i] <= f && f < cum[i + 1] {
                sym = i;
                break;
            }
        }
        out.push(sym);
        dec.decode(cum[sym], cum[sym + 1] - cum[sym], total);
    }
    out
}

#[test]
fn test_single() {
    let cum = vec![0, 10];
    let syms = vec![0, 0, 0, 0, 0];
    assert_eq!(roundtrip(&syms, &cum, 10), syms);
}

#[test]
fn test_uniform_10() {
    let cum: Vec<u64> = (0..=10).collect();
    let syms: Vec<usize> = (0..10).collect();
    assert_eq!(roundtrip(&syms, &cum, 10), syms);
}

#[test]
fn test_nonuniform() {
    let cum = vec![0, 3, 4, 6];
    let syms = vec![0, 0, 1, 2, 0];
    assert_eq!(roundtrip(&syms, &cum, 6), syms);
}

#[test]
fn test_binary() {
    let cum = vec![0, 500, 1000];
    let syms = vec![0, 1, 0, 0, 1, 1, 0, 1, 1, 1];
    assert_eq!(roundtrip(&syms, &cum, 1000), syms);
}

#[test]
fn test_large() {
    let cum = vec![0, 1, 2];
    let syms: Vec<usize> = (0..30).map(|i| i % 2).collect();
    assert_eq!(roundtrip(&syms, &cum, 2), syms);
}

#[test]
fn test_many_symbols() {
    let cum: Vec<u64> = (0..=8).collect();
    let syms: Vec<usize> = (0..8).collect();
    assert_eq!(roundtrip(&syms, &cum, 8), syms);
}

#[test]
fn test_highly_skewed() {
    let cum = vec![0, 990, 1000];
    let syms = vec![0, 0, 0, 0, 0, 0, 0, 0, 0, 1, 0, 0, 0, 0, 0];
    assert_eq!(roundtrip(&syms, &cum, 1000), syms);
}

#[test]
fn test_all_same_symbol() {
    let cum = vec![0, 1, 2, 3, 4, 5];
    let syms = vec![2, 2, 2, 2, 2, 2, 2, 2, 2, 2];
    assert_eq!(roundtrip(&syms, &cum, 5), syms);
}

#[test]
fn test_range_encode_bytes_empty() {
    let encoded = range_encode_bytes(&[]);
    // Empty data still produces flush bits; count prefix is 0
    let decoded = range_decode_bytes(&encoded).expect("range decode should succeed");
    assert_eq!(decoded, Vec::<u8>::new());
}

#[test]
fn test_range_encode_bytes_simple() {
    let data = b"hello world";
    let encoded = range_encode_bytes(data);
    let decoded = range_decode_bytes(&encoded).expect("range decode should succeed");
    assert_eq!(decoded, data);
}

#[test]
fn test_range_encode_bytes_all_bytes() {
    let data: Vec<u8> = (0u8..=255).collect();
    let encoded = range_encode_bytes(&data);
    let decoded = range_decode_bytes(&encoded).expect("range decode should succeed");
    assert_eq!(decoded, data);
}

#[test]
fn test_range_encode_bytes_skewed() {
    // Skewed data: mostly zeros, a few non-zero
    let mut data = vec![0u8; 100];
    data.push(1);
    data.push(2);
    let encoded = range_encode_bytes(&data);
    let decoded = range_decode_bytes(&encoded).expect("range decode should succeed");
    assert_eq!(decoded, data);
}

#[test]
fn test_range_encode_bytes_roundtrip() {
    let data = b"The quick brown fox jumps over the lazy dog. The quick brown fox jumps over the lazy dog. The quick brown fox jumps over the lazy dog.";
    let encoded = range_encode_bytes(data);
    let decoded = range_decode_bytes(&encoded).expect("range decode should succeed");
    assert_eq!(decoded, data);
}

// Order-1 context model tests

#[test]
fn test_order1_roundtrip_empty() {
    let encoded = range_encode_bytes_order1(&[]);
    let decoded = range_decode_bytes_order1(&encoded).expect("range decode should succeed");
    assert_eq!(decoded, Vec::<u8>::new());
}

#[test]
fn test_order1_roundtrip_simple() {
    let data = b"hello world";
    let encoded = range_encode_bytes_order1(data);
    let decoded = range_decode_bytes_order1(&encoded).expect("range decode should succeed");
    assert_eq!(decoded, data);
}

#[test]
fn test_order1_roundtrip_repetitive() {
    // Order-1 should excel at repetitive patterns
    let data: Vec<u8> = b"The quick brown fox jumps over the lazy dog. ".iter()
        .cycle().take(1000).copied().collect();
    let encoded = range_encode_bytes_order1(&data);
    let decoded = range_decode_bytes_order1(&encoded).expect("range decode should succeed");
    assert_eq!(decoded, data);
}

#[test]
fn test_order1_vs_order0() {
    // Compare order-1 vs order-0 compression
    let data: Vec<u8> = b"The quick brown fox jumps over the lazy dog. ".iter()
        .cycle().take(1000).copied().collect();
    
    let enc_order0 = range_encode_bytes(&data);
    let enc_order1 = range_encode_bytes_order1(&data);
    
    println!("Order-0: {} bytes", enc_order0.len());
    println!("Order-1: {} bytes", enc_order1.len());
    println!("Improvement: {}%", 100.0 * (1.0 - enc_order1.len() as f64 / enc_order0.len() as f64));
    
    // Order-1 should be smaller
    assert!(enc_order1.len() < enc_order0.len(), "Order-1 should compress better");
}

// Order-2 context model tests

#[test]
fn test_order2_roundtrip_empty() {
    let encoded = range_encode_bytes_order2(&[]);
    let decoded = range_decode_bytes_order2(&encoded).expect("range decode should succeed");
    assert_eq!(decoded, Vec::<u8>::new());
}

#[test]
fn test_order2_roundtrip_simple() {
    let data = b"hello world";
    let encoded = range_encode_bytes_order2(data);
    let decoded = range_decode_bytes_order2(&encoded).expect("range decode should succeed");
    assert_eq!(decoded, data);
}

#[test]
fn test_order2_roundtrip_repetitive() {
    let data: Vec<u8> = b"The quick brown fox jumps over the lazy dog. ".iter()
        .cycle().take(1000).copied().collect();
    let encoded = range_encode_bytes_order2(&data);
    let decoded = range_decode_bytes_order2(&encoded).expect("range decode should succeed");
    assert_eq!(decoded, data);
}

#[test]
fn test_order2_vs_order1() {
    let data: Vec<u8> = b"The quick brown fox jumps over the lazy dog. ".iter()
        .cycle().take(1000).copied().collect();
    
    let enc_order1 = range_encode_bytes_order1(&data);
    let enc_order2 = range_encode_bytes_order2(&data);
    
    println!("Order-1: {} bytes", enc_order1.len());
    println!("Order-2: {} bytes", enc_order2.len());
    println!("Order-2 vs O1: {:.1}%", 100.0 * (1.0 - enc_order2.len() as f64 / enc_order1.len() as f64));
    
    // Order-2 may or may not be better depending on data
}

// Order-mix (O0+O1) tests

#[test]
fn test_order_mix_roundtrip_simple() {
    let data = b"hello world";
    let encoded = range_encode_bytes_order_mix(data);
    let decoded = range_decode_bytes_order_mix(&encoded).expect("range decode should succeed");
    assert_eq!(decoded, data);
}

#[test]
fn test_order_mix_roundtrip_repetitive() {
    let data: Vec<u8> = b"The quick brown fox jumps over the lazy dog. ".iter()
        .cycle().take(1000).copied().collect();
    let encoded = range_encode_bytes_order_mix(&data);
    let decoded = range_decode_bytes_order_mix(&encoded).expect("range decode should succeed");
    assert_eq!(decoded, data);
}

#[test]
fn test_order_mix_vs_order1() {
    let data: Vec<u8> = b"The quick brown fox jumps over the lazy dog. ".iter()
        .cycle().take(1000).copied().collect();
    
    let enc_order1 = range_encode_bytes_order1(&data);
    let enc_mix = range_encode_bytes_order_mix(&data);
    
    println!("Order-1: {} bytes", enc_order1.len());
    println!("Order-mix: {} bytes", enc_mix.len());
    println!("Mix vs O1: {:.1}%", 100.0 * (1.0 - enc_mix.len() as f64 / enc_order1.len() as f64));
}

#[test]
fn test_order_mix_vs_order0() {
    let data: Vec<u8> = b"The quick brown fox jumps over the lazy dog. ".iter()
        .cycle().take(1000).copied().collect();
    
    let enc_order0 = range_encode_bytes(&data);
    let enc_mix = range_encode_bytes_order_mix(&data);
    
    println!("Order-0: {} bytes", enc_order0.len());
    println!("Order-mix: {} bytes", enc_mix.len());
    println!("Mix vs O0: {:.1}%", 100.0 * (1.0 - enc_mix.len() as f64 / enc_order0.len() as f64));
}

// Order-1+2 mix tests

#[test]
fn test_order12_mix_roundtrip_simple() {
    let data = b"hello world";
    let encoded = range_encode_bytes_order12_mix(data);
    let decoded = range_decode_bytes_order12_mix(&encoded).expect("range decode should succeed");
    assert_eq!(decoded, data);
}

#[test]
fn test_order12_mix_roundtrip_repetitive() {
    let data: Vec<u8> = b"The quick brown fox jumps over the lazy dog. ".iter()
        .cycle().take(1000).copied().collect();
    let encoded = range_encode_bytes_order12_mix(&data);
    let decoded = range_decode_bytes_order12_mix(&encoded).expect("range decode should succeed");
    assert_eq!(decoded, data);
}

#[test]
fn test_order12_mix_vs_order2() {
    let data: Vec<u8> = b"The quick brown fox jumps over the lazy dog. ".iter()
        .cycle().take(1000).copied().collect();
    
    let enc_o2 = range_encode_bytes_order2(&data);
    let enc_o12 = range_encode_bytes_order12_mix(&data);
    
    println!("Order-2: {} bytes", enc_o2.len());
    println!("Order-1+2 mix: {} bytes", enc_o12.len());
    println!("O1+2 vs O2: {:.1}%", 100.0 * (1.0 - enc_o12.len() as f64 / enc_o2.len() as f64));
}

#[test]
fn test_order12_mix_vs_order_mix() {
    let data: Vec<u8> = b"The quick brown fox jumps over the lazy dog. ".iter()
        .cycle().take(1000).copied().collect();
    
    let enc_o01 = range_encode_bytes_order_mix(&data);
    let enc_o12 = range_encode_bytes_order12_mix(&data);
    
    println!("Order-0+1 mix: {} bytes", enc_o01.len());
    println!("Order-1+2 mix: {} bytes", enc_o12.len());
}

#[test]
fn range_decode_bytes_rejects_truncated() {
    assert_eq!(range_decode_bytes(&[]), Ok(Vec::new()));
    assert!(range_decode_bytes_order1(&[0x80u8]).is_err());
}

#[test]
fn range_order_headers_differ() {
    let data = b"abcabcabc";
    let o1 = range_encode_bytes_order1(data);
    let o2 = range_encode_bytes_order2(data);
    assert_ne!(o1, o2);
    assert!(range_decode_bytes_order2(&o1).is_err() || range_decode_bytes_order2(&o1).unwrap() != data.to_vec());
}

#[test]
fn context_hashes_exact_slots() {
    assert_eq!(o3_hash(1, 2, 3), 48434);
    assert_eq!(o4_hash(1, 2, 3, 4), 22834);
    assert_eq!(o5_hash(1, 2, 3, 4, 5), 4355);
    assert_eq!(o6_hash(1, 2, 3, 4, 5, 6), 11982);
    assert_eq!(o7_hash(1, 2, 3, 4, 5, 6, 7), 12372);
    assert_eq!(o3_hash(0, 0, 0), 0);
}

#[test]
fn context_hashes_stay_in_table() {
    for a in [0u8, 1, 7, 128, 255] {
        for b in [0u8, 3, 200, 255] {
            assert!(o3_hash(a, b, a) < CONTEXT_SLOTS);
            assert!(o7_hash(a, b, a, b, a, b, a) < CONTEXT_SLOTS);
        }
    }
}

#[test]
fn range_decode_truncated_payload() {
    // a count of five symbols with no coded byte after it
    assert_eq!(range_decode_bytes(&[0x05u8]), Err("Range decode: truncated data"));
    // a zero count needs no payload
    assert_eq!(range_decode_bytes(&[0x00u8]), Ok(Vec::new()));
}
