use lib::ssp_codec::{decode, emit_blocks, encode, EmitParams, SSP5_MAGIC, SSP5_VERSION};
use std::time::{SystemTime, UNIX_EPOCH};

fn is_prime(n: u64) -> bool {
    if n < 2 {
        return false;
    }
    if n % 2 == 0 {
        return n == 2;
    }
    let mut i = 3;
    while i * i <= n {
        if n % i == 0 {
            return false;
        }
        i += 2;
    }
    true
}

fn test_s() -> Vec<u64> {
    let mut primes = Vec::new();
    let mut n = 2u64;
    while primes.len() < 32 {
        if is_prime(n) {
            primes.push(n);
        }
        n += 1;
    }
    primes
}

fn rand_u8() -> u8 {
    let nanos = SystemTime::now().duration_since(UNIX_EPOCH).unwrap().subsec_nanos();
    ((nanos as u64 * 1103515245 + 12345) >> 16) as u8
}

#[test]
fn test_encode_decode_roundtrip() {
    let s = test_s();
    let data = b"Hello, SSP4 world! This is a test of the SSP codec.";
    for bb in [8, 16, 32] {
        let enc = encode(data, &s, bb, false);
        let dec = decode(&enc, &s).expect("decode should succeed");
        assert_eq!(&dec[..], data, "decode should match original (bb={})", bb);
    }
}

#[test]
fn test_encode_decode_simple() {
    let s = test_s();
    let data = [12u8];
    let enc = encode(&data, &s, 16, false);
    let dec = decode(&enc, &s).expect("decode should succeed");
    assert_eq!(dec.len(), 1, "decoded length should be 1");
    assert_eq!(dec[0], 12, "decoded byte should be 12");
}

#[test]
fn test_encode_decode_with_delta() {
    let s = test_s();
    let data: Vec<u8> = (0u8..64).map(|x| x.wrapping_mul(3)).collect();
    for bb in [8, 16] {
        let enc = encode(&data, &s, bb, true);
        let dec = decode(&enc, &s).expect("decode should succeed");
        assert_eq!(&dec[..], &data[..], "delta decode should match (bb={})", bb);
    }
}

#[test]
fn test_raw_blocks_minimal() {
    let s = test_s();
    let data = b"He";
    let enc = encode(data, &s, 8, false);
    let dec = decode(&enc, &s).expect("decode should succeed");
    assert_eq!(&dec[..], data, "minimal decode should match");
}

#[test]
fn test_encode_decode_empty() {
    let s = test_s();
    let data = b"";
    for bb in [8, 16, 32] {
        let enc = encode(data, &s, bb, false);
        let dec = decode(&enc, &s).expect("decode empty should succeed");
        assert_eq!(&dec[..], data);
    }
}

#[test]
fn test_encode_decode_random() {
    let s = test_s();
    let data: Vec<u8> = (0..1000).map(|_| rand_u8()).collect();
    for bb in [8, 16] {
        let enc = encode(&data, &s, bb, false);
        let dec = decode(&enc, &s).expect("decode should succeed");
        assert_eq!(&dec[..], &data[..], "random data decode (bb={})", bb);
    }
}

#[test]
fn test_range_coder_roundtrip() {
    let s = test_s();
    let data: Vec<u8> = b"The quick brown fox jumps over the lazy dog. ".repeat(8);
    assert!(data.len() >= 256);
    let enc = encode(&data, &s, 8, false);
    let dec = decode(&enc, &s).expect("decode should succeed");
    assert_eq!(&dec[..], &data[..], "range coder roundtrip");
}

#[test]
fn ssp_empty_archive_bytes() {
    let s = test_s();
    let enc = encode(b"", &s, 16, false);
    assert_eq!(enc, vec![0x53u8, 0x53, 0x50, 0x35, 3, 0, 16, 1, 1, 0, 0]);
    assert_eq!(&enc[0..4], &SSP5_MAGIC[..]);
    assert_eq!(enc[4], SSP5_VERSION);
}

#[test]
fn ssp_header_flags() {
    let s = test_s();
    let enc = encode(b"abc", &s, 32, true);
    // delta and odd-bit separation
    assert_eq!(enc[5] & 1, 1);
    assert_eq!(enc[5] & 8, 8);
    assert_eq!(enc[6], 32);
    // m = 1, r = 1, length 3, one block
    assert_eq!(&enc[7..11], &[1u8, 1, 3, 1]);
}

#[test]
fn ssp_decode_errors() {
    let s = test_s();
    assert_eq!(decode(&[1, 2, 3], &s), Err("Archive too short"));
    assert_eq!(decode(b"XXXX\x03\x00\x08\x01\x01\x00\x00", &s), Err("Bad magic (expected SSP5)"));
    assert_eq!(decode(b"SSP5\x02\x00\x08\x01\x01\x00\x00", &s), Err("Unsupported SSP5 version"));
    assert_eq!(decode(b"SSP5\x03\x00\x07\x01\x01\x00\x00", &s), Err("Invalid block_bits"));
    assert_eq!(decode(b"SSP5\x03\x00\x48\x01\x01\x00\x00", &s), Err("Invalid block_bits"));
    assert!(decode(b"SSP5\x03\x00\x08\x81", &s).is_err());
}

#[test]
fn ssp_zero_runs_roundtrip() {
    let s = test_s();
    let mut data = vec![0u8; 40];
    data.extend_from_slice(b"xyz");
    data.extend_from_slice(&[7u8; 20]);
    for bb in [8, 16] {
        for delta in [false, true] {
            let enc = encode(&data, &s, bb, delta);
            // run-length flag is set
            assert_eq!(enc[5] & 2, 2);
            assert_eq!(decode(&enc, &s).unwrap(), data);
        }
    }
}

#[test]
fn ssp_emit_blocks_delta() {
    // RAW 5, ZERO, RAW 3 under delta with one-byte blocks: 5, 5, 8
    let p = EmitParams { bytes: 1, mask: 0xFF, delta: true, odd_sep: false, mfs_val: 0 };
    let out = emit_blocks(&vec![(1u8, 5u64, 0u64), (2, 0, 0), (1, 3, 0)], &[2, 3], &p);
    assert_eq!(out, vec![5u8, 5, 8]);
    // ZERO-RLE of three blocks without delta, two-byte blocks
    let p2 = EmitParams { bytes: 2, mask: 0xFFFF, delta: false, odd_sep: false, mfs_val: 0 };
    let out2 = emit_blocks(&vec![(1u8, 0x0102u64, 0u64), (3, 0, 3)], &[2, 3], &p2);
    assert_eq!(out2, vec![1u8, 2, 0, 0, 0, 0, 0, 0]);
    // SYM packed 3 = super-symbol 1 (2 + 2) plus odd bit
    let out3 = emit_blocks(&vec![(0u8, 3u64, 0u64)], &[2, 3], &p);
    assert_eq!(out3, vec![5u8]);
}

#[test]
fn ssp_bitpacked_roundtrip_block_sizes() {
    // short inputs keep a bit-packed body; every block size below 32 bits
    // and both delta settings decode back
    let s = test_s();
    let data: Vec<u8> = b"abcabcabc\x00\x00\x00\x00\x00\x00zz".to_vec();
    for bb in [8usize, 16, 24] {
        for delta in [false, true] {
            let enc = encode(&data, &s, bb, delta);
            assert_eq!(enc[5] & (64 | 128), 0);
            assert_eq!(enc[6] as usize, bb);
            assert_eq!(decode(&enc, &s).unwrap(), data);
        }
    }
}

fn lcg_bytes(n: usize, seed: u64) -> Vec<u8> {
    let mut x = seed;
    (0..n)
        .map(|_| {
            x = x.wrapping_mul(6364136223846793005).wrapping_add(1442695040888963407);
            (x >> 56) as u8
        })
        .collect()
}

#[test]
fn ssp_wide_raw_values_roundtrip() {
    // blocks of 24 and 32 bits whose RAW values do not fit 16 bits, with
    // repeats so that a value model pays, decode back on every body kind
    let s = test_s();
    let base = lcg_bytes(96, 7);
    let mut data = Vec::new();
    for _ in 0..12 {
        data.extend_from_slice(&base);
    }
    for bb in [24usize, 32] {
        for delta in [false, true] {
            let enc = encode(&data, &s, bb, delta);
            assert_eq!(decode(&enc, &s).unwrap(), data, "bb={} delta={}", bb, delta);
        }
    }
}

fn zero_runs_data() -> Vec<u8> {
    let mut data = Vec::new();
    for i in 0..40u8 {
        data.extend_from_slice(&[i % 5 + 1, 2, 3]);
        data.extend_from_slice(&vec![0u8; 8 + (i as usize % 4) * 4]);
    }
    data
}

fn check_zero_runs(bb: usize) {
    // long inputs with several zero runs between symbols decode back
    let s = test_s();
    let data = zero_runs_data();
    for delta in [false, true] {
        let enc = encode(&data, &s, bb, delta);
        let kind = enc[5] & (64 | 128);
        let dec = decode(&enc, &s);
        assert!(dec.is_ok(), "bb={} delta={} body={} decode failed", bb, delta, kind);
        let dec = dec.unwrap();
        assert!(dec == data, "bb={} delta={} body={} len {} vs {}", bb, delta, kind, dec.len(), data.len());
    }
}

#[test]
fn ssp_long_zero_runs_bb8() {
    check_zero_runs(8);
}

#[test]
fn ssp_long_zero_runs_bb16() {
    check_zero_runs(16);
}

#[test]
fn ssp_long_zero_runs_bb24() {
    check_zero_runs(24);
}

#[test]
fn ssp_long_zero_runs_bb32() {
    check_zero_runs(32);
}

#[test]
fn ssp_odd_bit_blocks_roundtrip() {
    // 32-bit blocks holding 1 and other odd values keep a bit-packed body
    // with odd-bit separation and decode back
    let s = test_s();
    let mut data = Vec::new();
    for i in 0..20u32 {
        let v: u32 = if i % 3 == 0 { 1 } else { 2 * i + 7 };
        data.extend_from_slice(&v.to_be_bytes());
    }
    for delta in [false, true] {
        let enc = encode(&data, &s, 32, delta);
        assert_eq!(enc[5] & 8, 8);
        assert_eq!(decode(&enc, &s).unwrap(), data);
    }
}
