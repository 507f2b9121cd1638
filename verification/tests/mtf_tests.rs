use lib::bwt::{bwt_decode, bwt_encode, pack_bwt, unpack_bwt};
use lib::mtf::{
    bit_mtf_decode, bit_mtf_encode, bit_mtf_pack, bit_mtf_unpack, mtf_decode, mtf_decode_bwt_chunked,
    mtf_decode_chunked, mtf_encode, mtf_encode_adaptive, mtf_encode_bwt_chunked, pack_mtf, unpack_mtf,
};

#[test]
fn test_mtf_roundtrip() {
    let test_cases = vec![
        b"banana".to_vec(),
        b"aaaa".to_vec(),
        b"hello world".to_vec(),
        b"".to_vec(),
        b"a".to_vec(),
        vec![0, 0, 0, 0],
        b"abcdefghijklmnopqrstuvwxyz".to_vec(),
        (0..=255u8).collect::<Vec<_>>(),
    ];

    for data in test_cases {
        let encoded = mtf_encode(&data);
        let decoded = mtf_decode(&encoded);
        assert_eq!(decoded, data, "MTF roundtrip failed for {:?}", &data[..data.len().min(20)]);
    }
}

#[test]
fn test_mtf_pack_unpack() {
    let data = b"test data with various bytes: \x00\xff\x80";
    let encoded = mtf_encode(data);
    let packed = pack_mtf(data, &encoded);
    let (orig_len, unpacked) = unpack_mtf(&packed);

    assert_eq!(orig_len, data.len());
    assert_eq!(unpacked, encoded);

    let decoded = mtf_decode(unpacked);
    assert_eq!(decoded, data);
}

#[test]
fn test_mtf_locality() {
    let data = b"aaaaabbbbbccccc";
    let encoded = mtf_encode(data);
    assert_eq!(encoded[0], 97);
    assert_eq!(encoded[1], 0);
    assert_eq!(encoded[2], 0);
    assert_eq!(encoded[3], 0);
    assert_eq!(encoded[4], 0);
    assert_eq!(encoded[5], 98);
}

#[test]
fn test_mtf_against_known_bwt() {
    let bwt_data: [u8; 18] = [68, 65, 65, 65, 65, 65, 65, 66, 66, 66, 66, 66, 67, 67, 67, 67, 67, 67];
    let encoded = mtf_encode(&bwt_data);
    println!("MTF of BWT: {:?}", &encoded[..]);
    assert_eq!(encoded.len(), 18, "MTF should produce 18 values");
    let mut distinct: std::collections::HashSet<u8> = std::collections::HashSet::new();
    for &v in &encoded {
        distinct.insert(v);
    }
    println!("Distinct MTF values: {:?}", distinct);
    println!("Distinct count: {}", distinct.len());
    let decoded = mtf_decode(&encoded);
    assert_eq!(&decoded[..], &bwt_data[..], "MTF roundtrip failed");
}

#[test]
fn test_bit_mtf_roundtrip() {
    let mtf_data = vec![5u8, 10, 15, 20, 5, 5, 30, 40];
    let bit_streams = bit_mtf_encode(&mtf_data);
    for bit in 0..8 {
        assert_eq!(bit_streams[bit].len(), mtf_data.len());
    }
    let decoded = bit_mtf_decode(&bit_streams, mtf_data.len());
    assert_eq!(decoded, mtf_data);
}

#[test]
fn test_bit_mtf_simple() {
    let mtf_data = vec![0u8, 1, 0, 1, 0, 1];
    let bit_streams = bit_mtf_encode(&mtf_data);
    assert_eq!(bit_streams[0].len(), mtf_data.len());
    assert_eq!(bit_streams[1].len(), mtf_data.len());
    let decoded = bit_mtf_decode(&bit_streams, mtf_data.len());
    assert_eq!(decoded, mtf_data);
}

#[test]
fn test_bit_mtf_pack_unpack() {
    let mtf_data = vec![7u8, 42, 100, 200, 7, 8];
    let primary = 12345u32;
    let packed = bit_mtf_pack(primary, &mtf_data);
    println!("Packed size: {} bytes", packed.len());
    let (dec_primary, dec_mtf) = bit_mtf_unpack(&packed)
        .expect(&format!("unpack failed: packed_len={}, orig_len={}", packed.len(), mtf_data.len()));
    assert_eq!(dec_primary, primary);
    assert_eq!(dec_mtf, mtf_data);
}

#[test]
fn test_bit_mtf_from_bwt() {
    let original = b"abracadabra and alakazam".to_vec();
    let (primary, bwt_data) = bwt_encode(&original);
    let bwt_packed = pack_bwt(primary, &bwt_data);
    let mtf_data = mtf_encode(&bwt_packed);

    let packed = bit_mtf_pack(primary, &mtf_data);
    println!("BWT MTF len: {}, packed size: {}", mtf_data.len(), packed.len());
    let (dec_primary, dec_mtf) = bit_mtf_unpack(&packed)
        .expect(&format!("unpack failed: packed_len={}, mtf_len={}", packed.len(), mtf_data.len()));

    assert_eq!(dec_primary, primary);
    assert_eq!(dec_mtf, mtf_data);

    let mtf_decoded = mtf_decode(&dec_mtf);
    let (_, dec_bwt) = unpack_bwt(&mtf_decoded);
    let reconstructed = bwt_decode(dec_primary, dec_bwt);
    assert_eq!(reconstructed, original);
}

#[test]
fn mtf_known_vector() {
    // b"banana": b=98, a -> 98 (a moved behind b), n -> 110, ...
    assert_eq!(mtf_encode(b"banana"), vec![98u8, 98, 110, 1, 1, 1]);
}

#[test]
fn mtf_chunked_and_adaptive_roundtrip() {
    let data: Vec<u8> = b"abracadabra abracadabra zzz ".iter().cycle().take(700).copied().collect();
    let adaptive = mtf_encode_adaptive(&data, 64);
    // 11 chunks, each with a 4-byte length
    assert_eq!(adaptive.len(), data.len() + 11 * 4);
    assert_eq!(mtf_decode_chunked(&adaptive, 64), data);
}

#[test]
fn mtf_bwt_chunked_roundtrip() {
    let packed = lib::bwt::bwt_encode_chunked(b"hello hello hello world", 8);
    let m = mtf_encode_bwt_chunked(&packed, 8);
    assert_eq!(mtf_decode_bwt_chunked(&m), packed);
    // data within one chunk
    let single = lib::bwt::bwt_encode_chunked(b"banana", 100);
    let m1 = mtf_encode_bwt_chunked(&single, 100);
    assert_eq!(mtf_decode_bwt_chunked(&m1), single);
}

#[test]
fn mtf_decode_then_encode() {
    // MTF indices decode to bytes whose MTF indices are the same again
    let idx: Vec<u8> = vec![0, 5, 5, 255, 1, 0, 0, 17, 3, 200];
    assert_eq!(mtf_encode(&mtf_decode(&idx)), idx);
}

#[test]
fn bit_mtf_unpack_short_is_none() {
    assert!(bit_mtf_unpack(&[1u8, 2, 3]).is_none());
}
