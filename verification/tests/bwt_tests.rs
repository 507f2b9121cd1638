use lib::bwt::{bwt_decode, bwt_decode_chunked, bwt_encode, bwt_encode_chunked, bwt_encode_iterative, pack_bwt, unpack_bwt};

#[test]
fn test_bwt_roundtrip() {
    let test_cases = vec![
        b"banana".to_vec(),
        b"aaaa".to_vec(),
        b"abracadabra".to_vec(),
        b"hello world".to_vec(),
        b"".to_vec(),
        b"a".to_vec(),
        b"aaaaabbbbb".to_vec(),
    ];

    for data in test_cases {
        let (primary, last) = bwt_encode(&data);
        let decoded = bwt_decode(primary, &last);
        assert_eq!(decoded, data, "BWT roundtrip failed for {:?}", data);
    }
}

#[test]
fn test_bwt_pack_unpack() {
    let data = b"test data";
    let (primary, last) = bwt_encode(data);
    let packed = pack_bwt(primary, &last);
    let (unpacked_primary, unpacked_last) = unpack_bwt(&packed);

    assert_eq!(primary, unpacked_primary);
    assert_eq!(&last, unpacked_last);

    let decoded = bwt_decode(unpacked_primary, unpacked_last);
    assert_eq!(decoded, data);
}

#[test]
fn test_bwt_alice() {
    let data = b"alice in wonderland chapter one down the rabbit hole";
    let (primary, last) = bwt_encode(data);
    let decoded = bwt_decode(primary, &last);
    assert_eq!(decoded, data);
}

#[test]
fn bwt_banana_known() {
    // sorted rotations of "banana": abanan, anaban, ananab, banana, nabana, nanaba
    let (primary, last) = bwt_encode(b"banana");
    assert_eq!(primary, 3);
    assert_eq!(last, b"nnbaaa".to_vec());
}

#[test]
fn bwt_iterative_passes() {
    let data = b"mississippi river";
    assert_eq!(bwt_encode_iterative(data, 1), bwt_encode(data));
    let (_, last1) = bwt_encode(data);
    assert_eq!(bwt_encode_iterative(data, 2), bwt_encode(&last1));
    assert_eq!(bwt_encode_iterative(data, 0), (0u32, data.to_vec()));
}

#[test]
fn bwt_chunked_roundtrip() {
    let data: Vec<u8> = b"the quick brown fox jumps over the lazy dog ".iter().cycle().take(1000).copied().collect();
    for cs in [1usize, 7, 64, 999] {
        let enc = bwt_encode_chunked(&data, cs);
        let dec = bwt_decode_chunked(&enc);
        assert_eq!(dec, data, "chunk size {}", cs);
    }
    // data that fits one chunk is written as a single chunk
    let small = bwt_encode_chunked(b"banana", 16);
    let mut expected = vec![1u8, 0, 0, 0, 6, 0, 0, 0];
    expected.extend_from_slice(&pack_bwt(3, b"nnbaaa"));
    assert_eq!(small, expected);
    assert_eq!(bwt_decode_chunked(&small), b"banana".to_vec());
    assert_eq!(bwt_decode_chunked(&bwt_encode_chunked(b"banana", 100)), b"banana".to_vec());
    assert_eq!(bwt_encode_chunked(b"", 4), vec![0u8, 0, 0, 0]);
    assert!(bwt_decode_chunked(&bwt_encode_chunked(b"", 4)).is_empty());
}

#[test]
fn unpack_bwt_short_input() {
    let (p, rest) = unpack_bwt(&[1u8, 2]);
    assert_eq!(p, 0);
    assert!(rest.is_empty());
}
