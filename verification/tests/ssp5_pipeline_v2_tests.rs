use lib::ssp5_pipeline_v2::{
    mtf_stats, rle_decode, rle_decode_v2, rle_encode, rle_encode_v2, s_for_mtf, ssp5_decode, ssp5_encode,
};

fn default_s() -> Vec<u64> {
    vec![
        2, 3, 5, 7, 11, 13, 17, 19, 23, 29, 31, 37, 41, 43, 47, 53, 59, 61, 67, 71, 73, 79, 83, 89, 97, 101, 103,
        107, 109, 113, 127, 131, 137, 139, 149, 151, 157, 163, 167, 173, 179, 181, 191, 193, 197, 199, 211, 223, 227,
        229, 233, 239, 241, 251, 257, 263, 269, 271, 277, 281, 283, 293, 307, 311,
    ]
}

#[test]
fn test_rle_roundtrip() {
    let cases: Vec<&[u8]> = vec![
        b"aaaaabbbbbccccc",
        b"hello world",
        b"\x00\x00\x00\x01\x01\x02\x02\x02\x02\x03",
        b"ababababab",
    ];
    for data in cases {
        let (encoded, _) = rle_encode_v2(data);
        let decoded = rle_decode_v2(&encoded, 0);
        assert_eq!(decoded, data, "RLE roundtrip failed");
    }
}

#[test]
fn test_rle_compression() {
    let data = b"\x00\x00\x00\x00\x00\x00\x00\x00\x00\x00";
    let (encoded, _) = rle_encode_v2(data);
    println!("RLE: {} -> {} ({:.1}%)", data.len(), encoded.len(), encoded.len() as f64 / data.len() as f64 * 100.0);
    assert!(encoded.len() < data.len(), "RLE should compress runs");
}

#[test]
fn test_ssp5_rle() {
    let s = default_s();
    let data = b"banana banana banana";
    let encoded = ssp5_encode(data, &s, 16);
    let decoded = ssp5_decode(&encoded).unwrap();
    assert_eq!(decoded, data);
}

#[test]
fn rle_v2_escapes_and_roundtrips() {
    let data = vec![0xFFu8, 1, 0xFF, 0xFF, 2, 2, 2, 2];
    let (enc, hl) = rle_encode_v2(&data);
    assert_eq!(hl, 0);
    assert_eq!(enc, vec![0xFFu8, 0xFF, 1, 1, 0xFF, 0xFF, 2, 0xFF, 2, 4]);
    assert_eq!(rle_decode_v2(&enc, 0), data);
}

#[test]
fn rle_v1_known_bytes() {
    assert_eq!(rle_encode(b"aaaab"), vec![b'a', 4, b'b']);
    assert_eq!(rle_encode(b""), Vec::<u8>::new());
    // each byte is read with a run length after it; 0 stands for the byte itself
    assert_eq!(rle_decode(&[b'x', 0, b'y', 3]), b"xyyy".to_vec());
}

#[test]
fn s_for_mtf_values() {
    let s = s_for_mtf();
    assert_eq!(s.len(), 48);
    assert_eq!(&s[0..3], &[1u64, 2, 3]);
    assert_eq!(*s.last().unwrap(), 163);
}

#[test]
fn v2_pipeline_with_rle_and_errors() {
    let s = default_s();
    let data: Vec<u8> = b"mississippi ".iter().cycle().take(600).copied().collect();
    let enc = ssp5_encode(&data, &s, 8);
    assert_eq!(ssp5_decode(&enc).unwrap(), data);
    assert_eq!(ssp5_decode(&[1, 2, 3]), Err("Archive too short for SSP5 header"));
    let mut bad = enc.clone();
    bad[0] = 0;
    assert_eq!(ssp5_decode(&bad), Err("Bad magic (expected SSP5)"));
    let mut badv = enc.clone();
    badv[4] = 9;
    assert_eq!(ssp5_decode(&badv), Err("Unsupported SSP5 version"));
}

#[test]
fn mtf_stats_counts_and_runs() {
    let st = mtf_stats(&[0, 0, 0, 1, 2, 2, 0]);
    assert_eq!(st.counts.len(), 256);
    assert_eq!(st.counts[0], 4);
    assert_eq!(st.counts[1], 1);
    assert_eq!(st.counts[2], 2);
    assert_eq!(st.counts[3], 0);
    assert_eq!(st.total_runs, 4);
    assert_eq!(st.long_runs, 1);
    assert_eq!(st.max_run, 3);
}

#[test]
fn mtf_stats_empty() {
    let st = mtf_stats(&[]);
    assert_eq!(st.total_runs, 0);
    assert_eq!(st.long_runs, 0);
    assert_eq!(st.max_run, 0);
    assert!(st.counts.iter().all(|&c| c == 0));
}
