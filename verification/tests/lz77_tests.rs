use lib::lz77::{bytes_to_tokens, decode, encode, encode_greedy, tokens_to_bytes, Token};

#[test]
fn test_lz77_token_serialization_roundtrip() {
    let test_cases = vec![
        b"AAAA".to_vec(),
        b"ABABABAB".to_vec(),
        b"The quick brown fox".to_vec(),
        b"Hello World! Hello World!".to_vec(),
        b"\r\n\r\n\r\n      Text\r\n".to_vec(),
    ];

    for data in test_cases {
        let tokens = encode(&data);
        let serialized = tokens_to_bytes(&tokens);
        let tokens2 = bytes_to_tokens(&serialized);
        let decoded = decode(&tokens2);
        assert_eq!(data, decoded, "Token serialization failed for {:?}", String::from_utf8_lossy(&data));
    }
}

#[test]
fn test_lz77_alice29_segment() {
    let segment = b"fact, I\r\ndidn't know that cat";
    let tokens = encode(segment);
    let bytes = tokens_to_bytes(&tokens);
    let tokens2 = bytes_to_tokens(&bytes);
    let decoded = decode(&tokens2);
    assert_eq!(segment.to_vec(), decoded, "LZ77 failed on alice29 segment");
}

#[test]
fn test_lz77_encode_only_roundtrip() {
    let data: Vec<u8> = (0..=255).chain(0..=255).chain(0..=255).take(152089).collect();
    let tokens = encode(&data);
    let decoded = decode(&tokens);
    assert_eq!(data, decoded, "LZ77 encode->decode failed on full data");
}

#[test]
fn test_lz77_long_pattern() {
    let pattern = b"The quick brown fox jumps over the lazy dog. fact, I\r\ndidn't know that cat";
    let tokens = encode(pattern);
    let decoded = decode(&tokens);
    assert_eq!(pattern.to_vec(), decoded, "LZ77 failed on long pattern");
}

#[test]
fn test_lz77_empty() {
    let tokens = encode(b"");
    assert!(tokens.is_empty());
    assert_eq!(b"".to_vec(), decode(&tokens));
}

#[test]
fn test_lz77_roundtrip() {
    let data = b"Hello World! World! World! The quick brown fox.";
    let tokens = encode(data);
    let decoded = decode(&tokens);
    assert_eq!(data.to_vec(), decoded);
}

#[test]
fn test_lz77_repeated() {
    let data: Vec<u8> = b"The quick brown fox ".iter().cycle().take(500).copied().collect();
    let tokens = encode(&data);
    let decoded = decode(&tokens);
    assert_eq!(data, decoded);
    let bytes = tokens_to_bytes(&tokens);
    let ratio = 100.0 * bytes.len() as f64 / data.len() as f64;
    let mat = tokens.iter().filter(|t| matches!(t, Token::Match { .. })).count();
    println!("Repeated 500B: {} matches, ratio={:.1}%", mat, ratio);
    assert!(mat > 0, "Should find matches");
}

#[test]
fn test_lz77_aaa() {
    let data: Vec<u8> = b"AAAAAAAAAA".iter().cycle().take(1000).copied().collect();
    let tokens = encode(&data);
    let decoded = decode(&tokens);
    assert_eq!(data, decoded);
    let bytes = tokens_to_bytes(&tokens);
    let ratio = 100.0 * bytes.len() as f64 / data.len() as f64;
    let mat = tokens.iter().filter(|t| matches!(t, Token::Match { .. })).count();
    println!("AAA 1000x: {} matches, ratio={:.1}%", mat, ratio);
    assert!(mat > 0, "Should find matches");
}

#[test]
fn test_lz77_tokens_bytes() {
    let data = b"Test data. Test data. Test data. ";
    let tokens = encode(data);
    let bytes = tokens_to_bytes(&tokens);
    let decoded = bytes_to_tokens(&bytes);
    assert_eq!(tokens, decoded);
    assert_eq!(data.to_vec(), decode(&decoded));
}

fn gen_repetitive() -> Vec<u8> {
    b"The quick brown fox jumps over the lazy dog. fact, I didn't know that cat".iter().cycle().take(200_000).copied().collect()
}

fn gen_alice_like() -> Vec<u8> {
    let text = b"The Famines and Locusts, and the other plagues, were sent upon Egypt for the sins of its people. When the river should overflow, it did not overflow. When it should have receded, it did not recede. The land was parched with drought, and the harvests failed. The cattle lowed for water, and the people lifted up their voices to heaven.";
    text.iter().cycle().take(150_000).copied().collect()
}

fn gen_csv_like() -> Vec<u8> {
    let row = b"name,age,city,country,profession,salary,department,manager,start_date,status\n";
    row.iter().cycle().take(100_000).copied().collect()
}

fn gen_random() -> Vec<u8> {
    let mut rng: u64 = 42;
    (0..100_000)
        .map(|_| {
            rng = rng.wrapping_mul(6364136223846793005).wrapping_add(1);
            (rng >> 33) as u8
        })
        .collect()
}

fn gen_aaa() -> Vec<u8> {
    b"A".iter().cycle().take(50_000).copied().collect()
}

fn gen_sparse() -> Vec<u8> {
    let pattern = b"ABCD1234EFGH5678IJKL9012MNOP3456QRST7890";
    let mut data = Vec::with_capacity(100_000);
    for _ in 0..1250 {
        data.extend_from_slice(pattern);
    }
    data
}

fn bench_data(name: &str, data: &[u8]) {
    let start = std::time::Instant::now();
    let baseline_tokens = encode_greedy(data);
    let baseline_time = start.elapsed();
    let baseline_bytes = tokens_to_bytes(&baseline_tokens);
    let baseline_ratio = 100.0 * baseline_bytes.len() as f64 / data.len() as f64;

    let start = std::time::Instant::now();
    let opt_tokens = encode(data);
    let opt_time = start.elapsed();
    let opt_bytes = tokens_to_bytes(&opt_tokens);
    let opt_ratio = 100.0 * opt_bytes.len() as f64 / data.len() as f64;

    assert_eq!(decode(&baseline_tokens), decode(&opt_tokens));
    assert_eq!(decode(&baseline_tokens), data.to_vec());

    println!(
        "{} ({} bytes): greedy {:.3}ms {:.2}%, lazy {:.3}ms {:.2}%",
        name,
        data.len(),
        baseline_time.as_secs_f64() * 1000.0,
        baseline_ratio,
        opt_time.as_secs_f64() * 1000.0,
        opt_ratio
    );
}

#[test]
fn bench_lazy_vs_greedy() {
    bench_data("Repetitive text", &gen_repetitive());
    bench_data("Alice-like", &gen_alice_like());
    bench_data("CSV-like", &gen_csv_like());
    bench_data("Sparse repeats", &gen_sparse());
    bench_data("AAAA...", &gen_aaa());
    bench_data("Random", &gen_random());
}

#[test]
fn lz77_short_inputs_are_literals() {
    assert_eq!(encode(b"ab"), vec![Token::Literal(b'a'), Token::Literal(b'b')]);
    assert_eq!(encode_greedy(b"xyz"), vec![Token::Literal(b'x'), Token::Literal(b'y'), Token::Literal(b'z')]);
}

#[test]
fn lz77_decode_overlapping_match() {
    let tokens = vec![Token::Literal(b'a'), Token::Match { offset: 1, length: 5 }];
    assert_eq!(decode(&tokens), b"aaaaaa".to_vec());
}

#[test]
fn lz77_empty_serialization() {
    let bytes = tokens_to_bytes(&[]);
    assert_eq!(bytes_to_tokens(&bytes), Vec::<Token>::new());
}
