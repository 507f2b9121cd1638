use lib::symbols::{build_lut, decode_symbol, find_symbol, rank_symbol, unrank_symbol};

fn is_prime(n: u64) -> bool {
    if n < 2 {
        return false;
    }
    if n % 2 == 0 {
        return n == 2;
    }
    let mut i = 3;
    while i * i <= n {
        if n % i == 0 {
            return false;
        }
        i += 2;
    }
    true
}

#[test]
fn test_rank_unrank_roundtrip() {
    let cases = [
        ("SUM", 1, 1, 1),
        ("DIFF", 2, 1, 2),
        ("SUM", 2, 1, 3),
        ("SUM", 2, 2, 4),
        ("DIFF", 3, 1, 6),
        ("DIFF", 3, 2, 5),
        ("SUM", 3, 1, 7),
        ("SUM", 3, 2, 8),
        ("SUM", 3, 3, 9),
        ("DIFF", 4, 1, 12),
    ];
    for &(op, i, j, expected_k) in &cases {
        let k = rank_symbol(op, i, j).unwrap();
        assert_eq!(k, expected_k, "rank_symbol({op}, {i}, {j})");
        let (op2, i2, j2) = unrank_symbol(k).unwrap();
        assert_eq!((op2, i2, j2), (op, i, j), "unrank_symbol({k})");
    }
}

#[test]
fn test_decode_symbol() {
    let s = [2, 3, 5, 7, 11, 13];
    assert_eq!(decode_symbol(1, &s).unwrap(), 4);
    assert_eq!(decode_symbol(2, &s).unwrap(), 1);
    assert_eq!(decode_symbol(3, &s).unwrap(), 5);
    assert_eq!(decode_symbol(4, &s).unwrap(), 6);
}

#[test]
fn test_find_symbol() {
    let s: Vec<u64> = (2..20).filter(|&x| is_prime(x)).collect();
    let result = find_symbol(10, &s, None);
    assert!(result.is_some());
    let (k, op, _, _) = result.unwrap();
    assert_eq!(op, "SUM");
    assert_eq!(decode_symbol(k, &s).unwrap(), 10);

    let result = find_symbol(7, &s, None);
    assert!(result.is_some());
    let (k, _, _, _) = result.unwrap();
    assert_eq!(decode_symbol(k, &s).unwrap(), 7);

    let result = find_symbol(3, &s, None);
    assert!(result.is_some());
    let (k, _, _, _) = result.unwrap();
    assert_eq!(decode_symbol(k, &s).unwrap(), 3);
}

#[test]
fn rank_symbol_errors() {
    assert!(rank_symbol("SUM", 0, 0).is_err());
    assert!(rank_symbol("SUM", 2, 3).is_err());
    assert!(rank_symbol("DIFF", 2, 2).is_err());
    // any name other than DIFF ranks as SUM
    assert_eq!(rank_symbol("XOR", 2, 1), rank_symbol("SUM", 2, 1));
    assert!(unrank_symbol(0).is_err());
}

#[test]
fn unrank_rank_many() {
    for k in 1u64..2000 {
        let (op, i, j) = unrank_symbol(k).unwrap();
        assert_eq!(rank_symbol(op, i, j).unwrap(), k);
    }
}

#[test]
fn find_symbol_absent() {
    let s = [2u64, 3];
    assert!(find_symbol(0, &s, None).is_none());
    assert!(find_symbol(100, &s, None).is_none());
    assert!(find_symbol(5, &[], None).is_none());
}

#[test]
fn lut_values_decode_back() {
    let s: Vec<u64> = (2..60).filter(|&x| is_prime(x)).collect();
    let lut = build_lut(&s, 8);
    assert!(!lut.is_empty());
    for (&v, &pk) in lut.iter() {
        assert!(v < 256);
        let k = pk >> 1;
        let odd = pk & 1;
        let base = if k > 0 { decode_symbol(k, &s).unwrap() } else { 0 };
        assert_eq!(base + odd, v);
    }
}

#[test]
fn find_symbol_smallest_diff() {
    // 2 = 5 - 3 (k = 5), 7 - 5 (k = 10), 13 - 11 (k = 26), 19 - 17 (k = 50)
    let s: Vec<u64> = vec![2, 3, 5, 7, 11, 13, 17, 19];
    assert_eq!(find_symbol(2, &s, None), Some((5, "DIFF", 3, 2)));
    assert_eq!(decode_symbol(5, &s), Ok(2));
}
