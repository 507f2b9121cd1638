use lib::bit_io::{uleb_decode, uleb_encode, BitReader, BitWriter};

#[test]
fn test_bit_writer_roundtrip() {
    let mut bw = BitWriter::new();
    bw.write_bits(0b10110101, 8);
    bw.write_bit(1);
    bw.write_bits(0b11, 2);
    let data = bw.flush();
    assert!(!data.is_empty(), "flush returned empty data!");
    let mut br = BitReader::new(&data);
    assert_eq!(br.read_bits(8).unwrap(), 0b10110101);
    assert_eq!(br.read_bit().unwrap(), 1);
    assert_eq!(br.read_bits(2).unwrap(), 0b11);
}

#[test]
fn test_uleb_roundtrip() {
    for x in [0u64, 1, 127, 128, 300, 10000, u64::MAX] {
        let enc = uleb_encode(x);
        let (dec, n) = uleb_decode(&enc).unwrap();
        assert_eq!(dec, x);
        assert_eq!(n, enc.len());
    }
}

#[test]
fn test_bit_reader_uleb() {
    let mut bw = BitWriter::new();
    bw.write_uleb(300);
    bw.write_uleb(10000);
    let data = bw.flush();

    let mut br = BitReader::new(&data);
    assert_eq!(br.read_uleb().unwrap(), 300);
    assert_eq!(br.read_uleb().unwrap(), 10000);
}

#[test]
fn test_rice_roundtrip() {
    for k in 0..=16 {
        for val in [0u64, 1, 5, 10, 100, 1000, 65535] {
            let mut bw = BitWriter::new();
            bw.write_rice(val, k);
            let data = bw.flush();
            let mut br = BitReader::new(&data);
            let dec = br.read_rice(k).unwrap();
            assert_eq!(dec, val, "k={} val={}", k, val);
        }
    }
}

#[test]
fn uleb_known_bytes() {
    assert_eq!(uleb_encode(0), vec![0u8]);
    assert_eq!(uleb_encode(127), vec![127u8]);
    assert_eq!(uleb_encode(128), vec![0x80u8, 0x01]);
    assert_eq!(uleb_encode(300), vec![0xACu8, 0x02]);
    assert_eq!(uleb_encode(u64::MAX).len(), 10);
}

#[test]
fn uleb_decode_incomplete_is_error() {
    assert!(uleb_decode(&[0x80u8, 0x80]).is_err());
    assert!(uleb_decode(&[]).is_err());
    assert_eq!(uleb_decode(&[0x05u8, 0xFF]).unwrap(), (5, 1));
}

#[test]
fn bit_writer_msb_first_padding() {
    let mut bw = BitWriter::new();
    bw.write_bits(0b101, 3);
    let data = bw.flush();
    assert_eq!(data, vec![0b1010_0000u8]);
}

#[test]
fn bit_writer_uleb_aligns() {
    let mut bw = BitWriter::new();
    bw.write_bit(1);
    bw.write_uleb(5);
    assert_eq!(bw.flush(), vec![0x80u8, 0x05]);
}

#[test]
fn rice_known_bits() {
    // value 5, k = 1: quotient 2 -> "110", remainder "1" -> 1101 0000
    let mut bw = BitWriter::new();
    bw.write_rice(5, 1);
    assert_eq!(bw.flush(), vec![0b1101_0000u8]);
}

#[test]
fn bit_reader_exhaustion() {
    let data = [0xFFu8];
    let mut br = BitReader::new(&data);
    assert!(!br.is_exhausted());
    assert_eq!(br.read_bits(8).unwrap(), 0xFF);
    assert!(br.is_exhausted());
    assert!(br.read_bit().is_err());
}
