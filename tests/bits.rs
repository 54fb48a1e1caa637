use flac::bits::BitReader;
use flac::bitvec::{Bitvec, BitvecBlock};
use flac::decode::DecodingReadProxy;

fn reader(bytes: &[u8]) -> BitReader {
    BitReader::new(DecodingReadProxy::new(bytes))
}

#[test]
fn test_flac_magic() {
    let bytes: &[u8] = &[0x66, 0x4c, 0x61, 0x43, 0, 0, 0x22];
    let mut reader = reader(bytes);
    assert_eq!(reader.read_u32().unwrap(), 0x664c6143);
    assert_eq!(reader.read_u16().unwrap(), 0);
    assert_eq!(reader.read_u8().unwrap(), 0x22);
}

#[test]
fn test_boundary_crossover() {
    let bytes: &[u8] = &[0b10110110, 0b11001100, 0b11110110, 0b11001001,
                         0b10001001, 0b11101101, 0b01001000, 0b01011001, 0b01011001];
    let mut reader = reader(bytes);
    assert_eq!(reader.read_u64_bits(62).unwrap(),
               0b10110110110011001111011011001001100010011110110101001000010110);
    assert_eq!(reader.read_u64_bits(10).unwrap(),
               0b0101011001);
}

#[test]
fn test_boundary_fit() {
    let bytes: &[u8] = &[0b10110110, 0b11001100, 0b11110110, 0b11001001,
                         0b10001001, 0b11101101, 0b01001000, 0b01011001, 0b01011001];
    let mut reader = reader(bytes);
    assert_eq!(reader.read_u64().unwrap(),
               0b1011011011001100111101101100100110001001111011010100100001011001);
    assert_eq!(reader.read_u8().unwrap(),
               0b01011001);
}

#[test]
fn test_singular() {
    let bytes: &[u8] = &[0b10110110, 0b11001100, 0b11110110, 0b11001001,
                         0b10001001, 0b11101101, 0b01001000, 0b01011001, 0b11010110];
    let mut reader = reader(bytes);
    assert_eq!(reader.read_u64_bits(62).unwrap(),
               0b10110110110011001111011011001001100010011110110101001000010110);
    assert_eq!(reader.read_u64_bits(1).unwrap(), 0b0);
    assert_eq!(reader.read_u64_bits(1).unwrap(), 0b1);
    assert_eq!(reader.read_u64_bits(1).unwrap(), 0b1);
    assert_eq!(reader.read_u64_bits(1).unwrap(), 0b1);
    assert_eq!(reader.read_u64_bits(1).unwrap(), 0b0);
    assert_eq!(reader.read_u64_bits(1).unwrap(), 0b1);
    assert_eq!(reader.read_u64_bits(1).unwrap(), 0b0);
    assert_eq!(reader.read_u64_bits(1).unwrap(), 0b1);
    assert_eq!(reader.read_u64_bits(1).unwrap(), 0b1);
    assert_eq!(reader.read_u64_bits(1).unwrap(), 0b0);
}

#[test]
fn test_bitvec_less() {
    let bytes: &[u8] = &[0b10110110];
    let mut reader = reader(bytes);
    let mut vec = Bitvec::new();
    reader.read_bitvec(&mut vec, 5).unwrap();
    assert_eq!(vec, Bitvec {
        blocks: vec![
            BitvecBlock::Bits(0b10110, 5)
        ]
    });
}

#[test]
fn test_bitvec_fit() {
    let bytes: &[u8] = &[0b10110110];
    let mut reader = reader(bytes);
    let mut vec = Bitvec::new();
    reader.read_bitvec(&mut vec, 8).unwrap();
    assert_eq!(vec, Bitvec {
        blocks: vec![
            BitvecBlock::Bytes(vec![0b10110110])
        ]
    });
}

#[test]
fn test_bitvec_more() {
    let bytes: &[u8] = &[0b10110110, 0b11001100];
    let mut reader = reader(bytes);
    let mut vec = Bitvec::new();
    reader.read_bitvec(&mut vec, 10).unwrap();
    assert_eq!(vec, Bitvec {
        blocks: vec![
            BitvecBlock::Bytes(vec![0b10110110]),
            BitvecBlock::Bits(0b11, 2)
        ]
    });
}

#[test]
fn test_bitvec_shrink() {
    let bytes: &[u8] = &[0b10110110];
    let mut reader = reader(bytes);
    let mut vec = Bitvec::new();
    reader.read_bitvec(&mut vec, 3).unwrap();
    reader.read_bitvec(&mut vec, 3).unwrap();
    assert_eq!(vec, Bitvec {
        blocks: vec![
            BitvecBlock::Bits(0b101101, 6)
        ]
    });
}

#[test]
fn test_bitvec_shrink_fit() {
    let bytes: &[u8] = &[0b10110110, 0b11001100];
    let mut reader = reader(bytes);
    let mut vec = Bitvec::new();
    reader.read_bitvec(&mut vec, 10).unwrap();
    reader.read_bitvec(&mut vec, 6).unwrap();
    assert_eq!(vec, Bitvec {
        blocks: vec![
            BitvecBlock::Bytes(vec![0b10110110, 0b11001100])
        ]
    });
}

#[test]
fn test_bitvec_shrink_crossover_fit() {
    let bytes: &[u8] = &[0b10110110, 0b11001100];
    let mut reader = reader(bytes);
    let mut vec = Bitvec::new();
    reader.read_bitvec(&mut vec, 10).unwrap();
    reader.read_bitvec(&mut vec, 4).unwrap();
    reader.read_bitvec(&mut vec, 2).unwrap();
    assert_eq!(vec, Bitvec {
        blocks: vec![
            BitvecBlock::Bytes(vec![0b10110110, 0b11001100])
        ]
    });
}

#[test]
fn test_bitvec_shrink_overflow() {
    let bytes: &[u8] = &[0b10110110, 0b11001100, 0b11110110];
    let mut reader = reader(bytes);
    let mut vec = Bitvec::new();
    reader.read_bitvec(&mut vec, 14).unwrap();
    reader.read_bitvec(&mut vec, 6).unwrap();
    assert_eq!(vec, Bitvec {
        blocks: vec![
            BitvecBlock::Bytes(vec![0b10110110, 0b11001100]),
            BitvecBlock::Bits(0b1111, 4)
        ]
    });
}

#[test]
fn chunks_rebuild_the_bits_they_were_read_from() {
    let bytes: &[u8] = &[0xB6, 0xCC, 0xF6, 0xC9, 0x89, 0xED, 0x48, 0x59, 0x59];
    let widths = [3usize, 17, 1, 0, 33, 8, 10];
    let mut reader = reader(bytes);
    let mut rebuilt: u128 = 0;
    let mut total = 0usize;
    for w in widths {
        let v = reader.read_u64_bits(w).unwrap() as u128;
        rebuilt = (rebuilt << w) | v;
        total += w;
    }
    assert_eq!(rebuilt, reader_value(bytes, total));
}

fn reader_value(bytes: &[u8], bits: usize) -> u128 {
    let mut v: u128 = 0;
    for i in 0..bits {
        let bit = (bytes[i / 8] >> (7 - i % 8)) & 1;
        v = (v << 1) | bit as u128;
    }
    v
}

#[test]
fn reading_past_the_end_fails() {
    let bytes: &[u8] = &[0xff];
    let mut reader = reader(bytes);
    assert_eq!(reader.read_u8_bits(4).unwrap(), 0xf);
    let err = reader.read_u8().unwrap_err();
    assert_eq!(err.code, flac::error::ErrorCode::UnexpectedEof);
}

#[test]
fn unary_counts_zeros_before_a_one() {
    let bytes: &[u8] = &[0b0001_0100, 0b0000_0001];
    let mut reader = reader(bytes);
    assert_eq!(reader.read_unary().unwrap(), 3);
    assert_eq!(reader.read_unary().unwrap(), 1);
    assert_eq!(reader.read_unary().unwrap(), 9);
    assert!(reader.read_unary().is_err());
}

#[test]
fn read_u128_joins_two_halves() {
    let bytes: Vec<u8> = (1u8..=16).collect();
    let mut reader = reader(&bytes);
    assert_eq!(reader.read_u128().unwrap(), 0x0102030405060708090a0b0c0d0e0f10);
}
