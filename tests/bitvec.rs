use flac::bitvec::{Bitvec, BitvecBlock};
use flac::decode::DecodingReadProxy;

#[test]
fn test_write_bytes() {
    let bytes: &[u8] = &[0x66, 0x4c, 0x61, 0x43, 0, 0, 0x22];
    let mut source = DecodingReadProxy::new(bytes);
    let mut vec = Bitvec::new();
    vec.write_bytes(&mut source, 4).unwrap();
    vec.write_bytes(&mut source, 2).unwrap();
    vec.write_bytes(&mut source, 1).unwrap();
    assert_eq!(vec, Bitvec {
        blocks: vec![
            BitvecBlock::Bytes(vec![0x66, 0x4c, 0x61, 0x43, 0, 0, 0x22])
        ]
    })
}

#[test]
fn test_write_bits() {
    let bytes: &[u8] = &[0b10110110, 0b11001100];
    let mut source = DecodingReadProxy::new(bytes);
    let mut vec = Bitvec::new();
    vec.write_bits(0b10110, 5);
    vec.write_bytes(&mut source, 2).unwrap();
    vec.write_bits(0b11110110, 8);
    assert_eq!(vec, Bitvec {
        blocks: vec![
            BitvecBlock::Bits(0b10110, 5),
            BitvecBlock::Bytes(vec![0b10110110, 0b11001100, 0b11110110])
        ]
    })
}

#[test]
fn test_write_overflow() {
    let mut vec = Bitvec::new();
    vec.write_bits(0b11110110, 8);
    vec.write_bits(0b101101, 6);
    vec.write_bits(0b111100, 6);
    assert_eq!(vec, Bitvec {
        blocks: vec![
            BitvecBlock::Bytes(vec![0b11110110, 0b10110111]),
            BitvecBlock::Bits(0b1100, 4)
        ]
    })
}

#[test]
fn test_write_overflow_twice() {
    let mut vec = Bitvec::new();
    vec.write_bits(0b11, 2);
    vec.write_bits(0b01101101, 8);
    vec.write_bits(0b10111100, 8);
    assert_eq!(vec, Bitvec {
        blocks: vec![
            BitvecBlock::Bytes(vec![0b11011011, 0b01101111]),
            BitvecBlock::Bits(0, 2)
        ]
    })
}

#[test]
fn write_bytes_past_the_end_leaves_the_vector() {
    let bytes: &[u8] = &[1, 2];
    let mut source = DecodingReadProxy::new(bytes);
    let mut vec = Bitvec::new();
    vec.write_bits(0b1, 1);
    assert!(vec.write_bytes(&mut source, 3).is_err());
    assert_eq!(vec, Bitvec { blocks: vec![BitvecBlock::Bits(1, 1)] });
}
