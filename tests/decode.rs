use flac::bits::BitReader;
use flac::crc::{crc8_update, crc16_update};
use flac::decode::DecodingReadProxy;

#[test]
fn test_rice() {
    let bytes: &[u8] = &[0b1000_1001, 0b1010_1011,
                         0b1100_0000, 0b1010_0000, 0b0000_0101];
    let proxy = DecodingReadProxy::new(bytes);
    let mut reader = BitReader::new(proxy);
    assert_eq!(reader.decode_rice(3).unwrap(), 0);
    assert_eq!(reader.decode_rice(3).unwrap(), -1);
    assert_eq!(reader.decode_rice(3).unwrap(), 1);
    assert_eq!(reader.decode_rice(3).unwrap(), -2);
    assert_eq!(reader.decode_rice(3).unwrap(), 2);
    // (4 << 3) + 1
    assert_eq!(reader.decode_rice(3).unwrap(), 17);
    // -((9 << 2) + 1)
    assert_eq!(reader.decode_rice(2).unwrap(), -19);
}

/// Writes the Rice code word of `x` with parameter `k` as a string of bits.
fn rice_code(x: i32, k: u32, out: &mut Vec<bool>) {
    let u: u64 = if x >= 0 { 2 * x as u64 } else { (-2 * x as i64 - 1) as u64 };
    let q = u >> k;
    for _ in 0..q {
        out.push(false);
    }
    out.push(true);
    for i in (0..k).rev() {
        out.push((u >> i) & 1 == 1);
    }
}

fn pack(bits: &[bool]) -> Vec<u8> {
    let mut bytes = vec![0u8; (bits.len() + 7) / 8];
    for (i, b) in bits.iter().enumerate() {
        if *b {
            bytes[i / 8] |= 0x80 >> (i % 8);
        }
    }
    bytes
}

#[test]
fn rice_decoding_undoes_encoding() {
    let values = [0, 1, -1, 7, -8, 1000, -1000, 123_456, i32::MAX, i32::MIN];
    for k in [0u32, 3, 14, 30] {
        let mut bits = Vec::new();
        let mut chosen = Vec::new();
        for v in values {
            let u: u64 = if v >= 0 { 2 * v as u64 } else { (-2 * v as i64 - 1) as u64 };
            // keep the unary part short enough to test quickly
            if (u >> k) > 5000 {
                continue;
            }
            rice_code(v, k, &mut bits);
            chosen.push(v);
        }
        let bytes = pack(&bits);
        let mut reader = BitReader::new(DecodingReadProxy::new(&bytes));
        for v in chosen {
            assert_eq!(reader.decode_rice(k as usize).unwrap(), v);
        }
    }
}

#[test]
fn rice_code_cut_short_fails() {
    let bytes: &[u8] = &[0b0000_0001];
    let mut reader = BitReader::new(DecodingReadProxy::new(bytes));
    assert!(reader.decode_rice(4).is_err());
}

#[test]
fn crc8_of_check_string() {
    let mut c: u8 = 0;
    for b in b"123456789" {
        c = crc8_update(c, *b);
    }
    assert_eq!(c, 0xF4);
}

#[test]
fn crc16_of_check_string() {
    let mut c: u16 = 0;
    for b in b"123456789" {
        c = crc16_update(c, *b);
    }
    assert_eq!(c, 0xFEE8);
}

#[test]
fn crc_taps_cover_only_their_region() {
    let bytes: &[u8] = b"x123456789y";
    let mut reader = BitReader::new(DecodingReadProxy::new(bytes));
    reader.read_u8().unwrap();
    reader.compute_crc16_begin();
    reader.compute_crc8_begin();
    for _ in 0..9 {
        reader.read_u8().unwrap();
    }
    assert_eq!(reader.compute_crc8_end(), 0xF4);
    assert_eq!(reader.compute_crc16_end(), 0xFEE8);
}
