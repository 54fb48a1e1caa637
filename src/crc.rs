use vstd::prelude::*;

verus! {

/// One bit step of CRC-8 with polynomial 0x07.
pub open spec fn crc8_step(c: u8) -> u8 {
    if c & 0x80u8 != 0 {
        ((c << 1u8) ^ 0x07u8) as u8
    } else {
        (c << 1u8) as u8
    }
}

pub open spec fn crc8_shift(c: u8, k: nat) -> u8
    decreases k,
{
    if k == 0 {
        c
    } else {
        crc8_shift(crc8_step(c), (k - 1) as nat)
    }
}

/// CRC-8 (polynomial 0x07, init 0, no reflection) of a byte sequence.
pub open spec fn crc8_of(s: Seq<u8>) -> u8
    decreases s.len(),
{
    if s.len() == 0 {
        0
    } else {
        crc8_shift(crc8_of(s.drop_last()) ^ s.last(), 8)
    }
}

/// One bit step of CRC-16 with polynomial 0x8005.
pub open spec fn crc16_step(c: u16) -> u16 {
    if c & 0x8000u16 != 0 {
        ((c << 1u16) ^ 0x8005u16) as u16
    } else {
        (c << 1u16) as u16
    }
}

pub open spec fn crc16_shift(c: u16, k: nat) -> u16
    decreases k,
{
    if k == 0 {
        c
    } else {
        crc16_shift(crc16_step(c), (k - 1) as nat)
    }
}

/// CRC-16/BUYPASS (polynomial 0x8005, init 0, no reflection) of a byte sequence.
pub open spec fn crc16_of(s: Seq<u8>) -> u16
    decreases s.len(),
{
    if s.len() == 0 {
        0
    } else {
        crc16_shift(crc16_of(s.drop_last()) ^ ((s.last() as u16) << 8u16), 8)
    }
}

/// Folds one byte into a CRC-8 accumulator.
pub fn crc8_update(c: u8, b: u8) -> (r: u8)
    ensures
        r == crc8_shift(c ^ b, 8),
{
    let mut v: u8 = c ^ b;
    let mut i: usize = 0;
    while i < 8
        invariant
            i <= 8,
            crc8_shift(v, (8 - i) as nat) == crc8_shift(c ^ b, 8),
        decreases 8 - i,
    {
        v = if v & 0x80 != 0 { (v << 1u8) ^ 0x07 } else { v << 1u8 };
        i = i + 1;
    }
    v
}

/// Folds one byte into a CRC-16 accumulator.
pub fn crc16_update(c: u16, b: u8) -> (r: u16)
    ensures
        r == crc16_shift(c ^ ((b as u16) << 8u16), 8),
{
    let mut v: u16 = c ^ ((b as u16) << 8u16);
    let mut i: usize = 0;
    while i < 8
        invariant
            i <= 8,
            crc16_shift(v, (8 - i) as nat) == crc16_shift(c ^ ((b as u16) << 8u16), 8),
        decreases 8 - i,
    {
        v = if v & 0x8000 != 0 { (v << 1u16) ^ 0x8005 } else { v << 1u16 };
        i = i + 1;
    }
    v
}

} // verus!
