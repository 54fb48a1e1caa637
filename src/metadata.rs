use vstd::prelude::*;
use vstd::arithmetic::power2::lemma2_to64;
use crate::bits::{BitReader, bits_val, bit_at, lemma_bits_bound};
use crate::bitvec::Bitvec;
use crate::error::{Error, ErrorCode};

verus! {

/// The kind of a metadata block.
#[derive(Debug, Clone, Copy, PartialEq, Eq, Structural)]
pub enum MetadataType {
    StreamInfo,
    Padding,
    Application,
    Seektable,
    VorbisComment,
    Cuesheet,
    Picture,
    Reserved,
    Invalid,
}

pub open spec fn metadata_type_of(u: nat) -> MetadataType {
    if u == 0 {
        MetadataType::StreamInfo
    } else if u == 1 {
        MetadataType::Padding
    } else if u == 2 {
        MetadataType::Application
    } else if u == 3 {
        MetadataType::Seektable
    } else if u == 4 {
        MetadataType::VorbisComment
    } else if u == 5 {
        MetadataType::Cuesheet
    } else if u == 6 {
        MetadataType::Picture
    } else if u <= 126 {
        MetadataType::Reserved
    } else {
        MetadataType::Invalid
    }
}

impl MetadataType {
    pub fn from_code(u: u8) -> (r: MetadataType)
        ensures
            r == metadata_type_of(u as nat),
    {
        match u {
            0 => MetadataType::StreamInfo,
            1 => MetadataType::Padding,
            2 => MetadataType::Application,
            3 => MetadataType::Seektable,
            4 => MetadataType::VorbisComment,
            5 => MetadataType::Cuesheet,
            6 => MetadataType::Picture,
            7..=126 => MetadataType::Reserved,
            _ => MetadataType::Invalid,
        }
    }
}

/// The header of a metadata block: whether it is the last, its kind, and
/// the length of its body.
#[derive(Debug, Clone, Copy, PartialEq, Eq, Structural)]
pub struct MetadataHeader {
    pub last: bool,
    pub kind: MetadataType,
    pub length_in_bytes: usize,
}

/// The metadata block header in the 32 bits at `p`.
pub open spec fn metadata_header_at(d: Seq<u8>, p: int) -> MetadataHeader {
    MetadataHeader {
        last: bit_at(d, p) == 1,
        kind: metadata_type_of(bits_val(d, p + 1, 7)),
        length_in_bytes: bits_val(d, p + 8, 24) as usize,
    }
}

impl MetadataHeader {
    pub fn from_reader(reader: &mut BitReader) -> (r: Result<Self, Error>)
        requires
            old(reader).wf(),
        ensures
            final(reader).keeps(old(reader)),
            32 <= old(reader).bits_left() <==> r is Ok,
            r is Ok ==> r->Ok_0 == metadata_header_at(old(reader).data(), old(reader).bit_pos())
                && final(reader).bit_pos() == old(reader).bit_pos() + 32,
            r is Err ==> r->Err_0.code == ErrorCode::UnexpectedEof,
    {
        let ghost d = reader.data();
        let ghost p = reader.bit_pos();
        let last = match reader.read_bool() {
            Ok(v) => v,
            Err(e) => {
                return Err(e);
            },
        };
        let kind = match reader.read_u8_bits(7) {
            Ok(v) => v,
            Err(e) => {
                return Err(e);
            },
        };
        let length = match reader.read_u32_bits(24) {
            Ok(v) => v,
            Err(e) => {
                return Err(e);
            },
        };
        proof {
            reader.lemma_wf();
            assert(bits_val(d, p, 1) == bit_at(d, p)) by {
                assert(bits_val(d, p, 0) == 0);
            }
        }
        Ok(MetadataHeader { last, kind: MetadataType::from_code(kind), length_in_bytes: length as usize })
    }

    /// Skips the block's body.
    pub fn skip_body(&self, reader: &mut BitReader) -> (r: Result<(), Error>)
        requires
            old(reader).wf(),
            self.length_in_bytes < 0x100_0000,
        ensures
            final(reader).keeps(old(reader)),
            8 * self.length_in_bytes <= old(reader).bits_left() <==> r is Ok,
            r is Ok ==> final(reader).bit_pos() == old(reader).bit_pos() + 8 * self.length_in_bytes,
            r is Err ==> r->Err_0.code == ErrorCode::UnexpectedEof,
    {
        let mut vec = Bitvec::new();
        let r = reader.read_bitvec(&mut vec, self.length_in_bytes * 8);
        proof {
            reader.lemma_wf();
        }
        r
    }
}

/// The stream's parameters, from its first metadata block.
#[derive(Debug, Clone, Copy, PartialEq, Eq, Structural)]
pub struct StreamInfo {
    pub min_block_size: usize,
    pub max_block_size: usize,
    pub min_frame_size: usize,
    pub max_frame_size: usize,
    pub sample_rate: usize,
    pub number_of_channels: usize,
    pub bits_per_sample: usize,
    pub total_samples: usize,
    pub signature: u128,
}

/// The stream information block body in the 272 bits at `p`.
pub open spec fn stream_info_at(d: Seq<u8>, p: int) -> StreamInfo {
    StreamInfo {
        min_block_size: bits_val(d, p, 16) as usize,
        max_block_size: bits_val(d, p + 16, 16) as usize,
        min_frame_size: bits_val(d, p + 32, 24) as usize,
        max_frame_size: bits_val(d, p + 56, 24) as usize,
        sample_rate: bits_val(d, p + 80, 20) as usize,
        number_of_channels: (bits_val(d, p + 100, 3) + 1) as usize,
        bits_per_sample: (bits_val(d, p + 103, 5) + 1) as usize,
        total_samples: bits_val(d, p + 108, 36) as usize,
        signature: bits_val(d, p + 144, 128) as u128,
    }
}

impl StreamInfo {
    /// Whether the fields lie in the ranges that their widths allow.
    pub open spec fn in_range(&self) -> bool {
        &&& 1 <= self.number_of_channels <= 8
        &&& 1 <= self.bits_per_sample <= 32
        &&& self.max_block_size < 0x1_0000
    }

    pub fn from_reader(reader: &mut BitReader) -> (r: Result<Self, Error>)
        requires
            old(reader).wf(),
        ensures
            final(reader).keeps(old(reader)),
            272 <= old(reader).bits_left() <==> r is Ok,
            r is Ok ==> r->Ok_0 == stream_info_at(old(reader).data(), old(reader).bit_pos())
                && r->Ok_0.in_range()
                && final(reader).bit_pos() == old(reader).bit_pos() + 272,
            r is Err ==> r->Err_0.code == ErrorCode::UnexpectedEof,
    {
        let ghost d = reader.data();
        let ghost p = reader.bit_pos();
        let min_block_size = match reader.read_u16() {
            Ok(v) => v,
            Err(e) => {
                return Err(e);
            },
        };
        let max_block_size = match reader.read_u16() {
            Ok(v) => v,
            Err(e) => {
                return Err(e);
            },
        };
        let min_frame_size = match reader.read_u32_bits(24) {
            Ok(v) => v,
            Err(e) => {
                return Err(e);
            },
        };
        let max_frame_size = match reader.read_u32_bits(24) {
            Ok(v) => v,
            Err(e) => {
                return Err(e);
            },
        };
        let sample_rate = match reader.read_u32_bits(20) {
            Ok(v) => v,
            Err(e) => {
                return Err(e);
            },
        };
        let channels = match reader.read_u8_bits(3) {
            Ok(v) => v,
            Err(e) => {
                return Err(e);
            },
        };
        let bits_per_sample = match reader.read_u8_bits(5) {
            Ok(v) => v,
            Err(e) => {
                return Err(e);
            },
        };
        let total_samples = match reader.read_u64_bits(36) {
            Ok(v) => v,
            Err(e) => {
                return Err(e);
            },
        };
        let signature = match reader.read_u128() {
            Ok(v) => v,
            Err(e) => {
                return Err(e);
            },
        };
        proof {
            reader.lemma_wf();
            lemma2_to64();
            lemma_bits_bound(d, p + 100, 3);
            lemma_bits_bound(d, p + 103, 5);
            lemma_bits_bound(d, p + 16, 16);
        }
        Ok(StreamInfo {
            min_block_size: min_block_size as usize,
            max_block_size: max_block_size as usize,
            min_frame_size: min_frame_size as usize,
            max_frame_size: max_frame_size as usize,
            sample_rate: sample_rate as usize,
            number_of_channels: (channels as usize) + 1,
            bits_per_sample: (bits_per_sample as usize) + 1,
            total_samples: total_samples as usize,
            signature,
        })
    }
}

} // verus!
