use flac::bits::BitReader;
use flac::decode::DecodingReadProxy;
use flac::error::ErrorCode;
use flac::frame::{ChannelAssignment, Frame};
use flac::stream::Stream;

struct BitWriter {
    bits: Vec<bool>,
}

impl BitWriter {
    fn new() -> Self {
        BitWriter { bits: Vec::new() }
    }

    fn put(&mut self, v: u64, n: usize) {
        for i in (0..n).rev() {
            self.bits.push((v >> i) & 1 == 1);
        }
    }

    fn put_signed(&mut self, v: i64, n: usize) {
        let mask = if n == 64 { u64::MAX } else { (1u64 << n) - 1 };
        self.put((v as u64) & mask, n);
    }

    fn align(&mut self) {
        while self.bits.len() % 8 != 0 {
            self.bits.push(false);
        }
    }

    fn bytes(&self) -> Vec<u8> {
        let mut out = vec![0u8; (self.bits.len() + 7) / 8];
        for (i, b) in self.bits.iter().enumerate() {
            if *b {
                out[i / 8] |= 0x80 >> (i % 8);
            }
        }
        out
    }
}

fn crc8(data: &[u8]) -> u8 {
    let mut c: u8 = 0;
    for b in data {
        c ^= *b;
        for _ in 0..8 {
            c = if c & 0x80 != 0 { (c << 1) ^ 0x07 } else { c << 1 };
        }
    }
    c
}

fn crc16(data: &[u8]) -> u16 {
    let mut c: u16 = 0;
    for b in data {
        c ^= (*b as u16) << 8;
        for _ in 0..8 {
            c = if c & 0x8000 != 0 { (c << 1) ^ 0x8005 } else { c << 1 };
        }
    }
    c
}

/// The stream header: magic, then one stream information block marked last.
fn stream_header(channels: u64, bps: u64, block: u64, total: u64, md5: [u8; 16]) -> Vec<u8> {
    let mut w = BitWriter::new();
    w.put(0x664c6143, 32);
    w.put(1, 1);
    w.put(0, 7);
    w.put(34, 24);
    w.put(block, 16);
    w.put(block, 16);
    w.put(0, 24);
    w.put(0, 24);
    w.put(44100, 20);
    w.put(channels - 1, 3);
    w.put(bps - 1, 5);
    w.put(total, 36);
    for b in md5 {
        w.put(b as u64, 8);
    }
    w.bytes()
}

/// One frame with an inline 8-bit block size, 16-bit samples and the given
/// channel code, whose subframes `body` writes.
fn frame(channel_code: u64, block: u64, body: &dyn Fn(&mut BitWriter)) -> Vec<u8> {
    let mut w = BitWriter::new();
    w.put(0x3ffe, 14);
    w.put(0, 1);
    w.put(0, 1);
    w.put(0b0110, 4);
    w.put(0, 4);
    w.put(channel_code, 4);
    w.put(0b100, 3);
    w.put(0, 1);
    w.put(0, 8);
    w.put(block - 1, 8);
    let head = w.bytes();
    w.put(crc8(&head) as u64, 8);
    body(&mut w);
    w.align();
    let all = w.bytes();
    w.put(crc16(&all) as u64, 16);
    w.bytes()
}

fn verbatim(w: &mut BitWriter, samples: &[i64], bps: usize) {
    w.put(0, 1);
    w.put(0b000001, 6);
    w.put(0, 1);
    for s in samples {
        w.put_signed(*s, bps);
    }
}

fn decode(bytes: &[u8]) -> (Stream, Result<Vec<Frame>, flac::error::Error>) {
    let mut reader = BitReader::new(DecodingReadProxy::new(bytes));
    let stream = Stream::new(&mut reader).unwrap();
    let frames = stream.decode_frames(&mut reader);
    (stream, frames)
}

fn mono_samples() -> Vec<i64> {
    (0..40).map(|i: i64| (i * 1237 % 2001) - 1000).collect()
}

#[test]
fn magic_opens_the_stream() {
    let bytes = stream_header(1, 16, 40, 0, [0; 16]);
    let mut reader = BitReader::new(DecodingReadProxy::new(&bytes));
    let stream = Stream::new(&mut reader).unwrap();
    assert_eq!(stream.stream_info.number_of_channels, 1);
    assert_eq!(stream.stream_info.bits_per_sample, 16);
    assert_eq!(stream.stream_info.sample_rate, 44100);
    assert_eq!(stream.stream_info.max_block_size, 40);
}

#[test]
fn wrong_magic_is_refused() {
    let mut bytes = stream_header(1, 16, 40, 0, [0; 16]);
    bytes[3] = 0x44;
    let mut reader = BitReader::new(DecodingReadProxy::new(&bytes));
    let err = Stream::new(&mut reader).err().unwrap();
    assert_eq!(err.code, ErrorCode::WrongMagic);
}

#[test]
fn first_block_must_hold_stream_info() {
    let mut bytes = stream_header(1, 16, 40, 0, [0; 16]);
    bytes[4] = 0x81;
    let mut reader = BitReader::new(DecodingReadProxy::new(&bytes));
    let err = Stream::new(&mut reader).err().unwrap();
    assert_eq!(err.code, ErrorCode::InvalidMetadataType);
}

#[test]
fn further_metadata_blocks_are_skipped() {
    let mut bytes = stream_header(1, 16, 40, 0, [0; 16]);
    // clear the last flag and add a padding block of five bytes
    bytes[4] = 0x00;
    bytes.extend_from_slice(&[0x81, 0, 0, 5, 9, 9, 9, 9, 9]);
    let samples = mono_samples();
    bytes.extend(frame(0, 40, &|w| verbatim(w, &samples, 16)));
    let (_, frames) = decode(&bytes);
    let frames = frames.unwrap();
    assert_eq!(frames.len(), 1);
    assert_eq!(frames[0].blocks[0].len(), 40);
}

#[test]
fn mono_stream_decodes_to_its_samples_and_signature() {
    let samples = mono_samples();
    let mut pcm = Vec::new();
    for s in &samples {
        pcm.extend_from_slice(&(*s as i16).to_le_bytes());
    }
    let digest = md5::compute(&pcm);
    let mut bytes = stream_header(1, 16, 40, samples.len() as u64, digest.0);
    bytes.extend(frame(0, 20, &|w| verbatim(w, &samples[..20], 16)));
    bytes.extend(frame(0, 20, &|w| verbatim(w, &samples[20..], 16)));
    let (stream, frames) = decode(&bytes);
    let frames = frames.unwrap();
    let decoded: Vec<i32> = frames.iter().flat_map(|f| f.blocks[0].iter().copied()).collect();
    assert_eq!(decoded.len(), samples.len());
    assert_eq!(decoded.len() as usize, stream.stream_info.total_samples);
    let mut out = Vec::new();
    for s in &decoded {
        out.extend_from_slice(&(*s as i16).to_le_bytes());
    }
    assert_eq!(md5::compute(&out).0, stream.stream_info.signature.to_be_bytes());
}

#[test]
fn mid_side_frame_restores_left_and_right() {
    let left: Vec<i64> = vec![5, -3, 1000, -32768, 32767, 0, 7, -8];
    let right: Vec<i64> = vec![2, 4, -999, 32767, -32768, 1, 7, 9];
    let mid: Vec<i64> = left.iter().zip(&right).map(|(l, r)| (l + r) >> 1).collect();
    let side: Vec<i64> = left.iter().zip(&right).map(|(l, r)| l - r).collect();
    let mut bytes = stream_header(2, 16, 8, 8, [0; 16]);
    bytes.extend(frame(0b1010, 8, &|w| {
        verbatim(w, &mid, 16);
        verbatim(w, &side, 17);
    }));
    let (_, frames) = decode(&bytes);
    let frames = frames.unwrap();
    assert_eq!(frames[0].header.channel_assignment, ChannelAssignment::MidSideStereo);
    let l: Vec<i64> = frames[0].blocks[0].iter().map(|x| *x as i64).collect();
    let r: Vec<i64> = frames[0].blocks[1].iter().map(|x| *x as i64).collect();
    assert_eq!(l, left);
    assert_eq!(r, right);
}

#[test]
fn left_side_and_side_right_frames() {
    let left: Vec<i64> = vec![10, -20, 30];
    let right: Vec<i64> = vec![1, 2, -3];
    let side: Vec<i64> = left.iter().zip(&right).map(|(l, r)| l - r).collect();
    let mut bytes = stream_header(2, 16, 3, 6, [0; 16]);
    bytes.extend(frame(0b1000, 3, &|w| {
        verbatim(w, &left, 16);
        verbatim(w, &side, 17);
    }));
    bytes.extend(frame(0b1001, 3, &|w| {
        verbatim(w, &side, 17);
        verbatim(w, &right, 16);
    }));
    let (_, frames) = decode(&bytes);
    let frames = frames.unwrap();
    for f in &frames {
        assert_eq!(f.blocks[0], vec![10, -20, 30]);
        assert_eq!(f.blocks[1], vec![1, 2, -3]);
    }
}

#[test]
fn fixed_predictor_with_zero_residuals_extends_a_line() {
    let mut bytes = stream_header(1, 16, 10, 10, [0; 16]);
    bytes.extend(frame(0, 10, &|w| {
        w.put(0, 1);
        w.put(0b001010, 6); // fixed, order 2
        w.put(0, 1);
        w.put_signed(10, 16);
        w.put_signed(13, 16);
        w.put(0b00, 2); // Rice, 4-bit parameter
        w.put(0, 4); // one partition
        w.put(0, 4); // parameter 0
        for _ in 0..8 {
            w.put(1, 1); // residual 0
        }
    }));
    let (_, frames) = decode(&bytes);
    let frames = frames.unwrap();
    assert_eq!(frames[0].blocks[0], vec![10, 13, 16, 19, 22, 25, 28, 31, 34, 37]);
}

#[test]
fn fir_predictor_with_escaped_partition() {
    let mut bytes = stream_header(1, 16, 6, 6, [0; 16]);
    bytes.extend(frame(0, 6, &|w| {
        w.put(0, 1);
        w.put(0b100000, 6); // linear prediction, order 1
        w.put(0, 1);
        w.put_signed(100, 16); // warm-up
        w.put(0b0011, 4); // precision 4
        w.put_signed(1, 5); // shift 1
        w.put_signed(2, 4); // coefficient 2: x[i] = r[i] + (2 * x[i-1]) >> 1
        w.put(0b00, 2);
        w.put(0, 4);
        w.put(0b1111, 4); // escape
        w.put(6, 5); // raw residuals of 6 bits
        for r in [1i64, -1, 0, 5, -32] {
            w.put_signed(r, 6);
        }
    }));
    let (_, frames) = decode(&bytes);
    let frames = frames.unwrap();
    assert_eq!(frames[0].blocks[0], vec![100, 101, 100, 100, 105, 73]);
}

#[test]
fn constant_subframe_with_wasted_bits() {
    let mut bytes = stream_header(1, 16, 4, 4, [0; 16]);
    bytes.extend(frame(0, 4, &|w| {
        w.put(0, 1);
        w.put(0b000000, 6); // constant
        w.put(1, 1);
        w.put(0b01, 2); // two wasted bits
        w.put_signed(-3, 14);
    }));
    let (_, frames) = decode(&bytes);
    assert_eq!(frames.unwrap()[0].blocks[0], vec![-12, -12, -12, -12]);
}

#[test]
fn corrupt_header_crc_is_refused() {
    let samples = mono_samples();
    let mut bytes = stream_header(1, 16, 40, 0, [0; 16]);
    let start = bytes.len();
    bytes.extend(frame(0, 40, &|w| verbatim(w, &samples, 16)));
    bytes[start + 6] ^= 0xff;
    let (_, frames) = decode(&bytes);
    assert_eq!(frames.err().unwrap().code, ErrorCode::FrameHeaderCrcMismatch);
}

#[test]
fn corrupt_frame_crc_is_refused() {
    let samples = mono_samples();
    let mut bytes = stream_header(1, 16, 40, 0, [0; 16]);
    bytes.extend(frame(0, 40, &|w| verbatim(w, &samples, 16)));
    let n = bytes.len();
    bytes[n - 1] ^= 0x01;
    let (_, frames) = decode(&bytes);
    assert_eq!(frames.err().unwrap().code, ErrorCode::FrameCrcMismatch);
}

#[test]
fn lost_sync_is_refused() {
    let mut bytes = stream_header(1, 16, 40, 0, [0; 16]);
    bytes.extend_from_slice(&[0x12, 0x34, 0x56]);
    let (_, frames) = decode(&bytes);
    assert_eq!(frames.err().unwrap().code, ErrorCode::FrameOutOfSync);
}

#[test]
fn too_many_channels_for_the_buffers() {
    let samples = mono_samples();
    let mut bytes = stream_header(1, 16, 40, 0, [0; 16]);
    bytes.extend(frame(1, 40, &|w| {
        verbatim(w, &samples, 16);
        verbatim(w, &samples, 16);
    }));
    let (_, frames) = decode(&bytes);
    assert_eq!(frames.err().unwrap().code, ErrorCode::FrameBufferUnallocated);
}

#[test]
fn unknown_codes_are_refused() {
    let samples = mono_samples();
    let mut bytes = stream_header(1, 16, 40, 0, [0; 16]);
    bytes.extend(frame(0b1011, 40, &|w| verbatim(w, &samples, 16)));
    let (_, frames) = decode(&bytes);
    assert_eq!(frames.err().unwrap().code, ErrorCode::FrameChannelAssignmentUnknown);

    let mut bytes = stream_header(1, 16, 40, 0, [0; 16]);
    bytes.extend(frame(0, 40, &|w| {
        w.put(0, 1);
        w.put(0b000010, 6); // reserved type
        w.put(0, 1);
    }));
    let (_, frames) = decode(&bytes);
    assert_eq!(frames.err().unwrap().code, ErrorCode::SubframeReservedType);

    let mut bytes = stream_header(1, 16, 40, 0, [0; 16]);
    bytes.extend(frame(0, 40, &|w| {
        w.put(0, 1);
        w.put(0b001101, 6); // fixed, order 5
        w.put(0, 1);
    }));
    let (_, frames) = decode(&bytes);
    assert_eq!(frames.err().unwrap().code, ErrorCode::FixedLPCCoefficientUnknown);

    let mut bytes = stream_header(1, 16, 40, 0, [0; 16]);
    bytes.extend(frame(0, 40, &|w| {
        w.put(1, 1); // padding bit set
        w.put(0, 7);
    }));
    let (_, frames) = decode(&bytes);
    assert_eq!(frames.err().unwrap().code, ErrorCode::SubframeOutOfSync);
}

#[test]
fn residual_and_precision_errors() {
    let mut bytes = stream_header(1, 16, 8, 0, [0; 16]);
    bytes.extend(frame(0, 8, &|w| {
        w.put(0, 1);
        w.put(0b001001, 6); // fixed, order 1
        w.put(0, 1);
        w.put_signed(1, 16);
        w.put(0b10, 2); // reserved coding method
    }));
    let (_, frames) = decode(&bytes);
    assert_eq!(frames.err().unwrap().code, ErrorCode::ResidualCodingMethodUnknown);

    let mut bytes = stream_header(1, 16, 8, 0, [0; 16]);
    bytes.extend(frame(0, 8, &|w| {
        w.put(0, 1);
        w.put(0b100000, 6); // linear prediction, order 1
        w.put(0, 1);
        w.put_signed(1, 16);
        w.put(0b1111, 4); // invalid precision
    }));
    let (_, frames) = decode(&bytes);
    assert_eq!(frames.err().unwrap().code, ErrorCode::QLPPrecisionInvalid);

    let mut bytes = stream_header(1, 16, 8, 0, [0; 16]);
    bytes.extend(frame(0, 8, &|w| {
        w.put(0, 1);
        w.put(0b100000, 6);
        w.put(0, 1);
        w.put_signed(1, 16);
        w.put(0b0011, 4);
        w.put_signed(-1, 5); // negative shift
    }));
    let (_, frames) = decode(&bytes);
    assert_eq!(frames.err().unwrap().code, ErrorCode::LPCSignalRestoreFailure);
}

#[test]
fn truncated_frame_fails_and_empty_tail_ends_cleanly() {
    let samples = mono_samples();
    let bytes = stream_header(1, 16, 40, 0, [0; 16]);
    let (_, frames) = decode(&bytes);
    assert_eq!(frames.unwrap().len(), 0);

    let mut bytes = stream_header(1, 16, 40, 0, [0; 16]);
    bytes.extend(frame(0, 40, &|w| verbatim(w, &samples, 16)));
    bytes.truncate(bytes.len() - 5);
    let (_, frames) = decode(&bytes);
    assert_eq!(frames.err().unwrap().code, ErrorCode::UnexpectedEof);
}
