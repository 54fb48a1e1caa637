use vstd::prelude::*;
use crate::bits::{BitReader, bits_val};
use crate::error::{Error, ErrorCode};
use crate::frame::{Frame, FrameHeader, frame_at, channel_count, lemma_frame_lengths};
use crate::metadata::{MetadataHeader, MetadataType, StreamInfo, metadata_header_at, stream_info_at};

verus! {

/// The stream's magic number, "fLaC".
pub const FLAC_MAGIC: u32 = 0x664c_6143;

/// Where the chain of metadata blocks from `p` ends: each block is a 32-bit
/// header and a body of the length it gives; the chain ends after the block
/// marked last.
#[verifier::opaque]
pub open spec fn metadata_chain_end(d: Seq<u8>, p: int) -> Result<int, ErrorCode>
    decreases 8 * d.len() - p,
{
    if p + 32 > 8 * d.len() {
        Err(ErrorCode::UnexpectedEof)
    } else {
        let h = metadata_header_at(d, p);
        let q = p + 32 + 8 * h.length_in_bytes;
        if q > 8 * d.len() {
            Err(ErrorCode::UnexpectedEof)
        } else if h.last {
            Ok(q)
        } else {
            metadata_chain_end(d, q)
        }
    }
}

/// The opening of a stream at `p`: the magic number, then a first metadata
/// block that must hold the stream information, then any further blocks.
/// Gives the stream information and where the frames begin.
pub open spec fn stream_open_at(d: Seq<u8>, p: int) -> Result<(StreamInfo, int), ErrorCode> {
    let end = 8 * d.len();
    if p + 32 > end {
        Err(ErrorCode::UnexpectedEof)
    } else if bits_val(d, p, 32) != FLAC_MAGIC {
        Err(ErrorCode::WrongMagic)
    } else if p + 64 > end {
        Err(ErrorCode::UnexpectedEof)
    } else if metadata_header_at(d, p + 32).kind != MetadataType::StreamInfo {
        Err(ErrorCode::InvalidMetadataType)
    } else if p + 336 > end {
        Err(ErrorCode::UnexpectedEof)
    } else if metadata_header_at(d, p + 32).last {
        Ok((stream_info_at(d, p + 64), p + 336))
    } else {
        match metadata_chain_end(d, p + 336) {
            Err(e) => Err(e),
            Ok(q) => Ok((stream_info_at(d, p + 64), q)),
        }
    }
}

/// The first `k` frames from `p`, each as its header and channels, and where
/// they end; `None` where fewer than `k` frames decode.
pub open spec fn frames_prefix(d: Seq<u8>, p: int, bps: nat, nch: nat, k: nat) -> Option<(Seq<(FrameHeader, Seq<Seq<i32>>)>, int)>
    decreases k,
{
    if k == 0 {
        Some((Seq::empty(), p))
    } else {
        match frames_prefix(d, p, bps, nch, (k - 1) as nat) {
            None => None,
            Some((fs, q)) => match frame_at(d, q, bps, nch) {
                Ok(Some((h, chs, q2))) => Some((fs.push((h, chs)), q2)),
                _ => None,
            },
        }
    }
}

/// The frames from `p` decode, up to a clean end of the stream, to `frames`.
pub open spec fn decodes_to(d: Seq<u8>, p: int, bps: nat, nch: nat, frames: Seq<Frame>) -> bool {
    exists|k: nat|
        {
            &&& #[trigger] frames_prefix(d, p, bps, nch, k) is Some
            &&& frame_at(d, frames_prefix(d, p, bps, nch, k)->Some_0.1, bps, nch) == Ok::<Option<(FrameHeader, Seq<Seq<i32>>, int)>, ErrorCode>(None)
            &&& frames_match(frames, frames_prefix(d, p, bps, nch, k)->Some_0.0, nch)
        }
}

/// Decoding the frames from `p` stops at a frame that fails with `e`.
pub open spec fn fails_with(d: Seq<u8>, p: int, bps: nat, nch: nat, e: ErrorCode) -> bool {
    exists|k: nat|
        {
            &&& #[trigger] frames_prefix(d, p, bps, nch, k) is Some
            &&& frame_at(d, frames_prefix(d, p, bps, nch, k)->Some_0.1, bps, nch) == Err::<Option<(FrameHeader, Seq<Seq<i32>>, int)>, ErrorCode>(e)
        }
}

pub open spec fn frames_match(frames: Seq<Frame>, fs: Seq<(FrameHeader, Seq<Seq<i32>>)>, nch: nat) -> bool {
    &&& frames.len() == fs.len()
    &&& forall|i: int| 0 <= i < fs.len() ==> (#[trigger] frames[i]).holds(fs[i].0, fs[i].1, nch)
}

/// How many samples channel `c` holds over the frames `fs`.
pub open spec fn samples_in_channel(fs: Seq<(FrameHeader, Seq<Seq<i32>>)>, c: int) -> nat
    decreases fs.len(),
{
    if fs.len() == 0 {
        0
    } else {
        samples_in_channel(fs.drop_last(), c) + fs.last().1[c].len()
    }
}

/// The sum of the block sizes of the frames `fs`.
pub open spec fn total_block_size(fs: Seq<(FrameHeader, Seq<Seq<i32>>)>) -> nat
    decreases fs.len(),
{
    if fs.len() == 0 {
        0
    } else {
        total_block_size(fs.drop_last()) + fs.last().0.block_size as nat
    }
}

/// Over any run of decoded frames, every channel that each frame holds
/// delivers exactly as many samples as the frames' block sizes add up to.
pub proof fn lemma_samples_per_channel(d: Seq<u8>, p: int, bps: nat, nch: nat, k: nat, c: int)
    requires
        frames_prefix(d, p, bps, nch, k) is Some,
        forall|i: int| 0 <= i < frames_prefix(d, p, bps, nch, k)->Some_0.0.len() ==> 0 <= c < channel_count(
            (#[trigger] frames_prefix(d, p, bps, nch, k)->Some_0.0[i]).0.channel_assignment,
        ),
    ensures
        samples_in_channel(frames_prefix(d, p, bps, nch, k)->Some_0.0, c) == total_block_size(
            frames_prefix(d, p, bps, nch, k)->Some_0.0,
        ),
    decreases k,
{
    if k > 0 {
        let (fs0, q) = frames_prefix(d, p, bps, nch, (k - 1) as nat)->Some_0;
        let fs = frames_prefix(d, p, bps, nch, k)->Some_0.0;
        assert(fs.drop_last() =~= fs0);
        assert forall|i: int| 0 <= i < fs0.len() implies 0 <= c < channel_count((#[trigger] fs0[i]).0.channel_assignment) by {
            assert(fs0[i] == fs[i]);
        }
        lemma_samples_per_channel(d, p, bps, nch, (k - 1) as nat, c);
        lemma_frame_lengths(d, q, bps, nch);
        assert(0 <= c < channel_count(fs[fs.len() - 1].0.channel_assignment));
    }
}

/// A set of empty channel buffers, each with room for `capacity` samples.
fn new_buffers(channels: usize, capacity: usize) -> (r: Vec<Vec<i32>>)
    ensures
        r@.len() == channels,
{
    let mut blocks: Vec<Vec<i32>> = Vec::new();
    let mut c: usize = 0;
    while c < channels
        invariant
            c <= channels,
            blocks@.len() == c,
        decreases channels - c,
    {
        blocks.push(Vec::with_capacity(capacity));
        c = c + 1;
    }
    blocks
}

/// Skips metadata blocks up to and including the one marked last.
fn skip_metadata_blocks(reader: &mut BitReader) -> (r: Result<(), Error>)
    requires
        old(reader).wf(),
    ensures
        final(reader).keeps(old(reader)),
        match metadata_chain_end(old(reader).data(), old(reader).bit_pos()) {
            Ok(q) => r is Ok && final(reader).bit_pos() == q,
            Err(e) => r is Err && r->Err_0.code == e,
        },
        r is Ok ==> (final(reader).bit_pos() - old(reader).bit_pos()) % 8 == 0,
{
    let ghost d = reader.data();
    let ghost mut m: nat = 0;
    loop
        invariant
            reader.bit_pos() == old(reader).bit_pos() + 8 * m,
            reader.keeps(old(reader)),
            d == old(reader).data(),
            metadata_chain_end(d, old(reader).bit_pos()) == metadata_chain_end(d, reader.bit_pos()),
        decreases reader.bits_left(),
    {
        proof {
            reader.lemma_wf();
        }
        reveal(metadata_chain_end);
        let ghost q = reader.bit_pos();
        let next = match MetadataHeader::from_reader(reader) {
            Ok(h) => h,
            Err(e) => {
                return Err(e);
            },
        };
        proof {
            vstd::arithmetic::power2::lemma2_to64();
            crate::bits::lemma_bits_bound(d, q + 8, 24);
        }
        match next.skip_body(reader) {
            Ok(()) => {},
            Err(e) => {
                return Err(e);
            },
        }
        proof {
            reader.lemma_wf();
            m = (m + 4 + next.length_in_bytes) as nat;
        }
        if next.last {
            proof {
                vstd::arithmetic::div_mod::lemma_mod_multiples_basic(m as int, 8);
                assert(reader.bit_pos() - old(reader).bit_pos() == m * 8);
            }
            return Ok(());
        }
    }
}

/// An opened stream.
pub struct Stream {
    pub stream_info: StreamInfo,
}

impl Stream {
    /// Reads the magic number and the metadata blocks.
    #[verifier::rlimit(50)]
    pub fn new(reader: &mut BitReader) -> (r: Result<Self, Error>)
        requires
            old(reader).wf(),
        ensures
            final(reader).keeps(old(reader)),
            match stream_open_at(old(reader).data(), old(reader).bit_pos()) {
                Ok((info, q)) => r is Ok && r->Ok_0.stream_info == info && r->Ok_0.stream_info.in_range()
                    && final(reader).bit_pos() == q && (old(reader).aligned() ==> final(reader).aligned()),
                Err(e) => r is Err && r->Err_0.code == e,
            },
    {
        let ghost d = reader.data();
        let ghost p = reader.bit_pos();
        proof {
            reader.lemma_wf();
        }
        let magic = match reader.read_u32() {
            Ok(v) => v,
            Err(e) => {
                return Err(e);
            },
        };
        proof {
            reader.lemma_wf();
        }
        if magic != FLAC_MAGIC {
            return Err(Error::from_code(ErrorCode::WrongMagic));
        }
        let header = match MetadataHeader::from_reader(reader) {
            Ok(h) => h,
            Err(e) => {
                return Err(e);
            },
        };
        if header.kind != MetadataType::StreamInfo {
            return Err(Error::from_code(ErrorCode::InvalidMetadataType));
        }
        let stream_info = match StreamInfo::from_reader(reader) {
            Ok(s) => s,
            Err(e) => {
                return Err(e);
            },
        };
        let ghost after_info = reader.bit_pos();
        if !header.last {
            match skip_metadata_blocks(reader) {
                Ok(()) => {},
                Err(e) => {
                    return Err(e);
                },
            }
        }
        proof {
            let diff = reader.bit_pos() - after_info;
            assert(diff % 8 == 0);
            vstd::arithmetic::div_mod::lemma_fundamental_div_mod(diff, 8);
            if p % 8 == 0 {
                vstd::arithmetic::div_mod::lemma_fundamental_div_mod(p, 8);
                let k = p / 8 + 42 + diff / 8;
                assert(reader.bit_pos() == k * 8);
                vstd::arithmetic::div_mod::lemma_mod_multiples_basic(k, 8);
            }
        }
        proof {
            reader.lemma_aligned();
            old(reader).lemma_aligned();
        }
        Ok(Stream { stream_info })
    }

    /// Decodes every frame up to the end of the stream.
    #[verifier::rlimit(60)]
    pub fn decode_frames(&self, reader: &mut BitReader) -> (r: Result<Vec<Frame>, Error>)
        requires
            old(reader).wf(),
            old(reader).aligned(),
            self.stream_info.in_range(),
        ensures
            final(reader).wf(),
            final(reader).data() == old(reader).data(),
            r is Ok ==> decodes_to(
                old(reader).data(),
                old(reader).bit_pos(),
                self.stream_info.bits_per_sample as nat,
                self.stream_info.number_of_channels as nat,
                r->Ok_0@,
            ),
            r is Err ==> fails_with(
                old(reader).data(),
                old(reader).bit_pos(),
                self.stream_info.bits_per_sample as nat,
                self.stream_info.number_of_channels as nat,
                r->Err_0.code,
            ),
    {
        let ghost d = reader.data();
        let ghost p = reader.bit_pos();
        let ghost bps = self.stream_info.bits_per_sample as nat;
        let ghost nch = self.stream_info.number_of_channels as nat;
        let mut frames: Vec<Frame> = Vec::new();
        let ghost mut k: nat = 0;
        let ghost mut fs: Seq<(FrameHeader, Seq<Seq<i32>>)> = Seq::empty();
        loop
            invariant
                reader.wf(),
                reader.aligned(),
                reader.data() == d,
                d == old(reader).data(),
                p == old(reader).bit_pos(),
                bps == self.stream_info.bits_per_sample,
                nch == self.stream_info.number_of_channels,
                self.stream_info.in_range(),
                frames_prefix(d, p, bps, nch, k) == Some((fs, reader.bit_pos())),
                frames_match(frames@, fs, nch),
            decreases reader.bits_left(),
        {
            proof {
                reader.lemma_wf();
            }
            let blocks = new_buffers(self.stream_info.number_of_channels, self.stream_info.max_block_size);
            let ghost before = frames@;
            match Frame::from_reader(reader, &self.stream_info, blocks) {
                Ok(Some(frame)) => {
                    proof {
                        let (h, chs, q) = frame_at(d, frames_prefix(d, p, bps, nch, k)->Some_0.1, bps, nch)->Ok_0->Some_0;
                        fs = fs.push((h, chs));
                        k = k + 1;
                    }
                    frames.push(frame);
                    proof {
                        assert forall|i: int| 0 <= i < fs.len() implies (#[trigger] frames@[i]).holds(fs[i].0, fs[i].1, nch) by {
                            if i < fs.len() - 1 {
                                assert(frames@[i] == before[i]);
                            }
                        }
                    }
                },
                Ok(None) => {
                    proof {
                        assert(frames_prefix(d, p, bps, nch, k) is Some);
                    }
                    return Ok(frames);
                },
                Err(e) => {
                    proof {
                        assert(frames_prefix(d, p, bps, nch, k) is Some);
                    }
                    return Err(e);
                },
            }
        }
    }
}

} // verus!
