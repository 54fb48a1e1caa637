use vstd::prelude::*;
use vstd::arithmetic::power2::{pow2, lemma_pow2_pos, lemma_pow2_adds, lemma_pow2_unfold, lemma2_to64};
use vstd::arithmetic::div_mod::{lemma_div_denominator, lemma_fundamental_div_mod_converse, lemma_div_pos_is_pos};
use vstd::arithmetic::mul::{lemma_mul_inequality};
use vstd::bits::{lemma_u64_shr_is_div, lemma_u64_shl_is_mul, lemma_u64_low_bits_mask_is_mod, low_bits_mask};
use crate::decode::DecodingReadProxy;
use crate::error::{Error, ErrorCode};
use crate::bitvec::Bitvec;
use crate::crc::{crc8_of, crc16_of};

verus! {

/// Bit `i` of a byte sequence, counting from the most significant bit of
/// the first byte.
pub open spec fn bit_at(d: Seq<u8>, i: int) -> nat {
    ((d[i / 8] as nat) / pow2((7 - i % 8) as nat)) % 2
}

/// The unsigned value of the `n` bits of `d` that start at bit `p`, read
/// most significant bit first.
pub open spec fn bits_val(d: Seq<u8>, p: int, n: nat) -> nat
    decreases n,
{
    if n == 0 {
        0
    } else {
        2 * bits_val(d, p, (n - 1) as nat) + bit_at(d, p + n - 1)
    }
}

/// The big-endian value of a byte sequence.
pub open spec fn be_val(s: Seq<u8>) -> nat
    decreases s.len(),
{
    if s.len() == 0 {
        0
    } else {
        be_val(s.drop_last()) * 256 + s.last() as nat
    }
}

/// A field of `a + b` bits is its first `a` bits followed by its last `b` bits.
pub proof fn lemma_bits_split(d: Seq<u8>, p: int, a: nat, b: nat)
    ensures
        bits_val(d, p, a + b) == bits_val(d, p, a) * pow2(b) + bits_val(d, p + a, b),
    decreases b,
{
    if b == 0 {
        lemma2_to64();
    } else {
        lemma_bits_split(d, p, a, (b - 1) as nat);
        lemma_pow2_unfold(b);
        let x = bits_val(d, p, a);
        let q = pow2((b - 1) as nat);
        assert(2 * (x * q) == x * (2 * q)) by (nonlinear_arith);
        assert(bits_val(d, p, a + b) == 2 * bits_val(d, p, (a + b - 1) as nat) + bit_at(d, p + a + b - 1));
        assert(bits_val(d, p + a, b) == 2 * bits_val(d, p + a, (b - 1) as nat) + bit_at(d, p + a + b - 1));
    }
}

/// The sum of a sequence of field widths.
pub open spec fn total_width(ws: Seq<nat>) -> nat
    decreases ws.len(),
{
    if ws.len() == 0 {
        0
    } else {
        total_width(ws.drop_last()) + ws.last()
    }
}

/// The values of consecutive reads of widths `ws` from bit `p`.
pub open spec fn read_chunks(d: Seq<u8>, p: int, ws: Seq<nat>) -> Seq<nat>
    decreases ws.len(),
{
    if ws.len() == 0 {
        Seq::empty()
    } else {
        read_chunks(d, p, ws.drop_last()).push(bits_val(d, p + total_width(ws.drop_last()), ws.last()))
    }
}

/// Values written one after another in the widths `ws`, as one number.
pub open spec fn concat_chunks(vals: Seq<nat>, ws: Seq<nat>) -> nat
    decreases ws.len(),
{
    if ws.len() == 0 || vals.len() == 0 {
        0
    } else {
        concat_chunks(vals.drop_last(), ws.drop_last()) * pow2(ws.last()) + vals.last()
    }
}

/// Reading a run of bits in chunks loses nothing: whatever the widths of
/// the chunks, the values read, put back together in those widths, are the
/// run of bits they were read from.
pub proof fn lemma_read_chunks_round_trip(d: Seq<u8>, p: int, ws: Seq<nat>)
    ensures
        read_chunks(d, p, ws).len() == ws.len(),
        concat_chunks(read_chunks(d, p, ws), ws) == bits_val(d, p, total_width(ws)),
    decreases ws.len(),
{
    if ws.len() > 0 {
        let init = ws.drop_last();
        lemma_read_chunks_round_trip(d, p, init);
        let vals = read_chunks(d, p, ws);
        assert(vals.drop_last() =~= read_chunks(d, p, init));
        lemma_bits_split(d, p, total_width(init), ws.last());
    }
}

/// A field of `n` bits is below `2^n`.
pub proof fn lemma_bits_bound(d: Seq<u8>, p: int, n: nat)
    ensures
        bits_val(d, p, n) < pow2(n),
    decreases n,
{
    if n == 0 {
        lemma2_to64();
    } else {
        lemma_bits_bound(d, p, (n - 1) as nat);
        lemma_pow2_unfold(n);
    }
}

proof fn lemma_div_step(x: nat, m: nat)
    ensures
        x / pow2(m) == 2 * (x / pow2(m + 1)) + (x / pow2(m)) % 2,
{
    lemma_pow2_pos(m);
    lemma_pow2_unfold(m + 1);
    lemma_div_denominator(x as int, pow2(m) as int, 2);
    assert(pow2(m) * 2 == 2 * pow2(m)) by (nonlinear_arith);
    lemma_div_pos_is_pos(x as int, pow2(m) as int);
    let y = x / pow2(m);
    assert(y == 2 * (y / 2) + y % 2);
}

proof fn lemma_byte_prefix(d: Seq<u8>, p: int, j: nat)
    requires
        0 <= p < d.len(),
        j <= 8,
    ensures
        bits_val(d, 8 * p, j) == (d[p] as nat) / pow2((8 - j) as nat),
    decreases j,
{
    if j == 0 {
        assert(pow2(8) == 256) by { lemma2_to64(); }
        assert((d[p] as nat) / 256 == 0);
    } else {
        lemma_byte_prefix(d, p, (j - 1) as nat);
        let i = 8 * p + j - 1;
        assert(i / 8 == p && i % 8 == j - 1) by {
            lemma_fundamental_div_mod_converse(i, 8, p, j - 1);
        }
        lemma_div_step(d[p] as nat, (8 - j) as nat);
    }
}

/// Eight bits that start on a byte boundary are that byte.
pub proof fn lemma_bits_byte(d: Seq<u8>, p: int)
    requires
        0 <= p < d.len(),
    ensures
        bits_val(d, 8 * p, 8) == d[p] as nat,
{
    lemma_byte_prefix(d, p, 8);
    lemma2_to64();
}

/// Whole bytes read as bits give their big-endian value.
pub proof fn lemma_bits_bytes(d: Seq<u8>, p: int, k: nat)
    requires
        0 <= p,
        p + k <= d.len(),
    ensures
        bits_val(d, 8 * p, 8 * k) == be_val(d.subrange(p, p + k)),
    decreases k,
{
    if k > 0 {
        lemma_bits_bytes(d, p, (k - 1) as nat);
        lemma_bits_split(d, 8 * p, (8 * (k - 1)) as nat, 8);
        lemma_bits_byte(d, p + k - 1);
        assert(pow2(8) == 256) by { lemma2_to64(); }
        assert(d.subrange(p, p + k).drop_last() =~= d.subrange(p, p + k - 1));
        assert(8 * p + 8 * (k - 1) == 8 * (p + k - 1));
        assert((8 * (k - 1)) as nat + 8 == 8 * k);
    } else {
        assert(d.subrange(p, p) =~= Seq::<u8>::empty());
    }
}


proof fn lemma_or_shifted(q: u64, a: u64, k: u64)
    requires
        k < 64,
        a < (1u64 << k),
    ensures
        (q << k) | a == ((q << k) + a) as u64,
{
    assert((q << k) | a == ((q << k) + a) as u64) by (bit_vector)
        requires
            k < 64,
            a < (1u64 << k),
    ;
}

proof fn lemma_one_shl(k: u64)
    requires
        k < 64,
    ensures
        (1u64 << k) == pow2(k as nat),
        ((1u64 << k) - 1) as u64 == low_bits_mask(k as nat) as u64,
{
    lemma2_to64();
    vstd::bits::lemma_u64_pow2_no_overflow(k as nat);
    lemma_u64_shl_is_mul(1, k);
}

/// How the bits of a read that crosses bytes split into the queued bits,
/// the whole bytes, and the head of the last byte.
proof fn lemma_bitvec_tail(d: Seq<u8>, bp: int, qc: nat, pos0: int, n_bits: nat, n_bytes: nat, remaining: nat, v: u8)
    requires
        0 <= pos0,
        pos0 + n_bytes <= d.len(),
        n_bytes >= 1,
        bp + qc == 8 * pos0,
        n_bytes * 8 == n_bits + remaining,
        remaining < 8,
        v == d[pos0 + n_bytes - 1],
    ensures
        ({
            let last = pos0 + n_bytes - 1;
            let tail_len = (8 - remaining) as nat;
            &&& v as nat / pow2(remaining) == bits_val(d, 8 * last, tail_len)
            &&& v as nat % pow2(remaining) == bits_val(d, 8 * last + tail_len, remaining)
            &&& bits_val(d, 8 * last, tail_len) < pow2(tail_len)
            &&& bits_val(d, 8 * last + tail_len, remaining) < pow2(remaining)
            &&& bits_val(d, 8 * pos0, (8 * (n_bytes - 1)) as nat) == be_val(d.subrange(pos0, pos0 + n_bytes - 1))
            &&& bits_val(d, bp, qc + n_bits) == (bits_val(d, bp, qc) * pow2(n_bits) + bits_val(d, 8 * pos0, (8 * (n_bytes - 1)) as nat) * pow2(tail_len) + bits_val(d, 8 * last, tail_len))
            &&& pow2(n_bits) == pow2((8 * (n_bytes - 1)) as nat) * pow2(tail_len)
            &&& pow2(qc + n_bits) == pow2(qc) * pow2(n_bits)
        }),
{
    let last = pos0 + n_bytes - 1;
    let tail_len = (8 - remaining) as nat;
    lemma_bits_byte(d, last);
    lemma_bits_split(d, 8 * last, tail_len, remaining);
    lemma_bits_bound(d, 8 * last, tail_len);
    lemma_bits_bound(d, 8 * last + tail_len, remaining);
    lemma_pow2_pos(remaining);
    lemma_fundamental_div_mod_converse(
        v as int,
        pow2(remaining) as int,
        bits_val(d, 8 * last, tail_len) as int,
        bits_val(d, 8 * last + tail_len, remaining) as int,
    );
    lemma_bits_bytes(d, pos0, (n_bytes - 1) as nat);
    lemma_bits_split(d, bp, qc, n_bits);
    assert(n_bits == 8 * (n_bytes - 1) + tail_len);
    lemma_bits_split(d, 8 * pos0, (8 * (n_bytes - 1)) as nat, tail_len);
    assert(8 * pos0 + 8 * (n_bytes - 1) == 8 * last);
    lemma_pow2_adds((8 * (n_bytes - 1)) as nat, tail_len);
    lemma_pow2_adds(qc, n_bits);
}

/// `2^k` as a machine integer.
pub fn pow2_u64(k: usize) -> (r: u64)
    requires
        k < 64,
    ensures
        r == pow2(k as nat),
{
    proof {
        lemma_one_shl(k as u64);
    }
    1u64 << (k as u64)
}

/// Splits a value of `a + b` bits into its high `a` and low `b` bits by
/// shift and mask.
proof fn lemma_shr_mask(v: u64, hi: nat, lo: nat, k: u64)
    requires
        k < 64,
        v == hi * pow2(k as nat) + lo,
        lo < pow2(k as nat),
    ensures
        v >> k == hi,
        v & (((1u64 << k) - 1) as u64) == lo,
{
    lemma_pow2_pos(k as nat);
    lemma_u64_shr_is_div(v, k);
    lemma_fundamental_div_mod_converse(v as int, pow2(k as nat) as int, hi as int, lo as int);
    lemma_one_shl(k);
    lemma_u64_low_bits_mask_is_mod(v, k as nat);
}

/// Reads bit fields of width 0 to 64, most significant bit first, from a
/// byte source, keeping the bits of a partly read byte in a queue.
pub struct BitReader {
    source: DecodingReadProxy,
    queue: u64,
    queue_count: usize,
}

impl BitReader {
    pub closed spec fn wf(&self) -> bool {
        &&& self.source.wf()
        &&& self.queue_count < 8
        &&& self.queue_count <= 8 * self.source.pos()
        &&& self.queue < pow2(self.queue_count as nat)
        &&& self.queue == bits_val(self.data(), self.bit_pos(), self.queue_count as nat)
    }

    /// The whole stream.
    pub closed spec fn data(&self) -> Seq<u8> {
        self.source.bytes()
    }

    /// How many bytes the source has handed out.
    pub closed spec fn byte_pos(&self) -> nat {
        self.source.pos()
    }

    /// The state of the source's CRC taps.
    pub closed spec fn taps(&self) -> (bool, nat, bool, nat) {
        self.source.taps()
    }

    /// How many bits have been read.
    pub closed spec fn bit_pos(&self) -> int {
        8 * self.source.pos() - self.queue_count
    }

    /// Whether the next bit starts a byte.
    pub closed spec fn aligned(&self) -> bool {
        self.queue_count == 0
    }

    /// How many bits are left.
    pub open spec fn bits_left(&self) -> int {
        8 * self.data().len() - self.bit_pos()
    }

    /// The value of the next `n` bits.
    pub open spec fn peek(&self, n: nat) -> nat {
        bits_val(self.data(), self.bit_pos(), n)
    }

    proof fn lemma_read_fits(&self, old: &BitReader, n: nat, w: nat)
        requires
            n <= w <= 64,
            self.keeps(old),
            self.bit_pos() == old.bit_pos() + n,
        ensures
            old.peek(n) < pow2(w),
    {
        lemma_bits_bound(old.data(), old.bit_pos(), n);
        if n < w {
            vstd::arithmetic::power2::lemma_pow2_strictly_increases(n, w);
        }
    }

    pub proof fn lemma_wf(&self)
        requires
            self.wf(),
        ensures
            0 <= self.bit_pos() <= 8 * self.byte_pos() < self.bit_pos() + 8,
            self.byte_pos() <= self.data().len() <= crate::decode::MAX_SOURCE_LEN,
            self.aligned() <==> self.bit_pos() == 8 * self.byte_pos(),
            self.bits_left() >= 0,
    {
        self.source.lemma_wf();
    }

    /// A reader is on a byte boundary exactly when it has read a whole
    /// number of bytes.
    pub proof fn lemma_aligned(&self)
        requires
            self.wf(),
        ensures
            self.aligned() <==> self.bit_pos() % 8 == 0,
    {
    }

    /// What a read of `n` bits keeps: the stream, the taps and the reader's
    /// well-formedness.
    pub open spec fn keeps(&self, old: &BitReader) -> bool {
        &&& self.wf()
        &&& self.data() == old.data()
        &&& self.taps() == old.taps()
        &&& self.bit_pos() >= old.bit_pos()
    }

    /// What a read of `n` bits that returned `r` did.
    pub open spec fn read_result(&self, old: &BitReader, n: nat, r: Result<u64, Error>) -> bool {
        &&& self.keeps(old)
        &&& n <= old.bits_left() ==> r is Ok
        &&& r is Ok ==> r->Ok_0 == old.peek(n) && self.bit_pos() == old.bit_pos() + n
        &&& r is Err ==> n > old.bits_left() && r->Err_0.code == ErrorCode::UnexpectedEof
    }

    pub fn new(source: DecodingReadProxy) -> (r: Self)
        requires
            source.wf(),
        ensures
            r.wf(),
            r.data() == source.bytes(),
            r.byte_pos() == source.pos(),
            r.taps() == source.taps(),
            r.bit_pos() == 8 * source.pos(),
            r.aligned(),
    {
        proof {
            lemma2_to64();
        }
        BitReader { source, queue: 0, queue_count: 0 }
    }

    /// Reads `n` bits as an unsigned value.
    #[verifier::rlimit(60)]
    pub fn read_value(&mut self, n: usize) -> (r: Result<u64, Error>)
        requires
            old(self).wf(),
            n <= 64,
        ensures
            final(self).read_result(old(self), n as nat, r),
    {
        let ghost d = self.data();
        let ghost bp = self.bit_pos();
        let ghost qc = self.queue_count as nat;
        let ghost pos0: int = self.source.pos() as int;
        proof {
            self.source.lemma_wf();
            lemma2_to64();
        }
        if n > self.queue_count {
            let n_bits: usize = n - self.queue_count;
            let n_bytes: usize = (n_bits - 1) / 8 + 1;
            let remaining: usize = n_bytes * 8 - n_bits;
            let bytes = match self.source.read_exact(n_bytes) {
                Ok(b) => b,
                Err(e) => {
                    return Err(e);
                },
            };
            proof {
                self.source.lemma_wf();
            }
            let mut loaded: u64 = 0;
            let mut i: usize = 0;
            while i < n_bytes
                invariant
                    i <= n_bytes <= 8,
                    bytes@.len() == n_bytes,
                    loaded == be_val(bytes@.take(i as int)),
                    loaded < pow2(8 * i as nat),
                decreases n_bytes - i,
            {
                proof {
                    assert(bytes@.take(i + 1).drop_last() =~= bytes@.take(i as int));
                    lemma_pow2_adds(8 * i as nat, 8);
                    lemma2_to64();
                    if i + 1 < 8 {
                        vstd::arithmetic::power2::lemma_pow2_strictly_increases(8 * (i + 1) as nat, 64);
                    }
                    lemma_mul_inequality(loaded as int, pow2(8 * i as nat) as int - 1, 256);
                }
                loaded = loaded * 256 + bytes[i] as u64;
                i = i + 1;
            }
            proof {
                assert(bytes@.take(n_bytes as int) =~= bytes@);
                lemma_bits_bytes(d, pos0, n_bytes as nat);
                lemma_bits_split(d, 8 * pos0, n_bits as nat, remaining as nat);
                lemma_bits_bound(d, 8 * pos0, n_bits as nat);
                lemma_bits_bound(d, 8 * pos0 + n_bits, remaining as nat);
                lemma_shr_mask(
                    loaded,
                    bits_val(d, 8 * pos0, n_bits as nat),
                    bits_val(d, 8 * pos0 + n_bits, remaining as nat),
                    remaining as u64,
                );
                lemma_bits_split(d, bp, qc, n_bits as nat);
                lemma_pow2_adds(qc, n_bits as nat);
            }
            let low = loaded >> (remaining as u64);
            let dequeued: u64 = if n_bits < 64 {
                proof {
                    lemma_pow2_pos(n_bits as nat);
                    lemma_mul_inequality(self.queue as int, pow2(qc) as int - 1, pow2(n_bits as nat) as int);
                    if n < 64 {
                        vstd::arithmetic::power2::lemma_pow2_strictly_increases(n as nat, 64);
                    }
                    let qq = self.queue as int;
                    let pq = pow2(qc) as int;
                    let pn = pow2(n_bits as nat) as int;
                    assert((pq - 1) * pn == pq * pn - pn) by (nonlinear_arith);
                    assert(qq * pn <= 0xffff_ffff_ffff_ffff);
                    lemma_u64_shl_is_mul(self.queue, n_bits as u64);
                }
                self.queue << (n_bits as u64)
            } else {
                0
            };
            proof {
                if n_bits < 64 {
                    lemma_bits_bound(d, 8 * pos0, n_bits as nat);
                    lemma_one_shl(n_bits as u64);
                    lemma_or_shifted(self.queue, low, n_bits as u64);
                } else {
                    assert(0u64 | low == low) by (bit_vector);
                }
            }
            let result = dequeued | low;
            proof {
                lemma_one_shl(remaining as u64);
            }
            self.queue = loaded & ((1u64 << (remaining as u64)) - 1);
            self.queue_count = remaining;
            proof {
                assert(self.bit_pos() == bp + n);
                assert(result == bits_val(d, bp, n as nat));
                assert(self.wf());
            }
            Ok(result)
        } else {
            let remaining: usize = self.queue_count - n;
            let queue = self.queue;
            proof {
                lemma_bits_split(d, bp, n as nat, remaining as nat);
                lemma_bits_bound(d, bp + n, remaining as nat);
                lemma_shr_mask(queue, bits_val(d, bp, n as nat), bits_val(d, bp + n, remaining as nat), remaining as u64);
                lemma_one_shl(remaining as u64);
            }
            let result = queue >> (remaining as u64);
            self.queue = queue & ((1u64 << (remaining as u64)) - 1);
            self.queue_count = remaining;
            Ok(result)
        }
    }

    /// Reads one bit.
    pub fn read_bool(&mut self) -> (r: Result<bool, Error>)
        requires
            old(self).wf(),
        ensures
            final(self).read_result(old(self), 1, lift_bool(r)),
    {
        let value = match self.read_value(1) {
            Ok(v) => v,
            Err(e) => {
                return Err(e);
            },
        };
        proof {
            self.lemma_read_fits(old(self), 1, 1);
            lemma2_to64();
        }
        Ok(value == 1)
    }

    /// Reads `n <= 8` bits.
    pub fn read_u8_bits(&mut self, n: usize) -> (r: Result<u8, Error>)
        requires
            old(self).wf(),
            n <= 8,
        ensures
            final(self).read_result(old(self), n as nat, lift8(r)),
    {
        let value = match self.read_value(n) {
            Ok(v) => v,
            Err(e) => {
                return Err(e);
            },
        };
        proof {
            self.lemma_read_fits(old(self), n as nat, 8);
            lemma2_to64();
        }
        Ok(value as u8)
    }

    pub fn read_u8(&mut self) -> (r: Result<u8, Error>)
        requires
            old(self).wf(),
        ensures
            final(self).read_result(old(self), 8, lift8(r)),
    {
        self.read_u8_bits(8)
    }

    /// Reads `n <= 16` bits.
    pub fn read_u16_bits(&mut self, n: usize) -> (r: Result<u16, Error>)
        requires
            old(self).wf(),
            n <= 16,
        ensures
            final(self).read_result(old(self), n as nat, lift16(r)),
    {
        let value = match self.read_value(n) {
            Ok(v) => v,
            Err(e) => {
                return Err(e);
            },
        };
        proof {
            self.lemma_read_fits(old(self), n as nat, 16);
            lemma2_to64();
        }
        Ok(value as u16)
    }

    pub fn read_u16(&mut self) -> (r: Result<u16, Error>)
        requires
            old(self).wf(),
        ensures
            final(self).read_result(old(self), 16, lift16(r)),
    {
        self.read_u16_bits(16)
    }

    /// Reads `n <= 32` bits.
    pub fn read_u32_bits(&mut self, n: usize) -> (r: Result<u32, Error>)
        requires
            old(self).wf(),
            n <= 32,
        ensures
            final(self).read_result(old(self), n as nat, lift32(r)),
    {
        let value = match self.read_value(n) {
            Ok(v) => v,
            Err(e) => {
                return Err(e);
            },
        };
        proof {
            self.lemma_read_fits(old(self), n as nat, 32);
            lemma2_to64();
        }
        Ok(value as u32)
    }

    pub fn read_u32(&mut self) -> (r: Result<u32, Error>)
        requires
            old(self).wf(),
        ensures
            final(self).read_result(old(self), 32, lift32(r)),
    {
        self.read_u32_bits(32)
    }

    /// Reads `n <= 64` bits.
    pub fn read_u64_bits(&mut self, n: usize) -> (r: Result<u64, Error>)
        requires
            old(self).wf(),
            n <= 64,
        ensures
            final(self).read_result(old(self), n as nat, r),
    {
        self.read_value(n)
    }

    pub fn read_u64(&mut self) -> (r: Result<u64, Error>)
        requires
            old(self).wf(),
        ensures
            final(self).read_result(old(self), 64, r),
    {
        self.read_value(64)
    }

    /// Reads 128 bits as two reads of 64.
    pub fn read_u128(&mut self) -> (r: Result<u128, Error>)
        requires
            old(self).wf(),
        ensures
            final(self).keeps(old(self)),
            128 <= old(self).bits_left() ==> r is Ok,
            r is Ok ==> r->Ok_0 == old(self).peek(128) && final(self).bit_pos() == old(
                self,
            ).bit_pos() + 128,
            r is Err ==> 128 > old(self).bits_left() && r->Err_0.code == ErrorCode::UnexpectedEof,
    {
        let hi = match self.read_value(64) {
            Ok(v) => v,
            Err(e) => {
                return Err(e);
            },
        };
        let lo = match self.read_value(64) {
            Ok(v) => v,
            Err(e) => {
                return Err(e);
            },
        };
        proof {
            lemma2_to64();
            lemma_bits_split(old(self).data(), old(self).bit_pos(), 64, 64);
        }
        Ok((hi as u128) * 0x1_0000_0000_0000_0000u128 + (lo as u128))
    }

    /// Whether no bit is left.
    pub fn at_end(&self) -> (r: bool)
        requires
            self.wf(),
        ensures
            r == (self.bits_left() == 0),
    {
        self.queue_count == 0 && self.source.remaining() == 0
    }

    /// Discards the bits left of a partly read byte.
    pub fn align_to_byte(&mut self)
        requires
            old(self).wf(),
        ensures
            final(self).keeps(old(self)),
            final(self).aligned(),
            final(self).byte_pos() == old(self).byte_pos(),
            final(self).bit_pos() == 8 * old(self).byte_pos(),
    {
        proof {
            lemma2_to64();
        }
        self.queue = 0;
        self.queue_count = 0;
    }

    /// Counts the zero bits before the next one bit, and consumes the one.
    #[verifier::rlimit(60)]
    pub fn read_unary(&mut self) -> (r: Result<u32, Error>)
        requires
            old(self).wf(),
        ensures
            final(self).keeps(old(self)),
            unary_len(old(self).data(), old(self).bit_pos()) is Some ==> r is Ok,
            r is Ok ==> unary_len(old(self).data(), old(self).bit_pos()) == Some(r->Ok_0 as nat)
                && final(self).bit_pos() == old(self).bit_pos() + r->Ok_0 + 1,
            r is Err ==> unary_len(old(self).data(), old(self).bit_pos()) is None
                && r->Err_0.code == ErrorCode::UnexpectedEof,
    {
        let ghost d = self.data();
        let ghost bp = self.bit_pos();
        let mut count: u32 = 0;
        proof {
            self.lemma_wf();
        }
        loop
            invariant
                self.keeps(old(self)),
                self.bit_pos() == bp + count,
                unary_len(d, bp) == add_opt(unary_len(d, bp + count), count as nat),
                d == old(self).data(),
                bp == old(self).bit_pos(),
                0 <= bp,
            decreases self.bits_left(),
        {
            proof {
                self.lemma_wf();
            }
            let b = match self.read_value(1) {
                Ok(b) => b,
                Err(e) => {
                    proof {
                        assert(unary_len(d, bp + count) is None);
                        assert(add_opt(unary_len(d, bp + count), count as nat) is None);
                        assert(unary_len(d, bp) is None);
                    }
                    return Err(e);
                },
            };
            proof {
                self.lemma_wf();
                assert(bits_val(d, bp + count, 1) == bit_at(d, bp + count)) by {
                    assert(bits_val(d, bp + count, 0) == 0);
                }
                assert(bp + count < 8 * d.len());
            }
            if b == 1 {
                return Ok(count);
            }
            proof {
                assert(count + 1 <= 8 * crate::decode::MAX_SOURCE_LEN);
            }
            count = count + 1;
        }
    }


    /// Reads `n` bits into a bit vector.
    #[verifier::rlimit(80)]
    pub fn read_bitvec(&mut self, vec: &mut Bitvec, n: usize) -> (r: Result<(), Error>)
        requires
            old(self).wf(),
            old(vec).wf(),
        ensures
            final(self).keeps(old(self)),
            final(vec).wf(),
            n <= old(self).bits_left() ==> r is Ok,
            r is Ok ==> final(self).bit_pos() == old(self).bit_pos() + n && final(vec).width()
                == old(vec).width() + n && final(vec).value() == old(vec).value() * pow2(n as nat)
                + old(self).peek(n as nat),
            r is Err ==> n > old(self).bits_left() && r->Err_0.code == ErrorCode::UnexpectedEof,
    {
        let ghost d = self.data();
        let ghost bp = self.bit_pos();
        let ghost qc = self.queue_count as nat;
        let ghost pos0: int = self.source.pos() as int;
        let ghost v0 = vec.value();
        let ghost w0 = vec.width();
        proof {
            self.source.lemma_wf();
            lemma2_to64();
        }
        let queue = self.queue;
        if n > self.queue_count {
            let n_bits: usize = n - self.queue_count;
            let n_bytes: usize = (n_bits - 1) / 8 + 1;
            let remaining: usize = (8 - n_bits % 8) % 8;
            let tail_len: usize = 8 - remaining;
            proof {
                if qc < 8 {
                    vstd::arithmetic::power2::lemma_pow2_strictly_increases(qc, 8);
                }
                assert(n_bytes * 8 == n_bits + remaining);
            }
            // flush the queued bits
            vec.write_bits(queue as u8, self.queue_count);
            // whole bytes in between
            match vec.write_bytes(&mut self.source, n_bytes - 1) {
                Ok(()) => {},
                Err(e) => {
                    proof {
                        assert(self.source == old(self).source);
                        assert(*self == *old(self));
                    }
                    return Err(e);
                },
            }
            // the last byte, of which the bits not asked for stay queued
            let buf = match self.source.read_exact(1) {
                Ok(b) => b,
                Err(e) => {
                    self.queue = 0;
                    self.queue_count = 0;
                    proof {
                        self.source.lemma_wf();
                    }
                    return Err(e);
                },
            };
            proof {
                self.source.lemma_wf();
            }
            let v = buf[0];
            let p_rem = pow2_u64(remaining);
            let tail = (v as u64) / p_rem;
            let rest = (v as u64) % p_rem;
            let ghost last: int = pos0 + n_bytes - 1;
            let ghost bm = bits_val(d, 8 * pos0, (8 * (n_bytes - 1)) as nat);
            proof {
                assert(self.source.bytes().subrange(last, last + 1)[0] == d[last]);
                lemma_bitvec_tail(d, bp, qc, pos0, n_bits as nat, n_bytes as nat, remaining as nat, v);
            }
            vec.write_bits(tail as u8, tail_len);
            proof {
                let pq = pow2(qc) as int;
                let pm = pow2((8 * (n_bytes - 1)) as nat) as int;
                let pt = pow2(tail_len as nat) as int;
                let qv = queue as int;
                let tl = tail as int;
                assert(((v0 * pq + qv) * pm + bm) * pt + tl == v0 * (pq * (pm * pt)) + (qv * (pm
                    * pt) + (bm * pt + tl))) by (nonlinear_arith);
                assert(n as nat == qc + n_bits);
            }
            self.queue = rest;
            self.queue_count = remaining;
            Ok(())
        } else {
            let remaining: usize = self.queue_count - n;
            let p_rem = pow2_u64(remaining);
            proof {
                lemma_bits_split(d, bp, n as nat, remaining as nat);
                lemma_bits_bound(d, bp, n as nat);
                lemma_bits_bound(d, bp + n, remaining as nat);
                lemma_pow2_pos(remaining as nat);
                lemma_fundamental_div_mod_converse(
                    queue as int,
                    pow2(remaining as nat) as int,
                    bits_val(d, bp, n as nat) as int,
                    bits_val(d, bp + n, remaining as nat) as int,
                );
                if n < 8 {
                    vstd::arithmetic::power2::lemma_pow2_strictly_increases(n as nat, 8);
                }
            }
            self.queue = queue % p_rem;
            self.queue_count = remaining;
            let u = queue / p_rem;
            vec.write_bits(u as u8, n);
            Ok(())
        }
    }

    pub fn compute_crc8_begin(&mut self)
        requires
            old(self).wf(),
        ensures
            final(self).wf(),
            final(self).data() == old(self).data(),
            final(self).bit_pos() == old(self).bit_pos(),
            final(self).byte_pos() == old(self).byte_pos(),
            final(self).aligned() == old(self).aligned(),
            final(self).taps() == (true, old(self).byte_pos(), old(self).taps().2, old(self).taps().3),
    {
        self.source.compute_crc8_begin();
    }

    /// Closes the CRC-8 region and gives the CRC of the bytes fetched in it.
    pub fn compute_crc8_end(&mut self) -> (r: u8)
        requires
            old(self).wf(),
        ensures
            final(self).wf(),
            final(self).data() == old(self).data(),
            final(self).bit_pos() == old(self).bit_pos(),
            final(self).byte_pos() == old(self).byte_pos(),
            final(self).aligned() == old(self).aligned(),
            final(self).taps() == (false, old(self).taps().1, old(self).taps().2, old(self).taps().3),
            old(self).taps().0 ==> r == crc8_of(
                old(self).data().subrange(old(self).taps().1 as int, old(self).byte_pos() as int),
            ),
    {
        self.source.compute_crc8_end()
    }

    pub fn compute_crc16_begin(&mut self)
        requires
            old(self).wf(),
        ensures
            final(self).wf(),
            final(self).data() == old(self).data(),
            final(self).bit_pos() == old(self).bit_pos(),
            final(self).byte_pos() == old(self).byte_pos(),
            final(self).aligned() == old(self).aligned(),
            final(self).taps() == (old(self).taps().0, old(self).taps().1, true, old(self).byte_pos()),
    {
        self.source.compute_crc16_begin();
    }

    /// Closes the CRC-16 region and gives the CRC of the bytes fetched in it.
    pub fn compute_crc16_end(&mut self) -> (r: u16)
        requires
            old(self).wf(),
        ensures
            final(self).wf(),
            final(self).data() == old(self).data(),
            final(self).bit_pos() == old(self).bit_pos(),
            final(self).byte_pos() == old(self).byte_pos(),
            final(self).aligned() == old(self).aligned(),
            final(self).taps() == (old(self).taps().0, old(self).taps().1, false, old(self).taps().3),
            old(self).taps().2 ==> r == crc16_of(
                old(self).data().subrange(old(self).taps().3 as int, old(self).byte_pos() as int),
            ),
    {
        self.source.compute_crc16_end()
    }
}


pub open spec fn lift_bool(r: Result<bool, Error>) -> Result<u64, Error> {
    match r {
        Ok(b) => Ok(if b { 1u64 } else { 0u64 }),
        Err(e) => Err(e),
    }
}

pub open spec fn lift8(r: Result<u8, Error>) -> Result<u64, Error> {
    match r {
        Ok(v) => Ok(v as u64),
        Err(e) => Err(e),
    }
}

pub open spec fn lift16(r: Result<u16, Error>) -> Result<u64, Error> {
    match r {
        Ok(v) => Ok(v as u64),
        Err(e) => Err(e),
    }
}

pub open spec fn lift32(r: Result<u32, Error>) -> Result<u64, Error> {
    match r {
        Ok(v) => Ok(v as u64),
        Err(e) => Err(e),
    }
}

/// The number of zero bits from bit `p` up to the first one bit, if a one
/// bit follows.
pub open spec fn unary_len(d: Seq<u8>, p: int) -> Option<nat>
    decreases 8 * d.len() - p,
{
    if p >= 8 * d.len() {
        None
    } else if bit_at(d, p) == 1 {
        Some(0)
    } else {
        add_opt(unary_len(d, p + 1), 1)
    }
}

pub open spec fn add_opt(o: Option<nat>, c: nat) -> Option<nat> {
    match o {
        Some(k) => Some(k + c),
        None => None,
    }
}

} // verus!
