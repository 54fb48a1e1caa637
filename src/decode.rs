use vstd::prelude::*;
use vstd::slice::slice_to_vec;
use crate::crc::{crc8_of, crc16_of, crc8_update, crc16_update};
use crate::error::{Error, ErrorCode};
use crate::bits::{BitReader, bit_at, bits_val, unary_len, pow2_u64};
use vstd::arithmetic::power2::{pow2, lemma2_to64, lemma_pow2_pos, lemma_pow2_strictly_increases};
use vstd::arithmetic::div_mod::lemma_small_mod;

verus! {

/// The longest source a decoder takes, in bytes: every bit count then fits
/// in a `u32`.
pub const MAX_SOURCE_LEN: usize = 0x1fff_ffff;

/// A byte source over an in-memory stream, with two CRC taps: while a tap is
/// open, every byte handed out is folded into its accumulator.
pub struct DecodingReadProxy {
    data: Vec<u8>,
    pos: usize,
    crc8: u8,
    crc16: u16,
    computing_crc8: bool,
    computing_crc16: bool,
    crc8_from: usize,
    crc16_from: usize,
}

impl DecodingReadProxy {
    /// The whole stream.
    pub closed spec fn bytes(&self) -> Seq<u8> {
        self.data@
    }

    /// How many bytes have been handed out.
    pub closed spec fn pos(&self) -> nat {
        self.pos as nat
    }

    pub closed spec fn crc8_open(&self) -> bool {
        self.computing_crc8
    }

    pub closed spec fn crc16_open(&self) -> bool {
        self.computing_crc16
    }

    /// Where the CRC-8 region began.
    pub closed spec fn crc8_from(&self) -> nat {
        self.crc8_from as nat
    }

    /// Where the CRC-16 region began.
    pub closed spec fn crc16_from(&self) -> nat {
        self.crc16_from as nat
    }

    pub closed spec fn wf(&self) -> bool {
        &&& self.pos <= self.data.len() <= MAX_SOURCE_LEN
        &&& self.computing_crc8 ==> self.crc8_from <= self.pos && self.crc8 == crc8_of(
            self.data@.subrange(self.crc8_from as int, self.pos as int),
        )
        &&& self.computing_crc16 ==> self.crc16_from <= self.pos && self.crc16 == crc16_of(
            self.data@.subrange(self.crc16_from as int, self.pos as int),
        )
    }

    /// The taps' state, which reading does not change.
    pub open spec fn taps(&self) -> (bool, nat, bool, nat) {
        (self.crc8_open(), self.crc8_from(), self.crc16_open(), self.crc16_from())
    }

    pub proof fn lemma_wf(&self)
        requires
            self.wf(),
        ensures
            self.pos() <= self.bytes().len() <= MAX_SOURCE_LEN,
            self.crc8_open() ==> self.crc8_from() <= self.pos(),
            self.crc16_open() ==> self.crc16_from() <= self.pos(),
    {
    }

    pub fn new(reader: &[u8]) -> (r: Self)
        requires
            reader@.len() <= MAX_SOURCE_LEN,
        ensures
            r.wf(),
            r.bytes() == reader@,
            r.pos() == 0,
            !r.crc8_open(),
            !r.crc16_open(),
    {
        DecodingReadProxy {
            data: slice_to_vec(reader),
            pos: 0,
            crc8: 0,
            crc16: 0,
            computing_crc8: false,
            computing_crc16: false,
            crc8_from: 0,
            crc16_from: 0,
        }
    }

    /// How many bytes are left.
    pub fn remaining(&self) -> (r: usize)
        requires
            self.wf(),
        ensures
            r == self.bytes().len() - self.pos(),
    {
        self.data.len() - self.pos
    }

    /// Hands out the next `n` bytes, or fails, consuming nothing, where
    /// fewer are left.
    pub fn read_exact(&mut self, n: usize) -> (r: Result<Vec<u8>, Error>)
        requires
            old(self).wf(),
        ensures
            final(self).wf(),
            final(self).bytes() == old(self).bytes(),
            final(self).taps() == old(self).taps(),
            old(self).pos() + n <= old(self).bytes().len() ==> r is Ok,
            r is Ok ==> final(self).pos() == old(self).pos() + n && r->Ok_0@ == old(
                self,
            ).bytes().subrange(old(self).pos() as int, old(self).pos() + n),
            r is Err ==> old(self).pos() + n > old(self).bytes().len() && r->Err_0.code
                == ErrorCode::UnexpectedEof && *final(self) == *old(self),
    {
        if n > self.data.len() - self.pos {
            return Err(Error::from_code(ErrorCode::UnexpectedEof));
        }
        let start = self.pos;
        let mut out: Vec<u8> = Vec::with_capacity(n);
        let mut i: usize = 0;
        while i < n
            invariant
                self.wf(),
                start + n <= self.data.len(),
                self.pos == start + i,
                i <= n,
                self.data@ == old(self).data@,
                self.taps() == old(self).taps(),
                out@ == self.data@.subrange(start as int, self.pos as int),
            decreases n - i,
        {
            let b = self.data[self.pos];
            proof {
                let d = self.data@;
                if self.computing_crc8 {
                    assert(d.subrange(self.crc8_from as int, self.pos + 1).drop_last()
                        =~= d.subrange(self.crc8_from as int, self.pos as int));
                }
                if self.computing_crc16 {
                    assert(d.subrange(self.crc16_from as int, self.pos + 1).drop_last()
                        =~= d.subrange(self.crc16_from as int, self.pos as int));
                }
                assert(d.subrange(start as int, self.pos + 1) =~= out@.push(b));
            }
            if self.computing_crc8 {
                self.crc8 = crc8_update(self.crc8, b);
            }
            if self.computing_crc16 {
                self.crc16 = crc16_update(self.crc16, b);
            }
            out.push(b);
            self.pos = self.pos + 1;
            i = i + 1;
        }
        Ok(out)
    }

    pub fn compute_crc8_begin(&mut self)
        requires
            old(self).wf(),
        ensures
            final(self).wf(),
            final(self).bytes() == old(self).bytes(),
            final(self).pos() == old(self).pos(),
            final(self).crc8_open(),
            final(self).crc8_from() == old(self).pos(),
            final(self).crc16_open() == old(self).crc16_open(),
            final(self).crc16_from() == old(self).crc16_from(),
    {
        self.computing_crc8 = true;
        self.crc8_from = self.pos;
        self.crc8 = 0;
        assert(self.data@.subrange(self.pos as int, self.pos as int) =~= Seq::<u8>::empty());
    }

    /// Closes the CRC-8 region and gives the CRC of the bytes handed out in it.
    pub fn compute_crc8_end(&mut self) -> (r: u8)
        requires
            old(self).wf(),
        ensures
            final(self).wf(),
            final(self).bytes() == old(self).bytes(),
            final(self).pos() == old(self).pos(),
            !final(self).crc8_open(),
            final(self).crc8_from() == old(self).crc8_from(),
            final(self).crc16_open() == old(self).crc16_open(),
            final(self).crc16_from() == old(self).crc16_from(),
            old(self).crc8_open() ==> r == crc8_of(
                old(self).bytes().subrange(old(self).crc8_from() as int, old(self).pos() as int),
            ),
    {
        self.computing_crc8 = false;
        self.crc8
    }

    pub fn compute_crc16_begin(&mut self)
        requires
            old(self).wf(),
        ensures
            final(self).wf(),
            final(self).bytes() == old(self).bytes(),
            final(self).pos() == old(self).pos(),
            final(self).crc16_open(),
            final(self).crc16_from() == old(self).pos(),
            final(self).crc8_open() == old(self).crc8_open(),
            final(self).crc8_from() == old(self).crc8_from(),
    {
        self.computing_crc16 = true;
        self.crc16_from = self.pos;
        self.crc16 = 0;
        assert(self.data@.subrange(self.pos as int, self.pos as int) =~= Seq::<u8>::empty());
    }

    /// Closes the CRC-16 region and gives the CRC of the bytes handed out in it.
    pub fn compute_crc16_end(&mut self) -> (r: u16)
        requires
            old(self).wf(),
        ensures
            final(self).wf(),
            final(self).bytes() == old(self).bytes(),
            final(self).pos() == old(self).pos(),
            !final(self).crc16_open(),
            final(self).crc16_from() == old(self).crc16_from(),
            final(self).crc8_open() == old(self).crc8_open(),
            final(self).crc8_from() == old(self).crc8_from(),
            old(self).crc16_open() ==> r == crc16_of(
                old(self).bytes().subrange(old(self).crc16_from() as int, old(self).pos() as int),
            ),
    {
        self.computing_crc16 = false;
        self.crc16
    }
}


/// Zig-zag decoding: even values are the non-negative integers, odd values
/// the negative ones.
pub open spec fn zigzag(v: nat) -> int {
    if v % 2 == 0 {
        (v / 2) as int
    } else {
        -((v / 2) as int) - 1
    }
}

/// Zig-zag encoding, the inverse of [`zigzag`].
pub open spec fn unzigzag(x: int) -> nat {
    if x >= 0 {
        (2 * x) as nat
    } else {
        (-2 * x - 1) as nat
    }
}

/// A Rice code with parameter `k` at bit `p`: its value and the position
/// after it, or `None` where the stream ends inside it. The quotient and
/// remainder combine in 32 bits before zig-zag decoding.
pub open spec fn rice_at(d: Seq<u8>, p: int, k: nat) -> Option<(int, int)> {
    match unary_len(d, p) {
        None => None,
        Some(q) => if p + q + 1 + k <= 8 * d.len() {
            Some((zigzag((q * pow2(k) + bits_val(d, p + q + 1, k)) % pow2(32)), p + q + 1 + k))
        } else {
            None
        },
    }
}

/// The bits at `p` are the Rice code word of `x` with parameter `k`: the
/// quotient of its zig-zag code in unary, a one, then the remainder in `k` bits.
pub open spec fn is_rice_code(d: Seq<u8>, p: int, k: nat, x: int) -> bool {
    let u = unzigzag(x);
    let q = u / pow2(k);
    &&& 0 <= p
    &&& p + q + 1 + k <= 8 * d.len()
    &&& forall|j: int| 0 <= j < q ==> #[trigger] bit_at(d, p + j) == 0
    &&& bit_at(d, p + q) == 1
    &&& bits_val(d, p + q + 1, k) == u % pow2(k)
}

proof fn lemma_unary_run(d: Seq<u8>, p: int, q: nat)
    requires
        0 <= p,
        p + q < 8 * d.len(),
        forall|j: int| 0 <= j < q ==> #[trigger] bit_at(d, p + j) == 0,
        bit_at(d, p + q) == 1,
    ensures
        unary_len(d, p) == Some(q),
    decreases q,
{
    if q > 0 {
        assert forall|j: int| 0 <= j < q - 1 implies #[trigger] bit_at(d, (p + 1) + j) == 0 by {
            assert(bit_at(d, p + (j + 1)) == 0);
        }
        lemma_unary_run(d, p + 1, (q - 1) as nat);
        assert(bit_at(d, p + 0) == 0);
    }
}

/// Rice decoding undoes Rice encoding: the code word of any 32-bit signed
/// integer, for any parameter up to 30, decodes to that integer and ends
/// where the code word ends.
pub proof fn lemma_rice_round_trip(d: Seq<u8>, p: int, k: nat, x: int)
    requires
        k <= 30,
        i32::MIN <= x <= i32::MAX,
        is_rice_code(d, p, k, x),
    ensures
        rice_at(d, p, k) == Some((x, p + unzigzag(x) / pow2(k) + 1 + k)),
{
    let u = unzigzag(x);
    lemma_pow2_pos(k);
    let q = u / pow2(k);
    lemma_unary_run(d, p, q);
    vstd::arithmetic::div_mod::lemma_fundamental_div_mod(u as int, pow2(k) as int);
    assert(q * pow2(k) == pow2(k) * q) by (nonlinear_arith);
    assert(q * pow2(k) + u % pow2(k) == u);
    lemma2_to64();
    assert(u < 0x1_0000_0000);
    lemma_small_mod(u, pow2(32));
}

impl BitReader {
    /// Reads one Rice-coded residual with parameter `parameter`.
    #[verifier::rlimit(60)]
    pub fn decode_rice(&mut self, parameter: usize) -> (r: Result<i32, Error>)
        requires
            old(self).wf(),
            parameter <= 30,
        ensures
            final(self).keeps(old(self)),
            rice_at(old(self).data(), old(self).bit_pos(), parameter as nat) is Some ==> r is Ok,
            r is Ok ==> rice_at(old(self).data(), old(self).bit_pos(), parameter as nat) == Some(
                (r->Ok_0 as int, final(self).bit_pos()),
            ),
            r is Err ==> rice_at(old(self).data(), old(self).bit_pos(), parameter as nat) is None
                && r->Err_0.code == ErrorCode::UnexpectedEof,
    {
        // unary coded quotient
        let msb = match self.read_unary() {
            Ok(m) => m,
            Err(e) => {
                return Err(e);
            },
        };
        let lsb = match self.read_u32_bits(parameter) {
            Ok(l) => l,
            Err(e) => {
                return Err(e);
            },
        };
        let scale = pow2_u64(parameter);
        proof {
            lemma2_to64();
            if parameter < 30 {
                lemma_pow2_strictly_increases(parameter as nat, 30);
            }
            assert(pow2(30) == 0x4000_0000) by {
                vstd::arithmetic::power2::lemma2_to64_rest();
            }
            assert((msb as int) * (scale as int) <= 0xffff_ffff * 0x4000_0000) by (nonlinear_arith)
                requires
                    msb <= 0xffff_ffff,
                    scale <= 0x4000_0000,
            ;
        }
        let v = ((msb as u64) * scale + (lsb as u64)) % 0x1_0000_0000;
        proof {
            self.lemma_wf();
            let dd = old(self).data();
            let bp = old(self).bit_pos();
            assert(unary_len(dd, bp) == Some(msb as nat));
            assert(bp + msb + 1 + parameter <= 8 * dd.len());
            assert(lsb == bits_val(dd, bp + msb + 1, parameter as nat));
            assert(v as nat == ((msb as nat) * pow2(parameter as nat) + bits_val(dd, bp + msb + 1, parameter as nat)) % pow2(32));
        }
        // zig-zag decoding, (v >> 1) ^ -(v & 1)
        let half = (v / 2) as i64;
        if v % 2 == 0 {
            Ok(half as i32)
        } else {
            Ok((-half - 1) as i32)
        }
    }
}

} // verus!
