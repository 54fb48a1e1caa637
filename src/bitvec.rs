use vstd::prelude::*;
use vstd::arithmetic::power2::{pow2, lemma_pow2_adds, lemma2_to64, lemma_pow2_pos};
use vstd::arithmetic::div_mod::lemma_fundamental_div_mod;
use crate::bits::{be_val, pow2_u64};
use crate::decode::DecodingReadProxy;
use crate::error::{Error, ErrorCode};

verus! {

/// A run of a bit vector: whole bytes, or fewer than eight bits.
#[derive(PartialEq, Debug)]
pub enum BitvecBlock {
    Bytes(Vec<u8>),
    Bits(u8, usize),
}

/// A sequence of bits, stored as runs of whole bytes and of loose bits.
#[derive(Debug, PartialEq)]
pub struct Bitvec {
    pub blocks: Vec<BitvecBlock>,
}

pub open spec fn block_width(b: BitvecBlock) -> nat {
    match b {
        BitvecBlock::Bytes(v) => 8 * v@.len(),
        BitvecBlock::Bits(_, q) => q as nat,
    }
}

pub open spec fn block_value(b: BitvecBlock) -> nat {
    match b {
        BitvecBlock::Bytes(v) => be_val(v@),
        BitvecBlock::Bits(w, _) => w as nat,
    }
}

pub open spec fn block_wf(b: BitvecBlock) -> bool {
    match b {
        BitvecBlock::Bytes(_) => true,
        BitvecBlock::Bits(w, q) => q < 8 && w < pow2(q as nat),
    }
}

/// How many bits the runs hold.
pub open spec fn blocks_width(s: Seq<BitvecBlock>) -> nat
    decreases s.len(),
{
    if s.len() == 0 {
        0
    } else {
        blocks_width(s.drop_last()) + block_width(s.last())
    }
}

/// The bits of the runs, read as one unsigned number, first bit most significant.
pub open spec fn blocks_value(s: Seq<BitvecBlock>) -> nat
    decreases s.len(),
{
    if s.len() == 0 {
        0
    } else {
        blocks_value(s.drop_last()) * pow2(block_width(s.last())) + block_value(s.last())
    }
}

proof fn lemma_be_push(s: Seq<u8>, b: u8)
    ensures
        be_val(s.push(b)) == be_val(s) * 256 + b,
{
    assert(s.push(b).drop_last() =~= s);
}

impl Bitvec {
    pub open spec fn wf(&self) -> bool {
        forall|i: int| 0 <= i < self.blocks@.len() ==> block_wf(#[trigger] self.blocks@[i])
    }

    pub open spec fn width(&self) -> nat {
        blocks_width(self.blocks@)
    }

    pub open spec fn value(&self) -> nat {
        blocks_value(self.blocks@)
    }

    pub fn new() -> (r: Self)
        ensures
            r.wf(),
            r.width() == 0,
            r.value() == 0,
    {
        Bitvec { blocks: Vec::new() }
    }

    /// Appends one whole byte: to the last run of bytes, or as a new one.
    fn push_byte(&mut self, b: u8)
        requires
            old(self).wf(),
        ensures
            final(self).wf(),
            final(self).width() == old(self).width() + 8,
            final(self).value() == old(self).value() * 256 + b,
    {
        let ghost s = self.blocks@;
        proof {
            lemma2_to64();
        }
        match self.blocks.pop() {
            Some(BitvecBlock::Bytes(mut vec)) => {
                let ghost v0 = vec@;
                vec.push(b);
                self.blocks.push(BitvecBlock::Bytes(vec));
                proof {
                    let t = self.blocks@;
                    assert(t.drop_last() =~= s.drop_last());
                    lemma_be_push(v0, b);
                    lemma_pow2_adds(8 * v0.len(), 8);
                    assert(8 * (v0.len() + 1) == 8 * v0.len() + 8);
                    let p = blocks_value(s.drop_last());
                    let q = pow2(8 * v0.len());
                    assert(p * (q * 256) + (be_val(v0) * 256 + b) == (p * q + be_val(v0)) * 256 + b)
                        by (nonlinear_arith);
                    assert(blocks_value(t) == blocks_value(s) * 256 + b);
                    assert forall|i: int| 0 <= i < t.len() implies block_wf(#[trigger] t[i]) by {
                        if i < t.len() - 1 {
                            assert(t[i] == s[i]);
                        }
                    }
                }
            },
            Some(other) => {
                self.blocks.push(other);
                let nv = vec![b];
                proof {
                    assert(nv@ =~= seq![b]);
                }
                self.blocks.push(BitvecBlock::Bytes(nv));
                proof {
                    let t = self.blocks@;
                    assert(t.drop_last() =~= s);
                    assert(seq![b].drop_last() =~= Seq::<u8>::empty());
                    lemma_be_push(Seq::<u8>::empty(), b);
                    assert(Seq::<u8>::empty().push(b) =~= seq![b]);
                    assert(be_val(Seq::<u8>::empty()) == 0);
                    assert(block_width(t.last()) == 8);
                    assert(blocks_value(t) == blocks_value(s) * 256 + b);
                    assert forall|i: int| 0 <= i < t.len() implies block_wf(#[trigger] t[i]) by {
                        if i < t.len() - 1 {
                            assert(t[i] == s[i]);
                        }
                    }
                }
            },
            None => {
                let nv = vec![b];
                proof {
                    assert(nv@ =~= seq![b]);
                }
                self.blocks.push(BitvecBlock::Bytes(nv));
                proof {
                    let t = self.blocks@;
                    assert(t.drop_last() =~= s);
                    assert(seq![b].drop_last() =~= Seq::<u8>::empty());
                    lemma_be_push(Seq::<u8>::empty(), b);
                    assert(Seq::<u8>::empty().push(b) =~= seq![b]);
                    assert(be_val(Seq::<u8>::empty()) == 0);
                    assert(blocks_value(t) == blocks_value(s) * 256 + b);
                }
            },
        }
    }

    /// Appends a run of fewer than eight bits.
    fn push_bits(&mut self, x: u8, k: usize)
        requires
            old(self).wf(),
            k < 8,
            x < pow2(k as nat),
        ensures
            final(self).wf(),
            final(self).width() == old(self).width() + k,
            final(self).value() == old(self).value() * pow2(k as nat) + x,
    {
        let ghost s = self.blocks@;
        self.blocks.push(BitvecBlock::Bits(x, k));
        proof {
            let t = self.blocks@;
            assert(t.drop_last() =~= s);
            assert forall|i: int| 0 <= i < t.len() implies block_wf(#[trigger] t[i]) by {
                if i < t.len() - 1 {
                    assert(t[i] == s[i]);
                }
            }
        }
    }

    /// Appends the `n` bits of `u`, most significant first.
    #[verifier::rlimit(60)]
    pub fn write_bits(&mut self, u: u8, n: usize)
        requires
            old(self).wf(),
            n <= 8,
            u < pow2(n as nat),
        ensures
            final(self).wf(),
            final(self).width() == old(self).width() + n,
            final(self).value() == old(self).value() * pow2(n as nat) + u,
    {
        proof {
            lemma2_to64();
        }
        if n == 0 {
            proof {
                assert(pow2(0) == 1);
                assert(self.value() * 1 == self.value());
            }
            return;
        }
        let ghost s = self.blocks@;
        match self.blocks.pop() {
            Some(BitvecBlock::Bits(w, q)) => {
                let ghost p = self.blocks@;
                proof {
                    assert(p =~= s.drop_last());
                    assert(block_wf(s[s.len() - 1]));
                    assert forall|i: int| 0 <= i < p.len() implies block_wf(#[trigger] p[i]) by {
                        assert(p[i] == s[i]);
                    }
                    lemma_pow2_adds(q as nat, n as nat);
                    lemma_pow2_pos(n as nat);
                }
                let ghost vp = blocks_value(p);
                let total = n + q;
                if total < 8 {
                    let pn_e = pow2_u64(n);
                    proof {
                        let pq = pow2(q as nat) as int;
                        let pn = pow2(n as nat) as int;
                        assert((w as int) * pn + (u as int) < pq * pn) by (nonlinear_arith)
                            requires
                                (w as int) < pq,
                                (u as int) < pn,
                        ;
                        assert((vp * pq + w) * pn + u == vp * (pq * pn) + (w * pn + u))
                            by (nonlinear_arith);
                    }
                    let v = (w as u64) * pn_e + (u as u64);
                    self.push_bits(v as u8, total);
                } else if total == 8 {
                    let pn_e = pow2_u64(n);
                    proof {
                        let pq = pow2(q as nat) as int;
                        let pn = pow2(n as nat) as int;
                        assert((w as int) * pn + (u as int) < pq * pn) by (nonlinear_arith)
                            requires
                                (w as int) < pq,
                                (u as int) < pn,
                        ;
                        assert((vp * pq + w) * pn + u == vp * (pq * pn) + (w * pn + u))
                            by (nonlinear_arith);
                    }
                    let v = (w as u64) * pn_e + (u as u64);
                    self.push_byte(v as u8);
                } else {
                    let fill = 8 - q;
                    let overflow = total - 8;
                    let po = pow2_u64(overflow);
                    let pf_e = pow2_u64(fill);
                    proof {
                        let pq = pow2(q as nat) as int;
                        let pn = pow2(n as nat) as int;
                        let pf = pow2(fill as nat) as int;
                        let pov = pow2(overflow as nat) as int;
                        lemma_pow2_adds(fill as nat, overflow as nat);
                        lemma_pow2_adds(q as nat, fill as nat);
                        lemma_pow2_adds(8, overflow as nat);
                        lemma_pow2_pos(overflow as nat);
                        lemma_fundamental_div_mod(u as int, pov);
                        let hi = (u as int) / pov;
                        let lo = (u as int) % pov;
                        assert(hi < pf) by (nonlinear_arith)
                            requires
                                u as int == pov * hi + lo,
                                0 <= lo,
                                (u as int) < pn,
                                pn == pf * pov,
                                pov > 0,
                        ;
                        assert((w as int) * pf + hi < 256) by (nonlinear_arith)
                            requires
                                (w as int) < pq,
                                hi < pf,
                                pq * pf == 256,
                                0 <= hi,
                        ;
                        assert(((vp * 256 + ((w as int) * pf + hi)) * pov + lo) == (vp * pq + w) * pn
                            + u) by (nonlinear_arith)
                            requires
                                u as int == pov * hi + lo,
                                pn == pf * pov,
                                pq * pn == 256 * pov,
                        ;
                    }
                    let msb = (w as u64) * pf_e + (u as u64) / po;
                    let lsb = (u as u64) % po;
                    self.push_byte(msb as u8);
                    self.push_bits(lsb as u8, overflow);
                }
            },
            Some(other) => {
                self.blocks.push(other);
                proof {
                    assert(self.blocks@ =~= s);
                }
                if n == 8 {
                    self.push_byte(u);
                } else {
                    self.push_bits(u, n);
                }
            },
            None => {
                if n == 8 {
                    self.push_byte(u);
                } else {
                    self.push_bits(u, n);
                }
            },
        }
    }

    /// Appends the next `n` bytes of a source as a run of bytes.
    #[verifier::rlimit(60)]
    pub fn write_bytes(&mut self, reader: &mut DecodingReadProxy, n: usize) -> (r: Result<(), Error>)
        requires
            old(self).wf(),
            old(reader).wf(),
        ensures
            final(self).wf(),
            final(reader).wf(),
            final(reader).bytes() == old(reader).bytes(),
            final(reader).taps() == old(reader).taps(),
            old(reader).pos() + n <= old(reader).bytes().len() ==> r is Ok,
            r is Ok ==> final(reader).pos() == old(reader).pos() + n
                && final(self).width() == old(self).width() + 8 * n
                && final(self).value() == old(self).value() * pow2(8 * n as nat) + be_val(
                old(reader).bytes().subrange(old(reader).pos() as int, old(reader).pos() + n),
            ),
            r is Err ==> old(reader).pos() + n > old(reader).bytes().len() && r->Err_0.code
                == ErrorCode::UnexpectedEof && *final(self) == *old(self) && *final(reader) == *old(
                reader,
            ),
    {
        if n == 0 {
            proof {
                lemma2_to64();
                reader.lemma_wf();
                assert(old(reader).bytes().subrange(old(reader).pos() as int, old(reader).pos() as int) =~= Seq::<u8>::empty());
                assert(be_val(Seq::<u8>::empty()) == 0);
                assert(pow2(8 * 0) == 1);
                assert(self.value() * 1 == self.value());
            }
            return Ok(());
        }
        let bytes = match reader.read_exact(n) {
            Ok(b) => b,
            Err(e) => {
                return Err(e);
            },
        };
        proof {
            reader.lemma_wf();
            lemma2_to64();
            assert(bytes@.take(0) =~= Seq::<u8>::empty());
            assert(be_val(Seq::<u8>::empty()) == 0);
            assert(pow2(8 * 0) == 1);
            assert(self.value() * 1 == self.value());
        }
        let ghost v0 = self.value();
        let ghost w0 = self.width();
        let mut i: usize = 0;
        while i < n
            invariant
                i <= n,
                bytes@.len() == n,
                self.wf(),
                self.width() == w0 + 8 * i,
                self.value() == v0 * pow2(8 * i as nat) + be_val(bytes@.take(i as int)),
            decreases n - i,
        {
            proof {
                assert(bytes@.take(i + 1) =~= bytes@.take(i as int).push(bytes@[i as int]));
                lemma_be_push(bytes@.take(i as int), bytes@[i as int]);
                lemma_pow2_adds(8 * i as nat, 8);
                lemma2_to64();
                let pi = pow2(8 * i as nat) as int;
                let bt = be_val(bytes@.take(i as int)) as int;
                assert((v0 * pi + bt) * 256 + bytes@[i as int] == v0 * (pi * 256) + (bt * 256
                    + bytes@[i as int])) by (nonlinear_arith);
                assert(8 * (i + 1) == 8 * i + 8);
            }
            self.push_byte(bytes[i]);
            i = i + 1;
        }
        proof {
            assert(bytes@.take(n as int) =~= bytes@);
        }
        Ok(())
    }
}

} // verus!
