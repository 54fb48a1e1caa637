use vstd::prelude::*;
use vstd::arithmetic::power2::{pow2, lemma2_to64, lemma_pow2_pos, lemma_pow2_unfold, lemma_pow2_strictly_increases};
use vstd::arithmetic::div_mod::{lemma_small_mod, lemma_fundamental_div_mod_converse};
use crate::bits::{BitReader, bits_val, bit_at, unary_len, lemma_bits_bound, pow2_u64};
use crate::decode::rice_at;
use crate::error::{Error, ErrorCode};
use crate::crc::{crc8_of, crc16_of};
use crate::metadata::StreamInfo;

verus! {

/// The two's complement value of the `n`-bit field `u`.
pub open spec fn signed_of(u: nat, n: nat) -> int {
    if n == 0 {
        0
    } else if u < pow2((n - 1) as nat) {
        u as int
    } else {
        u - pow2(n)
    }
}

pub open spec fn fits_i32(v: int) -> bool {
    i32::MIN <= v <= i32::MAX
}

/// Sign-extends the low `n` bits of `x`.
pub fn sign_extend(x: u64, n: usize) -> (r: i64)
    requires
        1 <= n <= 64,
    ensures
        r == signed_of(x as nat % pow2(n as nat), n as nat),
{
    proof {
        lemma2_to64();
        lemma_pow2_unfold(n as nat);
        lemma_pow2_pos(n as nat);
        if n < 64 {
            lemma_pow2_strictly_increases(n as nat, 64);
        }
        if n - 1 < 63 {
            lemma_pow2_strictly_increases((n - 1) as nat, 63);
        }
        vstd::arithmetic::power2::lemma2_to64_rest();
    }
    let u: u64 = if n == 64 {
        proof {
            lemma_small_mod(x as nat, pow2(64));
        }
        x
    } else {
        x % pow2_u64(n)
    };
    let half: u64 = pow2_u64(n - 1);
    if u >= half {
        ((u as i128) - 2 * (half as i128)) as i64
    } else {
        u as i64
    }
}

/// Sign extension is subtracting `2^n` exactly when the top bit of the
/// `n`-bit field is set: `u - ((u >> (n - 1)) << n)`.
pub proof fn lemma_sign_extend_shift_form(u: nat, n: nat)
    requires
        1 <= n <= 64,
        u < pow2(n),
    ensures
        signed_of(u % pow2(n), n) == u - (u / pow2((n - 1) as nat)) * pow2(n),
{
    lemma_small_mod(u, pow2(n));
    lemma_pow2_unfold(n);
    let half = pow2((n - 1) as nat);
    lemma_pow2_pos((n - 1) as nat);
    assert(u % pow2(n) == u);
    if u < half {
        lemma_fundamental_div_mod_converse(u as int, half as int, 0, u as int);
        assert(u / half == 0);
        assert(signed_of(u, n) == u);
        assert((u / half) * pow2(n) == 0) by (nonlinear_arith)
            requires
                u / half == 0,
        ;
    } else {
        lemma_fundamental_div_mod_converse(u as int, half as int, 1, u - half);
        assert(u / half == 1);
        assert(signed_of(u, n) == u - pow2(n));
        assert((u / half) * pow2(n) == pow2(n)) by (nonlinear_arith)
            requires
                u / half == 1,
        ;
    }
}

/// A signed sample of `w` bits at `p`, which must fit in 32 bits; a width
/// of zero stands for the value zero.
pub open spec fn signed_sample_at(d: Seq<u8>, p: int, w: nat) -> Result<(int, int), ErrorCode> {
    if p + w > 8 * d.len() {
        Err(ErrorCode::UnexpectedEof)
    } else if !fits_i32(signed_of(bits_val(d, p, w), w)) {
        Err(ErrorCode::SampleOverflow)
    } else {
        Ok((signed_of(bits_val(d, p, w), w), p + w))
    }
}

/// The first `c` signed samples of `w` bits from `p`, and where they end.
pub open spec fn signed_run(d: Seq<u8>, p: int, w: nat, c: nat) -> Result<(Seq<i32>, int), ErrorCode>
    decreases c,
{
    if c == 0 {
        Ok((Seq::empty(), p))
    } else {
        match signed_run(d, p, w, (c - 1) as nat) {
            Err(e) => Err(e),
            Ok((s, q)) => match signed_sample_at(d, q, w) {
                Err(e) => Err(e),
                Ok((v, q2)) => Ok((s.push(v as i32), q2)),
            },
        }
    }
}

/// The first `c` Rice-coded residuals with parameter `k` from `p`.
pub open spec fn rice_run(d: Seq<u8>, p: int, k: nat, c: nat) -> Result<(Seq<i32>, int), ErrorCode>
    decreases c,
{
    if c == 0 {
        Ok((Seq::empty(), p))
    } else {
        match rice_run(d, p, k, (c - 1) as nat) {
            Err(e) => Err(e),
            Ok((s, q)) => match rice_at(d, q, k) {
                None => Err(ErrorCode::UnexpectedEof),
                Some((v, q2)) => Ok((s.push(v as i32), q2)),
            },
        }
    }
}

proof fn lemma_signed_run_err(d: Seq<u8>, p: int, w: nat, i: nat, c: nat)
    requires
        i <= c,
        signed_run(d, p, w, i) is Err,
    ensures
        signed_run(d, p, w, c) == signed_run(d, p, w, i),
    decreases c - i,
{
    if i < c {
        lemma_signed_run_err(d, p, w, i, (c - 1) as nat);
    }
}

proof fn lemma_rice_run_err(d: Seq<u8>, p: int, k: nat, i: nat, c: nat)
    requires
        i <= c,
        rice_run(d, p, k, i) is Err,
    ensures
        rice_run(d, p, k, c) == rice_run(d, p, k, i),
    decreases c - i,
{
    if i < c {
        lemma_rice_run_err(d, p, k, i, (c - 1) as nat);
    }
}

/// Reads one signed sample of `w` bits.
fn read_signed(reader: &mut BitReader, w: usize) -> (r: Result<i32, Error>)
    requires
        old(reader).wf(),
        w <= 64,
    ensures
        final(reader).keeps(old(reader)),
        match signed_sample_at(old(reader).data(), old(reader).bit_pos(), w as nat) {
            Ok((v, q)) => r is Ok && r->Ok_0 == v && final(reader).bit_pos() == q,
            Err(e) => r is Err && r->Err_0.code == e,
        },
{
    let ghost d = reader.data();
    let ghost p = reader.bit_pos();
    let raw = match reader.read_u64_bits(w) {
        Ok(v) => v,
        Err(e) => {
            return Err(e);
        },
    };
    proof {
        reader.lemma_wf();
    }
    if w == 0 {
        return Ok(0);
    }
    let v = sign_extend(raw, w);
    proof {
        lemma_bits_bound(d, p, w as nat);
        lemma_small_mod(raw as nat, pow2(w as nat));
    }
    if v < i32::MIN as i64 || v > i32::MAX as i64 {
        return Err(Error::from_code(ErrorCode::SampleOverflow));
    }
    Ok(v as i32)
}

/// Appends `count` signed samples of `w` bits.
fn read_signed_run(reader: &mut BitReader, vec: &mut Vec<i32>, w: usize, count: usize) -> (r: Result<(), Error>)
    requires
        old(reader).wf(),
        w <= 64,
    ensures
        final(reader).keeps(old(reader)),
        match signed_run(old(reader).data(), old(reader).bit_pos(), w as nat, count as nat) {
            Ok((s, q)) => r is Ok && final(vec)@ == old(vec)@ + s && final(reader).bit_pos() == q,
            Err(e) => r is Err && r->Err_0.code == e,
        },
{
    let ghost d = reader.data();
    let ghost p = reader.bit_pos();
    let ghost mut s: Seq<i32> = Seq::empty();
    let mut i: usize = 0;
    proof {
        assert(old(vec)@ + s =~= old(vec)@);
    }
    while i < count
        invariant
            reader.keeps(old(reader)),
            d == old(reader).data(),
            p == old(reader).bit_pos(),
            i <= count,
            w <= 64,
            signed_run(d, p, w as nat, i as nat) == Ok::<(Seq<i32>, int), ErrorCode>((s, reader.bit_pos())),
            vec@ == old(vec)@ + s,
        decreases count - i,
    {
        let v = match read_signed(reader, w) {
            Ok(v) => v,
            Err(e) => {
                proof {
                    lemma_signed_run_err(d, p, w as nat, (i + 1) as nat, count as nat);
                }
                return Err(e);
            },
        };
        proof {
            assert(old(vec)@ + s.push(v) =~= (old(vec)@ + s).push(v));
            s = s.push(v);
        }
        vec.push(v);
        i = i + 1;
    }
    Ok(())
}

/// Appends `count` Rice-coded residuals with parameter `k`.
fn read_rice_run(reader: &mut BitReader, vec: &mut Vec<i32>, k: usize, count: usize) -> (r: Result<(), Error>)
    requires
        old(reader).wf(),
        k <= 30,
    ensures
        final(reader).keeps(old(reader)),
        match rice_run(old(reader).data(), old(reader).bit_pos(), k as nat, count as nat) {
            Ok((s, q)) => r is Ok && final(vec)@ == old(vec)@ + s && final(reader).bit_pos() == q,
            Err(e) => r is Err && r->Err_0.code == e,
        },
{
    let ghost d = reader.data();
    let ghost p = reader.bit_pos();
    let ghost mut s: Seq<i32> = Seq::empty();
    let mut i: usize = 0;
    proof {
        assert(old(vec)@ + s =~= old(vec)@);
    }
    while i < count
        invariant
            reader.keeps(old(reader)),
            d == old(reader).data(),
            p == old(reader).bit_pos(),
            i <= count,
            k <= 30,
            rice_run(d, p, k as nat, i as nat) == Ok::<(Seq<i32>, int), ErrorCode>((s, reader.bit_pos())),
            vec@ == old(vec)@ + s,
        decreases count - i,
    {
        let v = match reader.decode_rice(k) {
            Ok(v) => v,
            Err(e) => {
                proof {
                    lemma_rice_run_err(d, p, k as nat, (i + 1) as nat, count as nat);
                }
                return Err(e);
            },
        };
        proof {
            assert(old(vec)@ + s.push(v) =~= (old(vec)@ + s).push(v));
            s = s.push(v);
        }
        vec.push(v);
        i = i + 1;
    }
    Ok(())
}


/// The prediction for sample `i` from the `m` samples before it:
/// the sum over `j < m` of `c[j] * s[i - 1 - j]`.
pub open spec fn predict(c: Seq<i32>, s: Seq<i32>, i: int, m: nat) -> int
    decreases m,
{
    if m == 0 {
        0
    } else {
        predict(c, s, i, (m - 1) as nat) + c[m - 1] * s[i - m]
    }
}

/// The first `i` samples after linear prediction is undone: the first
/// `c.len()` are the warm-up samples; each later one adds the prediction
/// from the restored samples before it, shifted right by `shift`, to its
/// residual. `None` where a sample leaves 32 bits.
pub open spec fn restore_prefix(x: Seq<i32>, c: Seq<i32>, shift: nat, i: nat) -> Option<Seq<i32>>
    decreases i,
{
    if i <= c.len() {
        Some(x.take(i as int))
    } else {
        match restore_prefix(x, c, shift, (i - 1) as nat) {
            None => None,
            Some(s) => {
                let v = x[i - 1] + predict(c, s, i - 1, c.len()) / (pow2(shift) as int);
                if fits_i32(v) {
                    Some(s.push(v as i32))
                } else {
                    None
                }
            },
        }
    }
}

proof fn lemma_predict_agree(c: Seq<i32>, s1: Seq<i32>, s2: Seq<i32>, i: int, m: nat)
    requires
        forall|k: int| i - m <= k < i ==> s1[k] == s2[k],
    ensures
        predict(c, s1, i, m) == predict(c, s2, i, m),
    decreases m,
{
    if m > 0 {
        lemma_predict_agree(c, s1, s2, i, (m - 1) as nat);
    }
}

proof fn lemma_restore_prefix_len(x: Seq<i32>, c: Seq<i32>, shift: nat, i: nat)
    requires
        i <= x.len(),
        restore_prefix(x, c, shift, i) is Some,
    ensures
        restore_prefix(x, c, shift, i)->Some_0.len() == i,
    decreases i,
{
    if i > c.len() {
        lemma_restore_prefix_len(x, c, shift, (i - 1) as nat);
    }
}

proof fn lemma_restore_prefix_none(x: Seq<i32>, c: Seq<i32>, shift: nat, i: nat, n: nat)
    requires
        i <= n,
        restore_prefix(x, c, shift, i) is None,
    ensures
        restore_prefix(x, c, shift, n) is None,
    decreases n - i,
{
    if i < n {
        lemma_restore_prefix_none(x, c, shift, i, (n - 1) as nat);
    }
}

proof fn lemma_floor_div_neg(s: int, d: int)
    requires
        s < 0,
        d > 0,
    ensures
        -((-s + d - 1) / d) == s / d,
{
    vstd::arithmetic::div_mod::lemma_fundamental_div_mod(s, d);
    let q = s / d;
    let r = s % d;
    assert(-s + d - 1 == (-q) * d + (d - 1 - r)) by (nonlinear_arith)
        requires
            s == d * q + r,
    ;
    lemma_fundamental_div_mod_converse(-s + d - 1, d, -q, d - 1 - r);
}

/// Undoes linear prediction in place on a buffer of `block_size` samples
/// whose first `order` are warm-up samples and the rest residuals.
#[verifier::rlimit(60)]
fn restore_signals(
    coefficients: &Vec<i32>,
    shift: i32,
    order: usize,
    block_size: usize,
    vec: &mut Vec<i32>,
) -> (r: Result<(), Error>)
    requires
        coefficients.len() <= 32,
        shift < 32,
        order <= block_size,
        forall|j: int| 0 <= j < coefficients.len() ==> -0x8000 <= #[trigger] coefficients@[j] <= 0x8000,
    ensures
        coefficients.len() != order || old(vec).len() != block_size || shift < 0 ==> r is Err
            && r->Err_0.code == ErrorCode::LPCSignalRestoreFailure,
        coefficients.len() == order && old(vec).len() == block_size && shift >= 0 ==> match restore_prefix(
            old(vec)@,
            coefficients@,
            shift as nat,
            block_size as nat,
        ) {
            Some(s) => r is Ok && final(vec)@ == s,
            None => r is Err && r->Err_0.code == ErrorCode::SampleOverflow,
        },
{
    if coefficients.len() != order || vec.len() != block_size || shift < 0 {
        return Err(Error::from_code(ErrorCode::LPCSignalRestoreFailure));
    }
    let ghost x = vec@;
    let ghost c = coefficients@;
    let divisor = pow2_u64(shift as usize);
    proof {
        lemma_pow2_pos(shift as nat);
        assert(x.take(order as int) =~= vec@.take(order as int));
    }
    let mut i: usize = order;
    while i < block_size
        invariant
            order <= i <= block_size,
            0 <= shift < 32,
            vec.len() == block_size,
            coefficients.len() == order <= 32,
            divisor == pow2(shift as nat),
            divisor > 0,
            x.len() == block_size,
            x == old(vec)@,
            c == coefficients@,
            forall|j: int| 0 <= j < coefficients.len() ==> -0x8000 <= #[trigger] coefficients@[j] <= 0x8000,
            forall|k: int| i <= k < block_size ==> vec@[k] == x[k],
            restore_prefix(x, c, shift as nat, i as nat) == Some(vec@.take(i as int)),
        decreases block_size - i,
    {
        let mut sum: i64 = 0;
        let mut j: usize = 0;
        let ghost s = vec@.take(i as int);
        while j < order
            invariant
                order <= i < block_size,
                j <= order,
                vec.len() == block_size,
                coefficients.len() == order <= 32,
                s == vec@.take(i as int),
                c == coefficients@,
                forall|jj: int| 0 <= jj < coefficients.len() ==> -0x8000 <= #[trigger] coefficients@[jj] <= 0x8000,
                sum == predict(c, vec@, i as int, j as nat),
                -(j as int) * 0x4000_0000_0000 <= sum <= (j as int) * 0x4000_0000_0000,
            decreases order - j,
        {
            let cj = coefficients[j];
            let xv = vec[i - 1 - j];
            proof {
                assert((cj as int) * (xv as int) <= 0x4000_0000_0000 && (cj as int) * (xv as int) >= -0x4000_0000_0000) by (nonlinear_arith)
                    requires
                        -0x8000 <= cj <= 0x8000,
                        -0x8000_0000 <= xv < 0x8000_0000,
                ;
            }
            sum = sum + (cj as i64) * (xv as i64);
            j = j + 1;
        }
        proof {
            assert((order as int) * 0x4000_0000_0000 <= 32 * 0x4000_0000_0000) by (nonlinear_arith)
                requires
                    order <= 32,
            ;
            assert(-0x8_0000_0000_0000 <= sum <= 0x8_0000_0000_0000);
            lemma2_to64();
            if shift < 32 {
                lemma_pow2_strictly_increases(shift as nat, 32);
            }
            assert(divisor <= 0x1_0000_0000);
            lemma_predict_agree(c, vec@, s, i as int, order as nat);
            lemma_restore_prefix_len(x, c, shift as nat, i as nat);
        }
        let delta: i64 = if sum >= 0 {
            ((sum as u64) / divisor) as i64
        } else {
            proof {
                lemma_floor_div_neg(sum as int, divisor as int);
            }
            -((((-sum) as u64 + divisor - 1) / divisor) as i64)
        };
        let v: i64 = vec[i] as i64 + delta;
        proof {
            assert(delta == (sum as int) / (divisor as int));
            assert(v == x[i as int] + predict(c, s, i as int, c.len()) / (pow2(shift as nat) as int));
        }
        if v < i32::MIN as i64 || v > i32::MAX as i64 {
            proof {
                assert(restore_prefix(x, c, shift as nat, (i + 1) as nat) is None);
                lemma_restore_prefix_none(x, c, shift as nat, (i + 1) as nat, block_size as nat);
            }
            return Err(Error::from_code(ErrorCode::SampleOverflow));
        }
        vec.set(i, v as i32);
        proof {
            assert(vec@.take(i + 1) =~= s.push(v as i32));
        }
        i = i + 1;
    }
    proof {
        assert(vec@.take(block_size as int) =~= vec@);
    }
    Ok(())
}

/// The fixed predictors' coefficients for orders 0 to 4.
pub open spec fn fixed_coeffs(order: nat) -> Seq<i32> {
    if order == 0 {
        seq![]
    } else if order == 1 {
        seq![1i32]
    } else if order == 2 {
        seq![2i32, -1i32]
    } else if order == 3 {
        seq![3i32, -3i32, 1i32]
    } else {
        seq![4i32, -6i32, 4i32, -1i32]
    }
}

/// The coefficients of the fixed predictor of order `order`, if there is one.
fn fixed_coefficients(order: usize) -> (r: Option<Vec<i32>>)
    ensures
        order <= 4 <==> r is Some,
        r is Some ==> r->Some_0@ == fixed_coeffs(order as nat),
{
    let v: Vec<i32> = match order {
        0 => vec![],
        1 => vec![1],
        2 => vec![2, -1],
        3 => vec![3, -3, 1],
        4 => vec![4, -6, 4, -1],
        _ => {
            return None;
        },
    };
    proof {
        assert(v@ =~= fixed_coeffs(order as nat));
    }
    Some(v)
}

/// The `k`-th backward difference of `s` at `i`.
pub open spec fn backward_diff(s: Seq<i32>, i: int, k: nat) -> int
    decreases k,
{
    if k == 0 {
        s[i] as int
    } else {
        backward_diff(s, i, (k - 1) as nat) - backward_diff(s, i - 1, (k - 1) as nat)
    }
}

/// With zero residuals and no shift, the fixed predictor of order `k`
/// extends its warm-up samples as a polynomial of degree below `k`: the
/// `k`-th backward difference of every restored sample after the warm-up
/// is zero.
pub proof fn lemma_fixed_zero_residuals(x: Seq<i32>, k: nat, n: nat)
    requires
        k <= 4,
        k <= n <= x.len(),
        forall|i: int| k <= i < x.len() ==> x[i] == 0,
        restore_prefix(x, fixed_coeffs(k), 0, n) is Some,
    ensures
        ({
            let s = restore_prefix(x, fixed_coeffs(k), 0, n)->Some_0;
            forall|i: int| k <= i < n ==> #[trigger] backward_diff(s, i, k) == 0
        }),
    decreases n,
{
    let c = fixed_coeffs(k);
    lemma_restore_prefix_len(x, c, 0, n);
    let s = restore_prefix(x, c, 0, n)->Some_0;
    if n > k {
        let prev = restore_prefix(x, c, 0, (n - 1) as nat);
        lemma_restore_prefix_len(x, c, 0, (n - 1) as nat);
        lemma_fixed_zero_residuals(x, k, (n - 1) as nat);
        let t = prev->Some_0;
        assert(s == t.push((x[n - 1] + predict(c, t, n - 1, c.len()) / (pow2(0) as int)) as i32));
        lemma2_to64();
        assert forall|i: int| k <= i < n implies #[trigger] backward_diff(s, i, k) == 0 by {
            if i < n - 1 {
                lemma_diff_prefix(s, t, i, k);
            } else {
                lemma_predict_agree(c, t, s, n - 1, k);
                lemma_fixed_is_diff(s, n - 1, k);
            }
        }
    }
}

proof fn lemma_diff_prefix(s: Seq<i32>, t: Seq<i32>, i: int, k: nat)
    requires
        k <= i < t.len(),
        t.len() <= s.len(),
        forall|j: int| 0 <= j < t.len() ==> s[j] == t[j],
    ensures
        backward_diff(s, i, k) == backward_diff(t, i, k),
    decreases k,
{
    if k > 0 {
        lemma_diff_prefix(s, t, i, (k - 1) as nat);
        lemma_diff_prefix(s, t, i - 1, (k - 1) as nat);
    }
}

proof fn lemma_fixed_is_diff(s: Seq<i32>, i: int, k: nat)
    requires
        k <= 4,
    ensures
        s[i] as int - predict(fixed_coeffs(k), s, i, k) == backward_diff(s, i, k),
{
    let c = fixed_coeffs(k);
    assert forall|j: int| #[trigger] backward_diff(s, j, 1) == s[j] - s[j - 1] by {
        assert(backward_diff(s, j, 0) == s[j]);
        assert(backward_diff(s, j - 1, 0) == s[j - 1]);
    }
    assert forall|j: int| #[trigger] backward_diff(s, j, 2) == s[j] - 2 * s[j - 1] + s[j - 2] by {
        assert(backward_diff(s, j, 1) == s[j] - s[j - 1]);
        assert(backward_diff(s, j - 1, 1) == s[j - 1] - s[j - 2]);
    }
    assert forall|j: int| #[trigger] backward_diff(s, j, 3) == s[j] - 3 * s[j - 1] + 3 * s[j - 2]
        - s[j - 3] by {
        assert(backward_diff(s, j, 2) == s[j] - 2 * s[j - 1] + s[j - 2]);
        assert(backward_diff(s, j - 1, 2) == s[j - 1] - 2 * s[j - 2] + s[j - 3]);
    }
    assert(backward_diff(s, i, 4) == s[i] - 4 * s[i - 1] + 6 * s[i - 2] - 4 * s[i - 3] + s[i - 4])
        by {
        assert(backward_diff(s, i, 3) == s[i] - 3 * s[i - 1] + 3 * s[i - 2] - s[i - 3]);
        assert(backward_diff(s, i - 1, 3) == s[i - 1] - 3 * s[i - 2] + 3 * s[i - 3] - s[i - 4]);
    }
    assert(predict(c, s, i, 0) == 0);
    if k >= 1 {
        assert(predict(c, s, i, 1) == c[0] * s[i - 1]);
    }
    if k >= 2 {
        assert(predict(c, s, i, 2) == c[0] * s[i - 1] + c[1] * s[i - 2]);
    }
    if k >= 3 {
        assert(predict(c, s, i, 3) == c[0] * s[i - 1] + c[1] * s[i - 2] + c[2] * s[i - 3]);
    }
    if k == 4 {
        assert(predict(c, s, i, 4) == c[0] * s[i - 1] + c[1] * s[i - 2] + c[2] * s[i - 3] + c[3]
            * s[i - 4]);
    }
    let b1 = backward_diff(s, i, 1);
    let b2 = backward_diff(s, i, 2);
    let b3 = backward_diff(s, i, 3);
    let b4 = backward_diff(s, i, 4);
    let (s0, s1, s2, s3, s4) = (s[i] as int, s[i - 1] as int, s[i - 2] as int, s[i - 3] as int, s[i - 4] as int);
    if k == 0 {
        assert(backward_diff(s, i, 0) == s[i]);
    } else if k == 1 {
        let p = predict(c, s, i, 1);
        assert(c[0] == 1);
        assert(s0 - p == b1) by (nonlinear_arith)
            requires
                p == c[0] * s1,
                c[0] == 1,
                b1 == s0 - s1,
        ;
    } else if k == 2 {
        let p = predict(c, s, i, 2);
        assert(c[0] == 2 && c[1] == -1);
        assert(s0 - p == b2) by (nonlinear_arith)
            requires
                p == c[0] * s1 + c[1] * s2,
                c[0] == 2,
                c[1] == -1,
                b2 == s0 - 2 * s1 + s2,
        ;
    } else if k == 3 {
        let p = predict(c, s, i, 3);
        assert(c[0] == 3 && c[1] == -3 && c[2] == 1);
        assert(s0 - p == b3) by (nonlinear_arith)
            requires
                p == c[0] * s1 + c[1] * s2 + c[2] * s3,
                c[0] == 3,
                c[1] == -3,
                c[2] == 1,
                b3 == s0 - 3 * s1 + 3 * s2 - s3,
        ;
    } else {
        let p = predict(c, s, i, 4);
        assert(c[0] == 4 && c[1] == -6 && c[2] == 4 && c[3] == -1);
        assert(s0 - p == b4) by (nonlinear_arith)
            requires
                p == c[0] * s1 + c[1] * s2 + c[2] * s3 + c[3] * s4,
                c[0] == 4,
                c[1] == -6,
                c[2] == 4,
                c[3] == -1,
                b4 == s0 - 4 * s1 + 6 * s2 - 4 * s3 + s4,
        ;
    }
}


/// How a subframe predicts its samples.
#[derive(Debug, Clone, Copy, PartialEq, Eq, Structural)]
pub enum PredictionMethod {
    Constant,
    Verbatim,
    Fixed(usize),
    Fir(usize),
}

/// The prediction method of a 6-bit subframe type code.
pub open spec fn method_of(n: nat) -> Option<PredictionMethod> {
    if n == 0 {
        Some(PredictionMethod::Constant)
    } else if n == 1 {
        Some(PredictionMethod::Verbatim)
    } else if 8 <= n <= 15 {
        Some(PredictionMethod::Fixed((n - 8) as usize))
    } else if 32 <= n <= 63 {
        Some(PredictionMethod::Fir((n - 32 + 1) as usize))
    } else {
        None
    }
}

impl PredictionMethod {
    pub fn parse(n: u8) -> (r: Option<Self>)
        ensures
            r == method_of(n as nat),
    {
        match n {
            0b00_0000 => Some(PredictionMethod::Constant),
            0b00_0001 => Some(PredictionMethod::Verbatim),
            0b00_1000..=0b00_1111 => Some(PredictionMethod::Fixed((n - 8) as usize)),
            0b10_0000..=0b11_1111 => Some(PredictionMethod::Fir((n - 32) as usize + 1)),
            _ => None,
        }
    }
}

/// The header of a subframe.
#[derive(Debug, Clone, Copy, PartialEq, Eq, Structural)]
pub struct SubframeHeader {
    pub method: PredictionMethod,
    pub wasted_bits_per_sample: usize,
}

/// The subframe header at `p` and where it ends.
pub open spec fn subframe_header_at(d: Seq<u8>, p: int) -> Result<(SubframeHeader, int), ErrorCode> {
    let end = 8 * d.len();
    if p + 1 > end {
        Err(ErrorCode::UnexpectedEof)
    } else if bit_at(d, p) == 1 {
        Err(ErrorCode::SubframeOutOfSync)
    } else if p + 7 > end {
        Err(ErrorCode::UnexpectedEof)
    } else {
        match method_of(bits_val(d, p + 1, 6)) {
            None => Err(ErrorCode::SubframeReservedType),
            Some(m) => if p + 8 > end {
                Err(ErrorCode::UnexpectedEof)
            } else if bit_at(d, p + 7) == 0 {
                Ok((SubframeHeader { method: m, wasted_bits_per_sample: 0 }, p + 8))
            } else {
                match unary_len(d, p + 8) {
                    None => Err(ErrorCode::UnexpectedEof),
                    Some(z) => Ok(
                        (SubframeHeader { method: m, wasted_bits_per_sample: (z + 1) as usize }, p + 8 + z + 1),
                    ),
                }
            },
        }
    }
}

proof fn lemma_one_bit(d: Seq<u8>, p: int)
    ensures
        bits_val(d, p, 1) == bit_at(d, p),
{
    assert(bits_val(d, p, 0) == 0);
}

impl SubframeHeader {
    pub fn from_reader(reader: &mut BitReader) -> (r: Result<Self, Error>)
        requires
            old(reader).wf(),
        ensures
            final(reader).keeps(old(reader)),
            match subframe_header_at(old(reader).data(), old(reader).bit_pos()) {
                Ok((h, q)) => r is Ok && r->Ok_0 == h && final(reader).bit_pos() == q,
                Err(e) => r is Err && r->Err_0.code == e,
            },
    {
        let ghost d = reader.data();
        let ghost p = reader.bit_pos();
        proof {
            lemma_one_bit(d, p);
            lemma_one_bit(d, p + 7);
        }
        // a zero bit guards against sync-like runs of ones
        let zero = match reader.read_bool() {
            Ok(b) => b,
            Err(e) => {
                return Err(e);
            },
        };
        proof {
            reader.lemma_wf();
        }
        if zero {
            return Err(Error::from_code(ErrorCode::SubframeOutOfSync));
        }
        let code = match reader.read_u8_bits(6) {
            Ok(c) => c,
            Err(e) => {
                return Err(e);
            },
        };
        proof {
            reader.lemma_wf();
        }
        let method = match PredictionMethod::parse(code) {
            Some(m) => m,
            None => {
                return Err(Error::from_code(ErrorCode::SubframeReservedType));
            },
        };
        let wasted_flag = match reader.read_bool() {
            Ok(b) => b,
            Err(e) => {
                return Err(e);
            },
        };
        proof {
            reader.lemma_wf();
        }
        let mut wasted_bits_per_sample: usize = 0;
        if wasted_flag {
            let zeros = match reader.read_unary() {
                Ok(z) => z,
                Err(e) => {
                    return Err(e);
                },
            };
            proof {
                reader.lemma_wf();
            }
            wasted_bits_per_sample = zeros as usize + 1;
        }
        Ok(SubframeHeader { method, wasted_bits_per_sample })
    }
}

/// How many residuals partition `i` holds, where each holds `per` but the
/// first, which leaves room for the `order` warm-up samples.
pub open spec fn partition_len(per: nat, order: nat, i: nat) -> int {
    if i == 0 {
        per - order
    } else {
        per as int
    }
}

#[verifier::opaque]
/// One residual partition at `p` of `count` samples: a Rice parameter of
/// `depth` bits, then Rice codes, or, where the parameter is all ones, a
/// 5-bit width and raw signed samples of that width.
pub open spec fn partition_at(d: Seq<u8>, p: int, depth: nat, count: nat) -> Result<(Seq<i32>, int), ErrorCode> {
    let end = 8 * d.len();
    if p + depth > end {
        Err(ErrorCode::UnexpectedEof)
    } else if bits_val(d, p, depth) == pow2(depth) - 1 {
        if p + depth + 5 > end {
            Err(ErrorCode::UnexpectedEof)
        } else {
            signed_run(d, p + depth + 5, bits_val(d, p + depth, 5), count)
        }
    } else {
        rice_run(d, p + depth, bits_val(d, p, depth), count)
    }
}

/// The residuals of the first `i` partitions from `p`.
pub open spec fn partitions(d: Seq<u8>, p: int, depth: nat, per: nat, order: nat, i: nat) -> Result<(Seq<i32>, int), ErrorCode>
    decreases i,
{
    if i == 0 {
        Ok((Seq::empty(), p))
    } else {
        match partitions(d, p, depth, per, order, (i - 1) as nat) {
            Err(e) => Err(e),
            Ok((s, q)) => match partition_at(d, q, depth, partition_len(per, order, (i - 1) as nat) as nat) {
                Err(e) => Err(e),
                Ok((t, q2)) => Ok((s + t, q2)),
            },
        }
    }
}

/// The residual section at `p` of a subframe of `bs` samples whose
/// predictor has order `order`.
pub open spec fn residuals_at(d: Seq<u8>, p: int, bs: nat, order: nat) -> Result<(Seq<i32>, int), ErrorCode> {
    let end = 8 * d.len();
    if p + 2 > end {
        Err(ErrorCode::UnexpectedEof)
    } else if bits_val(d, p, 2) >= 2 {
        Err(ErrorCode::ResidualCodingMethodUnknown)
    } else if p + 6 > end {
        Err(ErrorCode::UnexpectedEof)
    } else if bs / pow2(bits_val(d, p + 2, 4)) < order {
        Err(ErrorCode::LPCSignalRestoreFailure)
    } else {
        partitions(
            d,
            p + 6,
            if bits_val(d, p, 2) == 0 { 4 } else { 5 },
            bs / pow2(bits_val(d, p + 2, 4)),
            order,
            pow2(bits_val(d, p + 2, 4)),
        )
    }
}

proof fn lemma_partitions_err(d: Seq<u8>, p: int, depth: nat, per: nat, order: nat, i: nat, n: nat)
    requires
        i <= n,
        partitions(d, p, depth, per, order, i) is Err,
    ensures
        partitions(d, p, depth, per, order, n) == partitions(d, p, depth, per, order, i),
    decreases n - i,
{
    if i < n {
        lemma_partitions_err(d, p, depth, per, order, i, (n - 1) as nat);
    }
}

/// Reads one residual partition of `count` samples, appending them.
#[verifier::rlimit(60)]
fn decode_partition(reader: &mut BitReader, vec: &mut Vec<i32>, depth: usize, count: usize) -> (r: Result<(), Error>)
    requires
        old(reader).wf(),
        depth == 4 || depth == 5,
    ensures
        final(reader).keeps(old(reader)),
        match partition_at(old(reader).data(), old(reader).bit_pos(), depth as nat, count as nat) {
            Ok((s, q)) => r is Ok && final(vec)@ == old(vec)@ + s && final(reader).bit_pos() == q,
            Err(e) => r is Err && r->Err_0.code == e,
        },
{
    let ghost d = reader.data();
    let ghost p = reader.bit_pos();
    proof {
        reveal(partition_at);
    }
    let escape: u8 = if depth == 4 { 15 } else { 31 };
    let parameter = match reader.read_u8_bits(depth) {
        Ok(v) => v,
        Err(e) => {
            return Err(e);
        },
    };
    proof {
        lemma2_to64();
        reader.lemma_wf();
        lemma_bits_bound(d, p, depth as nat);
    }
    if parameter == escape {
        // raw samples of a width given in the next five bits
        let width = match reader.read_u8_bits(5) {
            Ok(v) => v,
            Err(e) => {
                return Err(e);
            },
        };
        proof {
            reader.lemma_wf();
            lemma_bits_bound(d, p + depth, 5);
            assert(bits_val(d, p, depth as nat) == pow2(depth as nat) - 1);
            assert(reader.bit_pos() == p + depth + 5);
        }
        read_signed_run(reader, vec, width as usize, count)
    } else {
        proof {
            assert(bits_val(d, p, depth as nat) != pow2(depth as nat) - 1);
            assert(reader.bit_pos() == p + depth);
            assert(p + depth <= 8 * d.len());
        }
        read_rice_run(reader, vec, parameter as usize, count)
    }
}

/// Reads the residuals of a subframe, appending them.
#[verifier::rlimit(100)]
fn decode_residuals(reader: &mut BitReader, vec: &mut Vec<i32>, block_size: usize, predictor_order: usize) -> (r: Result<(), Error>)
    requires
        old(reader).wf(),
    ensures
        final(reader).keeps(old(reader)),
        match residuals_at(old(reader).data(), old(reader).bit_pos(), block_size as nat, predictor_order as nat) {
            Ok((s, q)) => r is Ok && final(vec)@ == old(vec)@ + s && final(reader).bit_pos() == q,
            Err(e) => r is Err && r->Err_0.code == e,
        },
{
    let ghost d = reader.data();
    let ghost p = reader.bit_pos();
    let coding_method = match reader.read_u8_bits(2) {
        Ok(v) => v,
        Err(e) => {
            return Err(e);
        },
    };
    proof {
        reader.lemma_wf();
    }
    // the Rice parameter's width depends on the coding method
    let depth: usize = match coding_method {
        0b00 => 4,
        0b01 => 5,
        _ => {
            return Err(Error::from_code(ErrorCode::ResidualCodingMethodUnknown));
        },
    };
    let partition_order = match reader.read_u8_bits(4) {
        Ok(v) => v,
        Err(e) => {
            return Err(e);
        },
    };
    proof {
        reader.lemma_wf();
        lemma2_to64();
        lemma_bits_bound(d, p + 2, 4);
        lemma_pow2_pos(partition_order as nat);
        if partition_order < 16 {
            lemma_pow2_strictly_increases(partition_order as nat, 16);
        }
    }
    let num_partitions = pow2_u64(partition_order as usize) as usize;
    let per_partition = block_size / num_partitions;
    if per_partition < predictor_order {
        return Err(Error::from_code(ErrorCode::LPCSignalRestoreFailure));
    }
    decode_partitions(reader, vec, depth, predictor_order, num_partitions, per_partition)
}

/// Reads `num_partitions` residual partitions, appending their samples.
#[verifier::rlimit(100)]
fn decode_partitions(
    reader: &mut BitReader,
    vec: &mut Vec<i32>,
    depth: usize,
    predictor_order: usize,
    num_partitions: usize,
    per_partition: usize,
) -> (r: Result<(), Error>)
    requires
        old(reader).wf(),
        depth == 4 || depth == 5,
        per_partition >= predictor_order,
    ensures
        final(reader).keeps(old(reader)),
        match partitions(old(reader).data(), old(reader).bit_pos(), depth as nat, per_partition as nat, predictor_order as nat, num_partitions as nat) {
            Ok((s, q)) => r is Ok && final(vec)@ == old(vec)@ + s && final(reader).bit_pos() == q,
            Err(e) => r is Err && r->Err_0.code == e,
        },
{
    let ghost d = reader.data();
    let ghost p0 = reader.bit_pos();
    let ghost mut s: Seq<i32> = Seq::empty();
    let mut i: usize = 0;
    proof {
        assert(old(vec)@ + s =~= old(vec)@);
    }
    while i < num_partitions
        invariant
            reader.keeps(old(reader)),
            d == old(reader).data(),
            i <= num_partitions,
            per_partition >= predictor_order,
            depth == 4 || depth == 5,
            p0 == old(reader).bit_pos(),
            partitions(d, p0, depth as nat, per_partition as nat, predictor_order as nat, i as nat)
                == Ok::<(Seq<i32>, int), ErrorCode>((s, reader.bit_pos())),
            vec@ == old(vec)@ + s,
        decreases num_partitions - i,
    {
        let ghost before = *reader;
        let ghost v_before = vec@;
        let count: usize = if i == 0 { per_partition - predictor_order } else { per_partition };
        proof {
            assert(count == partition_len(per_partition as nat, predictor_order as nat, i as nat));
        }
        match decode_partition(reader, vec, depth, count) {
            Ok(()) => {},
            Err(e) => {
                proof {
                    assert(partitions(d, p0, depth as nat, per_partition as nat, predictor_order as nat, (i + 1) as nat) == Err::<(Seq<i32>, int), ErrorCode>(e.code));
                    lemma_partitions_err(d, p0, depth as nat, per_partition as nat, predictor_order as nat, (i + 1) as nat, num_partitions as nat);
                }
                return Err(e);
            },
        }
        proof {
            let t = partition_at(d, before.bit_pos(), depth as nat, count as nat)->Ok_0.0;
            assert(old(vec)@ + (s + t) =~= old(vec)@ + s + t);
            s = s + t;
        }
        i = i + 1;
    }
    Ok(())
}


/// Every sample of `s` shifted left by `w` bits, or `None` where one leaves
/// 32 bits.
pub open spec fn shifted(s: Seq<i32>, w: nat) -> Option<Seq<i32>> {
    if forall|i: int| 0 <= i < s.len() ==> fits_i32(#[trigger] s[i] * pow2(w)) {
        Some(Seq::new(s.len(), |i: int| (s[i] * pow2(w)) as i32))
    } else {
        None
    }
}

/// The body of a fixed-prediction subframe of order `order` at `p`.
pub open spec fn fixed_body(d: Seq<u8>, p: int, bps: nat, bs: nat, order: nat) -> Result<(Seq<i32>, int), ErrorCode> {
    if order > 4 {
        Err(ErrorCode::FixedLPCCoefficientUnknown)
    } else {
        match signed_run(d, p, bps, order) {
            Err(e) => Err(e),
            Ok((w, q1)) => match residuals_at(d, q1, bs, order) {
                Err(e) => Err(e),
                Ok((r, q2)) => if (w + r).len() != bs {
                    Err(ErrorCode::LPCSignalRestoreFailure)
                } else {
                    match restore_prefix(w + r, fixed_coeffs(order), 0, bs) {
                        None => Err(ErrorCode::SampleOverflow),
                        Some(s) => Ok((s, q2)),
                    }
                },
            },
        }
    }
}

/// The body of a linear-prediction subframe of order `order` at `p`: warm-up
/// samples, coefficient precision, shift, coefficients, residuals.
pub open spec fn fir_body(d: Seq<u8>, p: int, bps: nat, bs: nat, order: nat) -> Result<(Seq<i32>, int), ErrorCode> {
    let end = 8 * d.len();
    match signed_run(d, p, bps, order) {
        Err(e) => Err(e),
        Ok((w, q1)) => if q1 + 4 > end {
            Err(ErrorCode::UnexpectedEof)
        } else if bits_val(d, q1, 4) == 15 {
            Err(ErrorCode::QLPPrecisionInvalid)
        } else if q1 + 9 > end {
            Err(ErrorCode::UnexpectedEof)
        } else if signed_of(bits_val(d, q1 + 4, 5), 5) < 0 {
            Err(ErrorCode::LPCSignalRestoreFailure)
        } else {
            match signed_run(d, q1 + 9, bits_val(d, q1, 4) + 1, order) {
                Err(e) => Err(e),
                Ok((c, q3)) => match residuals_at(d, q3, bs, order) {
                    Err(e) => Err(e),
                    Ok((r, q4)) => if (w + r).len() != bs {
                        Err(ErrorCode::LPCSignalRestoreFailure)
                    } else {
                        match restore_prefix(w + r, c, signed_of(bits_val(d, q1 + 4, 5), 5) as nat, bs) {
                            None => Err(ErrorCode::SampleOverflow),
                            Some(s) => Ok((s, q4)),
                        }
                    },
                },
            }
        },
    }
}

/// The samples that a subframe body at `p` codes with `method`, before the
/// wasted bits are restored.
pub open spec fn body_at(d: Seq<u8>, p: int, method: PredictionMethod, bps: nat, bs: nat) -> Result<(Seq<i32>, int), ErrorCode> {
    match method {
        PredictionMethod::Constant => match signed_sample_at(d, p, bps) {
            Err(e) => Err(e),
            Ok((v, q)) => Ok((Seq::new(bs, |i: int| v as i32), q)),
        },
        PredictionMethod::Verbatim => signed_run(d, p, bps, bs),
        PredictionMethod::Fixed(order) => fixed_body(d, p, bps, bs, order as nat),
        PredictionMethod::Fir(order) => fir_body(d, p, bps, bs, order as nat),
    }
}

/// A subframe at `p` of a channel of `sample_size` bits per sample and
/// `bs` samples: its decoded samples and where it ends.
#[verifier::opaque]
pub open spec fn subframe_at(d: Seq<u8>, p: int, sample_size: nat, bs: nat) -> Result<(Seq<i32>, int), ErrorCode> {
    match subframe_header_at(d, p) {
        Err(e) => Err(e),
        Ok((h, q)) => if h.wasted_bits_per_sample >= sample_size {
            Err(ErrorCode::SampleSizeInvalid)
        } else {
            match body_at(d, q, h.method, (sample_size - h.wasted_bits_per_sample) as nat, bs) {
                Err(e) => Err(e),
                Ok((s, q2)) => match shifted(s, h.wasted_bits_per_sample as nat) {
                    None => Err(ErrorCode::SampleOverflow),
                    Some(t) => Ok((t, q2)),
                },
            }
        },
    }
}

proof fn lemma_signed_run_len(d: Seq<u8>, p: int, w: nat, c: nat)
    requires
        signed_run(d, p, w, c) is Ok,
    ensures
        signed_run(d, p, w, c)->Ok_0.0.len() == c,
    decreases c,
{
    if c > 0 {
        lemma_signed_run_len(d, p, w, (c - 1) as nat);
    }
}

proof fn lemma_signed_run_bound(d: Seq<u8>, p: int, w: nat, c: nat)
    requires
        1 <= w <= 16,
        signed_run(d, p, w, c) is Ok,
    ensures
        forall|i: int| 0 <= i < signed_run(d, p, w, c)->Ok_0.0.len() ==> -0x8000 <= #[trigger] signed_run(d, p, w, c)->Ok_0.0[i] <= 0x8000,
        signed_run(d, p, w, c)->Ok_0.0.len() == c,
    decreases c,
{
    if c > 0 {
        lemma_signed_run_bound(d, p, w, (c - 1) as nat);
        let q = signed_run(d, p, w, (c - 1) as nat)->Ok_0.1;
        lemma_bits_bound(d, q, w);
        lemma_pow2_unfold(w);
        lemma2_to64();
        if w < 16 {
            lemma_pow2_strictly_increases(w, 16);
        }
    }
}

/// One channel's subframe in a frame.
pub struct Subframe {
    pub method: PredictionMethod,
    pub sample_size: usize,
    pub block_size: usize,
    pub wasted_bits_per_sample: usize,
}

impl Subframe {
    /// Reads a subframe header for a channel of `sample_size` bits per sample.
    pub fn from_reader(reader: &mut BitReader, sample_size: usize, block_size: usize) -> (r: Result<Self, Error>)
        requires
            old(reader).wf(),
            sample_size <= 64,
        ensures
            final(reader).keeps(old(reader)),
            match subframe_header_at(old(reader).data(), old(reader).bit_pos()) {
                Ok((h, q)) => if h.wasted_bits_per_sample >= sample_size {
                    r is Err && r->Err_0.code == ErrorCode::SampleSizeInvalid
                } else {
                    r is Ok && final(reader).bit_pos() == q && r->Ok_0 == (Subframe {
                        method: h.method,
                        sample_size: (sample_size - h.wasted_bits_per_sample) as usize,
                        block_size,
                        wasted_bits_per_sample: h.wasted_bits_per_sample,
                    })
                },
                Err(e) => r is Err && r->Err_0.code == e,
            },
    {
        let header = match SubframeHeader::from_reader(reader) {
            Ok(h) => h,
            Err(e) => {
                return Err(e);
            },
        };
        if header.wasted_bits_per_sample >= sample_size {
            return Err(Error::from_code(ErrorCode::SampleSizeInvalid));
        }
        Ok(Subframe {
            method: header.method,
            sample_size: sample_size - header.wasted_bits_per_sample,
            block_size,
            wasted_bits_per_sample: header.wasted_bits_per_sample,
        })
    }

    pub open spec fn wf(&self) -> bool {
        &&& 1 <= self.sample_size <= 64
        &&& self.wasted_bits_per_sample < 64
        &&& (self.method is Fir ==> self.method->Fir_0 <= 32)
    }

    /// The samples this subframe's body codes, with the wasted bits restored.
    pub open spec fn decoded(&self, d: Seq<u8>, p: int) -> Result<(Seq<i32>, int), ErrorCode> {
        match body_at(d, p, self.method, self.sample_size as nat, self.block_size as nat) {
            Err(e) => Err(e),
            Ok((s, q)) => match shifted(s, self.wasted_bits_per_sample as nat) {
                None => Err(ErrorCode::SampleOverflow),
                Some(t) => Ok((t, q)),
            },
        }
    }

    /// Decodes the subframe's body into an empty buffer.
    pub fn decode(&self, reader: &mut BitReader, vec: &mut Vec<i32>) -> (r: Result<(), Error>)
        requires
            old(reader).wf(),
            old(vec)@.len() == 0,
            self.wf(),
        ensures
            final(reader).keeps(old(reader)),
            match self.decoded(old(reader).data(), old(reader).bit_pos()) {
                Ok((s, q)) => r is Ok && final(vec)@ == s && final(reader).bit_pos() == q,
                Err(e) => r is Err && r->Err_0.code == e,
            },
    {
        let body = match self.method {
            PredictionMethod::Constant => self.decode_constant(reader, vec),
            PredictionMethod::Verbatim => self.decode_verbatim(reader, vec),
            PredictionMethod::Fixed(order) => self.decode_fixed(reader, vec, order),
            PredictionMethod::Fir(order) => self.decode_fir(reader, vec, order),
        };
        match body {
            Ok(()) => {},
            Err(e) => {
                return Err(e);
            },
        }
        restore_wasted_bits(vec, self.wasted_bits_per_sample)
    }

    fn decode_constant(&self, reader: &mut BitReader, vec: &mut Vec<i32>) -> (r: Result<(), Error>)
        requires
            old(reader).wf(),
            old(vec)@.len() == 0,
            self.sample_size <= 64,
            self.method == PredictionMethod::Constant,
        ensures
            final(reader).keeps(old(reader)),
            match body_at(old(reader).data(), old(reader).bit_pos(), self.method, self.sample_size as nat, self.block_size as nat) {
                Ok((s, q)) => r is Ok && final(vec)@ == s && final(reader).bit_pos() == q,
                Err(e) => r is Err && r->Err_0.code == e,
            },
    {
        let sample = match read_signed(reader, self.sample_size) {
            Ok(v) => v,
            Err(e) => {
                return Err(e);
            },
        };
        let mut i: usize = 0;
        while i < self.block_size
            invariant
                i <= self.block_size,
                vec@ =~= Seq::new(i as nat, |k: int| sample),
            decreases self.block_size - i,
        {
            vec.push(sample);
            i = i + 1;
        }
        Ok(())
    }

    fn decode_verbatim(&self, reader: &mut BitReader, vec: &mut Vec<i32>) -> (r: Result<(), Error>)
        requires
            old(reader).wf(),
            old(vec)@.len() == 0,
            self.sample_size <= 64,
            self.method == PredictionMethod::Verbatim,
        ensures
            final(reader).keeps(old(reader)),
            match body_at(old(reader).data(), old(reader).bit_pos(), self.method, self.sample_size as nat, self.block_size as nat) {
                Ok((s, q)) => r is Ok && final(vec)@ == s && final(reader).bit_pos() == q,
                Err(e) => r is Err && r->Err_0.code == e,
            },
    {
        let r = read_signed_run(reader, vec, self.sample_size, self.block_size);
        proof {
            assert(old(vec)@ + Seq::<i32>::empty() =~= Seq::<i32>::empty());
            if r is Ok {
                let s = signed_run(old(reader).data(), old(reader).bit_pos(), self.sample_size as nat, self.block_size as nat)->Ok_0.0;
                assert(old(vec)@ + s =~= s);
            }
        }
        r
    }

    #[verifier::rlimit(60)]
    fn decode_fixed(&self, reader: &mut BitReader, vec: &mut Vec<i32>, order: usize) -> (r: Result<(), Error>)
        requires
            old(reader).wf(),
            old(vec)@.len() == 0,
            self.sample_size <= 64,
            self.method == PredictionMethod::Fixed(order),
        ensures
            final(reader).keeps(old(reader)),
            match body_at(old(reader).data(), old(reader).bit_pos(), self.method, self.sample_size as nat, self.block_size as nat) {
                Ok((s, q)) => r is Ok && final(vec)@ == s && final(reader).bit_pos() == q,
                Err(e) => r is Err && r->Err_0.code == e,
            },
    {
        let ghost d = reader.data();
        let ghost p = reader.bit_pos();
        let coefficients = match fixed_coefficients(order) {
            Some(c) => c,
            None => {
                return Err(Error::from_code(ErrorCode::FixedLPCCoefficientUnknown));
            },
        };
        // unencoded warm-up samples
        match read_signed_run(reader, vec, self.sample_size, order) {
            Ok(()) => {},
            Err(e) => {
                return Err(e);
            },
        }
        proof {
            lemma_signed_run_len(d, p, self.sample_size as nat, order as nat);
            assert(old(vec)@ + signed_run(d, p, self.sample_size as nat, order as nat)->Ok_0.0 =~= signed_run(d, p, self.sample_size as nat, order as nat)->Ok_0.0);
        }
        let ghost w = vec@;
        match decode_residuals(reader, vec, self.block_size, order) {
            Ok(()) => {},
            Err(e) => {
                return Err(e);
            },
        }
        if vec.len() != self.block_size {
            return Err(Error::from_code(ErrorCode::LPCSignalRestoreFailure));
        }
        proof {
            let c = coefficients@;
            assert forall|j: int| 0 <= j < coefficients.len() implies -0x8000 <= #[trigger] coefficients@[j] <= 0x8000 by {
                assert(-6 <= c[j] <= 6);
            }
        }
        restore_signals(&coefficients, 0, order, self.block_size, vec)
    }

    #[verifier::rlimit(60)]
    fn decode_fir(&self, reader: &mut BitReader, vec: &mut Vec<i32>, order: usize) -> (r: Result<(), Error>)
        requires
            old(reader).wf(),
            old(vec)@.len() == 0,
            self.sample_size <= 64,
            self.method == PredictionMethod::Fir(order),
            order <= 32,
        ensures
            final(reader).keeps(old(reader)),
            match body_at(old(reader).data(), old(reader).bit_pos(), self.method, self.sample_size as nat, self.block_size as nat) {
                Ok((s, q)) => r is Ok && final(vec)@ == s && final(reader).bit_pos() == q,
                Err(e) => r is Err && r->Err_0.code == e,
            },
    {
        let ghost d = reader.data();
        let ghost p = reader.bit_pos();
        // unencoded warm-up samples
        match read_signed_run(reader, vec, self.sample_size, order) {
            Ok(()) => {},
            Err(e) => {
                return Err(e);
            },
        }
        proof {
            lemma_signed_run_len(d, p, self.sample_size as nat, order as nat);
            assert(old(vec)@ + signed_run(d, p, self.sample_size as nat, order as nat)->Ok_0.0 =~= signed_run(d, p, self.sample_size as nat, order as nat)->Ok_0.0);
        }
        let ghost q1 = reader.bit_pos();
        // precision of the quantized coefficients, in bits
        let precision_bits = match reader.read_u8_bits(4) {
            Ok(v) => v,
            Err(e) => {
                return Err(e);
            },
        };
        proof {
            reader.lemma_wf();
        }
        if precision_bits == 0b1111 {
            return Err(Error::from_code(ErrorCode::QLPPrecisionInvalid));
        }
        let precision = (precision_bits as usize) + 1;
        // shift applied to the predictions
        let shift_bits = match reader.read_u64_bits(5) {
            Ok(v) => v,
            Err(e) => {
                return Err(e);
            },
        };
        proof {
            reader.lemma_wf();
            lemma2_to64();
            lemma_bits_bound(d, q1 + 4, 5);
            lemma_bits_bound(d, q1, 4);
            lemma_small_mod(shift_bits as nat, pow2(5));
        }
        let shift = sign_extend(shift_bits, 5) as i32;
        if shift < 0 {
            return Err(Error::from_code(ErrorCode::LPCSignalRestoreFailure));
        }
        // the quantized coefficients
        let mut coefficients: Vec<i32> = Vec::new();
        let ghost q2 = reader.bit_pos();
        match read_signed_run(reader, &mut coefficients, precision, order) {
            Ok(()) => {},
            Err(e) => {
                return Err(e);
            },
        }
        proof {
            lemma_signed_run_bound(d, q2, precision as nat, order as nat);
            assert(Seq::<i32>::empty() + signed_run(d, q2, precision as nat, order as nat)->Ok_0.0 =~= signed_run(d, q2, precision as nat, order as nat)->Ok_0.0);
        }
        match decode_residuals(reader, vec, self.block_size, order) {
            Ok(()) => {},
            Err(e) => {
                return Err(e);
            },
        }
        if vec.len() != self.block_size {
            return Err(Error::from_code(ErrorCode::LPCSignalRestoreFailure));
        }
        restore_signals(&coefficients, shift, order, self.block_size, vec)
    }
}

/// Shifts every sample left by the subframe's wasted bits.
#[verifier::rlimit(60)]
fn restore_wasted_bits(vec: &mut Vec<i32>, wasted: usize) -> (r: Result<(), Error>)
    requires
        wasted < 64,
    ensures
        match shifted(old(vec)@, wasted as nat) {
            Some(t) => r is Ok && final(vec)@ == t,
            None => r is Err && r->Err_0.code == ErrorCode::SampleOverflow,
        },
{
    if wasted == 0 {
        proof {
            lemma2_to64();
            assert forall|i: int| 0 <= i < vec@.len() implies fits_i32(#[trigger] vec@[i] * pow2(0)) by {}
            assert(shifted(vec@, 0)->Some_0 =~= vec@);
        }
        return Ok(());
    }
    if wasted > 32 {
        // any non-zero sample leaves 32 bits
        let mut k: usize = 0;
        while k < vec.len()
            invariant
                k <= vec.len(),
                wasted > 32,
                forall|j: int| 0 <= j < k ==> vec@[j] == 0,
            decreases vec.len() - k,
        {
            if vec[k] != 0 {
                proof {
                    lemma2_to64();
                    lemma_pow2_strictly_increases(32, wasted as nat);
                    let v = vec@[k as int] as int;
                    assert(!fits_i32(v * pow2(wasted as nat))) by (nonlinear_arith)
                        requires
                            v != 0,
                            pow2(wasted as nat) > 0x1_0000_0000,
                    ;
                }
                return Err(Error::from_code(ErrorCode::SampleOverflow));
            }
            k = k + 1;
        }
        proof {
            assert forall|i: int| 0 <= i < vec@.len() implies fits_i32(#[trigger] vec@[i] * pow2(wasted as nat)) by {
                assert(vec@[i] == 0);
            }
            assert(shifted(vec@, wasted as nat)->Some_0 =~= vec@);
        }
        return Ok(());
    }
    let scale = pow2_u64(wasted) as i128;
    let ghost orig = vec@;
    let mut i: usize = 0;
    proof {
        lemma2_to64();
        lemma_pow2_pos(wasted as nat);
        if wasted < 32 {
            lemma_pow2_strictly_increases(wasted as nat, 32);
        }
    }
    while i < vec.len()
        invariant
            i <= vec.len(),
            vec.len() == orig.len(),
            orig == old(vec)@,
            scale == pow2(wasted as nat),
            0 < scale <= 0x1_0000_0000,
            forall|j: int| 0 <= j < i ==> fits_i32(#[trigger] orig[j] * pow2(wasted as nat)) && vec@[j] == (orig[j] * pow2(wasted as nat)) as i32,
            forall|j: int| i <= j < vec.len() ==> vec@[j] == orig[j],
        decreases vec.len() - i,
    {
        let x = vec[i];
        proof {
            assert((x as int) * (scale as int) <= 0x80_0000_0000_0000_0000 && (x as int) * (scale as int) >= -0x80_0000_0000_0000_0000) by (nonlinear_arith)
                requires
                    -0x8000_0000 <= x <= 0x7fff_ffff,
                    0 < scale <= 0x1_0000_0000,
            ;
        }
        let v = (x as i128) * scale;
        if v < i32::MIN as i128 || v > i32::MAX as i128 {
            proof {
                assert(!fits_i32(orig[i as int] * pow2(wasted as nat)));
                assert(shifted(orig, wasted as nat) is None);
            }
            return Err(Error::from_code(ErrorCode::SampleOverflow));
        }
        vec.set(i, v as i32);
        i = i + 1;
    }
    proof {
        assert(shifted(orig, wasted as nat)->Some_0 =~= vec@);
    }
    Ok(())
}

/// How the channels of a frame are coded.
#[derive(Debug, Clone, Copy, PartialEq, Eq, Structural)]
pub enum ChannelAssignment {
    Independent(usize),
    LeftSideStereo,
    SideRightStereo,
    MidSideStereo,
}

pub open spec fn channel_assignment_of(n: nat) -> Option<ChannelAssignment> {
    if n <= 7 {
        Some(ChannelAssignment::Independent((n + 1) as usize))
    } else if n == 8 {
        Some(ChannelAssignment::LeftSideStereo)
    } else if n == 9 {
        Some(ChannelAssignment::SideRightStereo)
    } else if n == 10 {
        Some(ChannelAssignment::MidSideStereo)
    } else {
        None
    }
}

impl ChannelAssignment {
    pub fn parse(n: u8) -> (r: Option<Self>)
        ensures
            r == channel_assignment_of(n as nat),
    {
        match n {
            0b0000..=0b0111 => Some(ChannelAssignment::Independent((n as usize) + 1)),
            0b1000 => Some(ChannelAssignment::LeftSideStereo),
            0b1001 => Some(ChannelAssignment::SideRightStereo),
            0b1010 => Some(ChannelAssignment::MidSideStereo),
            _ => None,
        }
    }
}

/// Bits per sample for a 3-bit sample size code; code 0 defers to the stream.
pub open spec fn sample_size_of(n: nat, stream_bps: nat) -> Option<nat> {
    if n == 0 {
        Some(stream_bps)
    } else if n == 1 {
        Some(8)
    } else if n == 2 {
        Some(12)
    } else if n == 4 {
        Some(16)
    } else if n == 5 {
        Some(20)
    } else if n == 6 {
        Some(24)
    } else {
        None
    }
}

/// Samples per channel for a 4-bit block size code; codes 6 and 7 take the
/// value coded inline.
pub open spec fn block_size_of(n: nat, inline: nat) -> Option<nat> {
    if n == 1 {
        Some(192)
    } else if 2 <= n <= 5 {
        Some(576 * pow2((n - 2) as nat))
    } else if n == 6 || n == 7 {
        Some(inline)
    } else if 8 <= n <= 15 {
        Some(256 * pow2((n - 8) as nat))
    } else {
        None
    }
}

fn sample_size_from_code(n: u8, stream_bps: usize) -> (r: Option<usize>)
    ensures
        r matches Some(v) ==> sample_size_of(n as nat, stream_bps as nat) == Some(v as nat),
        r is None ==> sample_size_of(n as nat, stream_bps as nat) is None,
{
    match n {
        0b000 => Some(stream_bps),
        0b001 => Some(8),
        0b010 => Some(12),
        0b100 => Some(16),
        0b101 => Some(20),
        0b110 => Some(24),
        _ => None,
    }
}

fn block_size_from_code(n: u8, inline: usize) -> (r: Option<usize>)
    requires
        n < 16,
    ensures
        r matches Some(v) ==> block_size_of(n as nat, inline as nat) == Some(v as nat),
        r is None ==> block_size_of(n as nat, inline as nat) is None,
{
    proof {
        lemma2_to64();
    }
    match n {
        0b0001 => Some(192),
        0b0010..=0b0101 => Some(576 * (pow2_u64((n - 2) as usize) as usize)),
        0b0110 | 0b0111 => Some(inline),
        0b1000..=0b1111 => Some(256 * (pow2_u64((n - 8) as usize) as usize)),
        _ => None,
    }
}

/// How many continuation bytes follow the lead byte `v` of a UTF-8-style
/// coded number: one for each leading one bit past the first.
pub open spec fn utf8_extra(v: nat, k: nat) -> nat
    decreases k,
{
    if k == 0 || v < 0xC0 {
        0
    } else {
        1 + utf8_extra((v * 2) % 256, (k - 1) as nat)
    }
}

/// The parameters of a frame.
#[derive(Debug, Clone, Copy, PartialEq, Eq, Structural)]
pub struct FrameHeader {
    pub sample_size: usize,
    pub block_size: usize,
    pub channel_assignment: ChannelAssignment,
}

/// Where the fields of a frame header at `p` lie: the end of the coded
/// number, of the inline block size and of the inline sample rate.
pub open spec fn header_layout(d: Seq<u8>, p: int) -> (int, int, int) {
    let bsc = bits_val(d, p + 16, 4);
    let src = bits_val(d, p + 20, 4);
    let number_end = p + 40 + 8 * utf8_extra(bits_val(d, p + 32, 8), 8);
    let size_end = number_end + if bsc == 6 { 8int } else if bsc == 7 { 16int } else { 0int };
    let rate_end = size_end + if src == 12 { 8int } else if src == 13 || src == 14 { 16int } else { 0int };
    (number_end, size_end, rate_end)
}

/// The frame header at `p`, where a frame starts on a byte boundary: `None`
/// where the stream ends cleanly before it; else the header and where it
/// ends. The header's bytes up to its CRC-8 byte must have that CRC.
#[verifier::opaque]
pub open spec fn frame_header_at(d: Seq<u8>, p: int, stream_bps: nat) -> Result<Option<(FrameHeader, int)>, ErrorCode> {
    let end = 8 * d.len();
    let (number_end, size_end, rate_end) = header_layout(d, p);
    let bsc = bits_val(d, p + 16, 4);
    if p >= end {
        Ok(None)
    } else if p + 14 > end {
        Err(ErrorCode::UnexpectedEof)
    } else if bits_val(d, p, 14) != 0x3ffe {
        Err(ErrorCode::FrameOutOfSync)
    } else if p + 40 > end || rate_end + 8 > end {
        Err(ErrorCode::UnexpectedEof)
    } else if crc8_of(d.subrange(p / 8, rate_end / 8)) != bits_val(d, rate_end, 8) {
        Err(ErrorCode::FrameHeaderCrcMismatch)
    } else {
        match sample_size_of(bits_val(d, p + 28, 3), stream_bps) {
            None => Err(ErrorCode::FrameSampleSizeUnknown),
            Some(ss) => match block_size_of(bsc, bits_val(d, number_end, (size_end - number_end) as nat) + 1) {
                None => Err(ErrorCode::FrameBlockSizeUnknown),
                Some(bs) => match channel_assignment_of(bits_val(d, p + 24, 4)) {
                    None => Err(ErrorCode::FrameChannelAssignmentUnknown),
                    Some(ca) => Ok(
                        Some(
                            (
                                FrameHeader {
                                    sample_size: ss as usize,
                                    block_size: bs as usize,
                                    channel_assignment: ca,
                                },
                                rate_end + 8,
                            ),
                        ),
                    ),
                },
            },
        }
    }
}

impl FrameHeader {
    #[verifier::rlimit(100)]
    pub fn from_reader(reader: &mut BitReader, stream_info: &StreamInfo) -> (r: Result<Option<Self>, Error>)
        requires
            old(reader).wf(),
            old(reader).aligned(),
            stream_info.bits_per_sample <= 32,
        ensures
            final(reader).wf(),
            final(reader).data() == old(reader).data(),
            final(reader).taps().2 == old(reader).taps().2,
            final(reader).taps().3 == old(reader).taps().3,
            match frame_header_at(old(reader).data(), old(reader).bit_pos(), stream_info.bits_per_sample as nat) {
                Ok(None) => r is Ok && r->Ok_0 is None,
                Ok(Some((h, q))) => r is Ok && r->Ok_0 == Some(h) && final(reader).bit_pos() == q
                    && final(reader).aligned() && h.sample_size <= 32 && q > old(reader).bit_pos(),
                Err(e) => r is Err && r->Err_0.code == e,
            },
    {
        let ghost d = reader.data();
        let ghost p = reader.bit_pos();
        proof {
            reader.lemma_wf();
            lemma2_to64();
        }
        reveal(frame_header_at);
        reader.compute_crc8_begin();
        if reader.at_end() {
            return Ok(None);
        }
        let sync_code = match reader.read_u16_bits(14) {
            Ok(v) => v,
            Err(e) => {
                return Err(e);
            },
        };
        proof {
            reader.lemma_wf();
            assert(p < 8 * d.len());
            assert(p + 14 <= 8 * d.len());
            assert(sync_code == bits_val(d, p, 14));
        }
        if sync_code != 0x3ffe {
            return Err(Error::from_code(ErrorCode::FrameOutOfSync));
        }
        let ghost after_sync = *reader;
        let header_fields = read_header_fields(reader);
        let (block_size_bits, channel_bits, sample_size_bits, variable_block_size) = match header_fields {
            Ok(v) => v,
            Err(e) => {
                return Err(e);
            },
        };
        // the header's CRC covers its bytes up to the CRC byte itself
        let ghost before_crc = *reader;
        proof {
            reader.lemma_wf();
        }
        let actual_crc8 = reader.compute_crc8_end();
        let expected_crc8 = match reader.read_u8() {
            Ok(v) => v,
            Err(e) => {
                return Err(e);
            },
        };
        proof {
            reader.lemma_wf();
            before_crc.lemma_wf();
        }
        if actual_crc8 != expected_crc8 {
            return Err(Error::from_code(ErrorCode::FrameHeaderCrcMismatch));
        }
        let sample_size = match sample_size_from_code(sample_size_bits, stream_info.bits_per_sample) {
            Some(v) => v,
            None => {
                return Err(Error::from_code(ErrorCode::FrameSampleSizeUnknown));
            },
        };
        let block_size = match block_size_from_code(block_size_bits, variable_block_size) {
            Some(v) => v,
            None => {
                return Err(Error::from_code(ErrorCode::FrameBlockSizeUnknown));
            },
        };
        let channel_assignment = match ChannelAssignment::parse(channel_bits) {
            Some(v) => v,
            None => {
                return Err(Error::from_code(ErrorCode::FrameChannelAssignmentUnknown));
            },
        };
        Ok(Some(FrameHeader { sample_size, block_size, channel_assignment }))
    }
}

/// Reads a frame header from just after its sync code up to its CRC byte:
/// the block size, channel and sample size codes, and the inline block size
/// plus one (zero where there is none).
#[verifier::rlimit(100)]
fn read_header_fields(reader: &mut BitReader) -> (r: Result<(u8, u8, u8, usize), Error>)
    requires
        old(reader).wf(),
        old(reader).bit_pos() >= 14,
    ensures
        final(reader).keeps(old(reader)),
        ({
            let d = old(reader).data();
            let p = old(reader).bit_pos() - 14;
            let (number_end, size_end, rate_end) = header_layout(d, p);
            &&& p + 40 <= 8 * d.len() && rate_end <= 8 * d.len() ==> r is Ok
            &&& r is Ok ==> {
                &&& final(reader).bit_pos() == rate_end
                &&& p + 40 <= 8 * d.len()
                &&& r->Ok_0.0 == bits_val(d, p + 16, 4)
                &&& r->Ok_0.0 < 16
                &&& r->Ok_0.1 == bits_val(d, p + 24, 4)
                &&& r->Ok_0.2 == bits_val(d, p + 28, 3)
                &&& (bits_val(d, p + 16, 4) == 6 || bits_val(d, p + 16, 4) == 7) ==> r->Ok_0.3 == bits_val(d, number_end, (size_end - number_end) as nat) + 1
            }
            &&& r is Err ==> r->Err_0.code == ErrorCode::UnexpectedEof && (p + 40 > 8 * d.len() || rate_end > 8 * d.len())
        }),
{
    let ghost d = reader.data();
    let ghost p = reader.bit_pos() - 14;
    let _reserved = match reader.read_bool() {
        Ok(v) => v,
        Err(e) => {
            return Err(e);
        },
    };
    let _blocking_strategy = match reader.read_u8_bits(1) {
        Ok(v) => v,
        Err(e) => {
            return Err(e);
        },
    };
    let block_size_bits = match reader.read_u8_bits(4) {
        Ok(v) => v,
        Err(e) => {
            return Err(e);
        },
    };
    let sample_rate_bits = match reader.read_u8_bits(4) {
        Ok(v) => v,
        Err(e) => {
            return Err(e);
        },
    };
    let channel_bits = match reader.read_u8_bits(4) {
        Ok(v) => v,
        Err(e) => {
            return Err(e);
        },
    };
    let sample_size_bits = match reader.read_u8_bits(3) {
        Ok(v) => v,
        Err(e) => {
            return Err(e);
        },
    };
    let _reserved2 = match reader.read_bool() {
        Ok(v) => v,
        Err(e) => {
            return Err(e);
        },
    };
    // skip the coded frame or sample number
    let lead = match reader.read_u8() {
        Ok(v) => v,
        Err(e) => {
            return Err(e);
        },
    };
    proof {
        lemma2_to64();
        lemma_bits_bound(d, p + 16, 4);
    }
    let mut v1: u32 = lead as u32;
    let mut k: usize = 0;
    while v1 >= 0b1100_0000 && k < 8
        invariant
            reader.keeps(old(reader)),
            d == old(reader).data(),
            p == old(reader).bit_pos() - 14,
            k <= 8,
            v1 < 256,
            reader.bit_pos() == p + 40 + 8 * k,
            utf8_extra(lead as nat, 8) == k + utf8_extra(v1 as nat, (8 - k) as nat),
            lead == bits_val(d, p + 32, 8),
        decreases 8 - k,
    {
        match reader.read_u8() {
            Ok(_) => {},
            Err(e) => {
                proof {
                    reader.lemma_wf();
                    assert(utf8_extra(v1 as nat, (8 - k) as nat) >= 1);
                    assert(header_layout(d, p).0 >= p + 40 + 8 * (k + 1));
                }
                return Err(e);
            },
        }
        v1 = (v1 * 2) % 256;
        k = k + 1;
    }
    proof {
        assert(utf8_extra(v1 as nat, (8 - k) as nat) == 0);
        assert(block_size_bits == bits_val(d, p + 16, 4));
        assert(sample_rate_bits == bits_val(d, p + 20, 4));
        assert(channel_bits == bits_val(d, p + 24, 4));
        assert(sample_size_bits == bits_val(d, p + 28, 3));
        assert(lead == bits_val(d, p + 32, 8));
        assert(reader.bit_pos() == header_layout(d, p).0);
        lemma_bits_bound(d, p + 24, 4);
        lemma_bits_bound(d, p + 28, 3);
    }
    let ghost number_end = reader.bit_pos();
    // the block size coded inline
    let variable_block_size: usize = if block_size_bits == 0b0110 {
        match reader.read_u8() {
            Ok(x) => (x as usize) + 1,
            Err(e) => {
                return Err(e);
            },
        }
    } else if block_size_bits == 0b0111 {
        match reader.read_u16() {
            Ok(x) => (x as usize) + 1,
            Err(e) => {
                return Err(e);
            },
        }
    } else {
        0
    };
    proof {
        assert(reader.bit_pos() == header_layout(d, p).1);
    }
    // the sample rate coded inline, which decoding does not need
    if sample_rate_bits == 0b1100 {
        match reader.read_u8() {
            Ok(_) => {},
            Err(e) => {
                return Err(e);
            },
        }
    } else if sample_rate_bits == 0b1101 || sample_rate_bits == 0b1110 {
        match reader.read_u16() {
            Ok(_) => {},
            Err(e) => {
                return Err(e);
            },
        }
    }
    proof {
        assert(reader.bit_pos() == header_layout(d, p).2);
        reader.lemma_wf();
    }
    Ok((block_size_bits, channel_bits, sample_size_bits, variable_block_size))
}

/// How many subframes a frame with this assignment holds.
pub open spec fn channel_count(ca: ChannelAssignment) -> nat {
    match ca {
        ChannelAssignment::Independent(n) => n as nat,
        _ => 2,
    }
}

/// Whether channel `c` carries the side signal, one bit wider than the rest.
pub open spec fn is_side_channel(ca: ChannelAssignment, c: nat) -> bool {
    match ca {
        ChannelAssignment::LeftSideStereo => c == 1,
        ChannelAssignment::SideRightStereo => c == 0,
        ChannelAssignment::MidSideStereo => c == 1,
        ChannelAssignment::Independent(_) => false,
    }
}

pub open spec fn channel_sample_size(h: FrameHeader, c: nat) -> nat {
    if is_side_channel(h.channel_assignment, c) {
        (h.sample_size + 1) as nat
    } else {
        h.sample_size as nat
    }
}

/// The first `c` subframes of a frame from `p`.
pub open spec fn subframes_at(d: Seq<u8>, p: int, h: FrameHeader, c: nat) -> Result<(Seq<Seq<i32>>, int), ErrorCode>
    decreases c,
{
    if c == 0 {
        Ok((Seq::empty(), p))
    } else {
        match subframes_at(d, p, h, (c - 1) as nat) {
            Err(e) => Err(e),
            Ok((chs, q)) => match subframe_at(d, q, channel_sample_size(h, (c - 1) as nat), h.block_size as nat) {
                Err(e) => Err(e),
                Ok((s, q2)) => Ok((chs.push(s), q2)),
            },
        }
    }
}

/// One pair of stereo samples restored to left and right.
pub open spec fn restore_pair(ca: ChannelAssignment, x: int, y: int) -> (int, int) {
    match ca {
        ChannelAssignment::LeftSideStereo => (x, x - y),
        ChannelAssignment::SideRightStereo => (x + y, y),
        ChannelAssignment::MidSideStereo => {
            let m = 2 * x + y % 2;
            ((m + y) / 2, (m - y) / 2)
        },
        ChannelAssignment::Independent(_) => (x, y),
    }
}

/// Inter-channel decorrelation undone sample by sample, or `None` where a
/// restored sample leaves 32 bits.
#[verifier::opaque]
pub open spec fn decorrelated(ca: ChannelAssignment, a: Seq<i32>, b: Seq<i32>) -> Option<(Seq<i32>, Seq<i32>)> {
    if forall|i: int| 0 <= i < a.len() ==> fits_i32(#[trigger] restore_pair(ca, a[i] as int, b[i] as int).0)
        && fits_i32(restore_pair(ca, a[i] as int, b[i] as int).1) {
        Some(
            (
                Seq::new(a.len(), |i: int| restore_pair(ca, a[i] as int, b[i] as int).0 as i32),
                Seq::new(a.len(), |i: int| restore_pair(ca, a[i] as int, b[i] as int).1 as i32),
            ),
        )
    } else {
        None
    }
}

/// Mid/side coding loses nothing: from `M = (L + R) >> 1` and `S = L - R`,
/// the low bit of `S` restores the bit that the shift dropped, and the
/// reconstruction gives back `L` and `R` exactly.
pub proof fn lemma_mid_side_round_trip(l: int, r: int)
    ensures
        restore_pair(ChannelAssignment::MidSideStereo, (l + r) / 2, l - r) == (l, r),
{
    let s = l - r;
    let m = 2 * ((l + r) / 2) + s % 2;
    assert((l - r) % 2 == (l + r) % 2) by {
        vstd::arithmetic::div_mod::lemma_fundamental_div_mod(l - r, 2);
        vstd::arithmetic::div_mod::lemma_fundamental_div_mod(l + r, 2);
        assert((l + r) - (l - r) == 2 * r);
        vstd::arithmetic::div_mod::lemma_mod_multiples_vanish(r, l - r, 2);
    }
    vstd::arithmetic::div_mod::lemma_fundamental_div_mod(l + r, 2);
    assert(m == l + r);
    assert((m + s) == 2 * l);
    assert((m - s) == 2 * r);
}

/// The channels of a frame after decorrelation.
pub open spec fn frame_channels(ca: ChannelAssignment, chs: Seq<Seq<i32>>) -> Option<Seq<Seq<i32>>> {
    match ca {
        ChannelAssignment::Independent(_) => Some(chs),
        _ => match decorrelated(ca, chs[0], chs[1]) {
            None => None,
            Some((l, r)) => Some(seq![l, r]),
        },
    }
}

/// The frame at `p` of a stream whose decoder holds `nbufs` channel
/// buffers: `None` where the stream ends cleanly; else its header, its
/// channels and where it ends. It ends on a byte boundary, with a CRC-16 of
/// its bytes from the header on.
pub open spec fn frame_at(d: Seq<u8>, p: int, stream_bps: nat, nbufs: nat) -> Result<Option<(FrameHeader, Seq<Seq<i32>>, int)>, ErrorCode> {
    match frame_header_at(d, p, stream_bps) {
        Err(e) => Err(e),
        Ok(None) => Ok(None),
        Ok(Some((h, q))) => if channel_count(h.channel_assignment) > nbufs {
            Err(ErrorCode::FrameBufferUnallocated)
        } else {
            match subframes_at(d, q, h, channel_count(h.channel_assignment)) {
                Err(e) => Err(e),
                Ok((chs, q2)) => match frame_channels(h.channel_assignment, chs) {
                    None => Err(ErrorCode::SampleOverflow),
                    Some(out) => {
                        let q3 = 8 * ((q2 + 7) / 8);
                        if q3 + 16 > 8 * d.len() {
                            Err(ErrorCode::UnexpectedEof)
                        } else if crc16_of(d.subrange(p / 8, q3 / 8)) != bits_val(d, q3, 16) {
                            Err(ErrorCode::FrameCrcMismatch)
                        } else {
                            Ok(Some((h, out, q3 + 16)))
                        }
                    },
                },
            }
        },
    }
}

/// Every frame that decodes has passed both of its CRCs: the CRC-8 of its
/// header's bytes equals the header's CRC byte, and the CRC-16 of its bytes
/// up to its last two equals the value they hold.
pub proof fn lemma_frame_crcs(d: Seq<u8>, p: int, stream_bps: nat, nbufs: nat)
    requires
        p % 8 == 0,
        frame_at(d, p, stream_bps, nbufs) is Ok,
        frame_at(d, p, stream_bps, nbufs)->Ok_0 is Some,
    ensures
        ({
            let (number_end, size_end, rate_end) = header_layout(d, p);
            let q = frame_at(d, p, stream_bps, nbufs)->Ok_0->Some_0.2;
            &&& crc8_of(d.subrange(p / 8, rate_end / 8)) == bits_val(d, rate_end, 8)
            &&& q % 8 == 0
            &&& crc16_of(d.subrange(p / 8, q / 8 - 2)) == bits_val(d, q - 16, 16)
        }),
{
    reveal(frame_header_at);
}

/// Decodes the subframe of one channel.
fn decode_channel(reader: &mut BitReader, sample_size: usize, block_size: usize) -> (r: Result<Vec<i32>, Error>)
    requires
        old(reader).wf(),
        sample_size <= 33,
    ensures
        final(reader).keeps(old(reader)),
        match subframe_at(old(reader).data(), old(reader).bit_pos(), sample_size as nat, block_size as nat) {
            Ok((s, q)) => r is Ok && r->Ok_0@ == s && final(reader).bit_pos() == q,
            Err(e) => r is Err && r->Err_0.code == e,
        },
{
    reveal(subframe_at);
    let subframe = match Subframe::from_reader(reader, sample_size, block_size) {
        Ok(s) => s,
        Err(e) => {
            return Err(e);
        },
    };
    proof {
        let (h, q) = subframe_header_at(old(reader).data(), old(reader).bit_pos())->Ok_0;
        match h.method {
            PredictionMethod::Fir(o) => {
                let n = bits_val(old(reader).data(), old(reader).bit_pos() + 1, 6);
                assert(method_of(n) == Some(h.method));
            },
            _ => {},
        }
    }
    let mut vec: Vec<i32> = Vec::new();
    match subframe.decode(reader, &mut vec) {
        Ok(()) => Ok(vec),
        Err(e) => Err(e),
    }
}

/// Whether `(l, r)` is the restored pair of `(x, y)`, each within 32 bits.
pub open spec fn pair_restored(ca: ChannelAssignment, x: i32, y: i32, l: i32, r: i32) -> bool {
    let p = restore_pair(ca, x as int, y as int);
    fits_i32(p.0) && fits_i32(p.1) && l as int == p.0 && r as int == p.1
}

/// Undoes the stereo decorrelation of a pair of channels in place.
#[verifier::rlimit(60)]
fn decorrelate(ca: ChannelAssignment, a: &mut Vec<i32>, b: &mut Vec<i32>) -> (r: Result<(), Error>)
    requires
        old(a).len() == old(b).len(),
        !(ca is Independent),
    ensures
        match decorrelated(ca, old(a)@, old(b)@) {
            Some((x, y)) => r is Ok && final(a)@ == x && final(b)@ == y,
            None => r is Err && r->Err_0.code == ErrorCode::SampleOverflow,
        },
{
    reveal(decorrelated);
    let ghost a0 = a@;
    let ghost b0 = b@;
    let mut i: usize = 0;
    while i < a.len()
        invariant
            a.len() == b.len() == a0.len() == b0.len(),
            a0 == old(a)@,
            b0 == old(b)@,
            i <= a.len(),
            !(ca is Independent),
            forall|j: int| 0 <= j < i ==> pair_restored(ca, a0[j], b0[j], #[trigger] a@[j], b@[j]),
            forall|j: int| i <= j < a.len() ==> a@[j] == a0[j] && b@[j] == b0[j],
        decreases a.len() - i,
    {
        let x = a[i] as i64;
        let y = b[i] as i64;
        let (l, r): (i64, i64) = match ca {
            ChannelAssignment::LeftSideStereo => (x, x - y),
            ChannelAssignment::SideRightStereo => (x + y, y),
            _ => {
                // the low bit of the side channel is the one the mid channel lost
                let parity: i64 = if y >= 0 { ((y as u64) % 2) as i64 } else { (((-y) as u64) % 2) as i64 };
                let m = 2 * x + parity;
                let t = m + y;
                let l = if t >= 0 { ((t as u64) / 2) as i64 } else { -((((-t) as u64) / 2) as i64) };
                proof {
                    assert(parity == y % 2) by {
                        vstd::arithmetic::div_mod::lemma_fundamental_div_mod(y as int, 2);
                        vstd::arithmetic::div_mod::lemma_fundamental_div_mod(-y as int, 2);
                    }
                    assert(t % 2 == 0) by {
                        vstd::arithmetic::div_mod::lemma_fundamental_div_mod(y as int, 2);
                    }
                    vstd::arithmetic::div_mod::lemma_fundamental_div_mod(t as int, 2);
                    vstd::arithmetic::div_mod::lemma_fundamental_div_mod(-t as int, 2);
                    assert(l == t / 2);
                }
                (l, l - y)
            },
        };
        proof {
            assert(l == restore_pair(ca, x as int, y as int).0);
            assert(r == restore_pair(ca, x as int, y as int).1);
            if ca is MidSideStereo {
                let m = 2 * x + y % 2;
                assert((m - y) / 2 == (m + y) / 2 - y) by {
                    vstd::arithmetic::div_mod::lemma_fundamental_div_mod(m + y, 2);
                    vstd::arithmetic::div_mod::lemma_fundamental_div_mod_converse(m - y, 2, (m + y) / 2 - y, 0);
                    vstd::arithmetic::div_mod::lemma_fundamental_div_mod(y as int, 2);
                }
            }
        }
        if l < i32::MIN as i64 || l > i32::MAX as i64 || r < i32::MIN as i64 || r > i32::MAX as i64 {
            proof {
                reveal(decorrelated);
                assert(!(fits_i32(restore_pair(ca, a0[i as int] as int, b0[i as int] as int).0) && fits_i32(restore_pair(ca, a0[i as int] as int, b0[i as int] as int).1)));
                assert(decorrelated(ca, a0, b0) is None);
            }
            return Err(Error::from_code(ErrorCode::SampleOverflow));
        }
        let ghost pa = a@;
        let ghost pb = b@;
        a.set(i, l as i32);
        b.set(i, r as i32);
        proof {
            let rp = restore_pair(ca, a0[i as int] as int, b0[i as int] as int);
            assert(a0[i as int] as int == x as int && b0[i as int] as int == y as int);
            assert(rp.0 == l && rp.1 == r);
            assert(fits_i32(rp.0) && fits_i32(rp.1));
            assert(pair_restored(ca, a0[i as int], b0[i as int], a@[i as int], b@[i as int]));
            assert forall|j: int| 0 <= j < i + 1 implies pair_restored(ca, a0[j], b0[j], #[trigger] a@[j], b@[j]) by {
                if j < i {
                    assert(a@[j] == pa[j] && b@[j] == pb[j]);
                }
            }
        }
        i = i + 1;
    }
    proof {
        assert forall|j: int| 0 <= j < a0.len() implies fits_i32(#[trigger] restore_pair(ca, a0[j] as int, b0[j] as int).0)
            && fits_i32(restore_pair(ca, a0[j] as int, b0[j] as int).1) by {
            assert(pair_restored(ca, a0[j], b0[j], a@[j], b@[j]));
        }
        let (x, y) = decorrelated(ca, a0, b0)->Some_0;
        assert forall|j: int| 0 <= j < a0.len() implies a@[j] == x[j] && b@[j] == y[j] by {
            assert(pair_restored(ca, a0[j], b0[j], a@[j], b@[j]));
        }
        assert(a@ =~= x);
        assert(b@ =~= y);
    }
    Ok(())
}

proof fn lemma_subframe_len(d: Seq<u8>, p: int, ss: nat, bs: nat)
    requires
        subframe_at(d, p, ss, bs) is Ok,
    ensures
        subframe_at(d, p, ss, bs)->Ok_0.0.len() == bs,
{
    reveal(subframe_at);
    let (h, q) = subframe_header_at(d, p)->Ok_0;
    let bps = (ss - h.wasted_bits_per_sample) as nat;
    match h.method {
        PredictionMethod::Constant => {},
        PredictionMethod::Verbatim => {
            lemma_signed_run_len(d, q, bps, bs);
        },
        PredictionMethod::Fixed(o) => {
            let (w, q1) = signed_run(d, q, bps, o as nat)->Ok_0;
            let (r, q2) = residuals_at(d, q1, bs, o as nat)->Ok_0;
            lemma_restore_prefix_len(w + r, fixed_coeffs(o as nat), 0, bs);
        },
        PredictionMethod::Fir(o) => {
            let (w, q1) = signed_run(d, q, bps, o as nat)->Ok_0;
            let (c, q3) = signed_run(d, q1 + 9, bits_val(d, q1, 4) + 1, o as nat)->Ok_0;
            let (r, q4) = residuals_at(d, q3, bs, o as nat)->Ok_0;
            lemma_restore_prefix_len(w + r, c, signed_of(bits_val(d, q1 + 4, 5), 5) as nat, bs);
        },
    }
}

/// A decoded frame: its header and one buffer of samples per channel.
pub struct Frame {
    pub header: FrameHeader,
    pub blocks: Vec<Vec<i32>>,
}

impl Frame {
    /// Whether the frame holds the channels `chs` in its first buffers.
    pub open spec fn holds(&self, h: FrameHeader, chs: Seq<Seq<i32>>, nbufs: nat) -> bool {
        &&& self.header == h
        &&& self.blocks@.len() == nbufs
        &&& chs.len() <= nbufs
        &&& forall|c: int| 0 <= c < chs.len() ==> (#[trigger] self.blocks@[c])@ == chs[c]
    }

    /// Decodes the next frame into the channel buffers `blocks`, or gives
    /// `None` where the stream ends before it.
    #[verifier::rlimit(100)]
    #[verifier::loop_isolation(false)]
    pub fn from_reader(reader: &mut BitReader, stream_info: &StreamInfo, blocks: Vec<Vec<i32>>) -> (r: Result<Option<Self>, Error>)
        requires
            old(reader).wf(),
            old(reader).aligned(),
            stream_info.bits_per_sample <= 32,
        ensures
            final(reader).wf(),
            final(reader).data() == old(reader).data(),
            match frame_at(old(reader).data(), old(reader).bit_pos(), stream_info.bits_per_sample as nat, blocks@.len()) {
                Ok(None) => r is Ok && r->Ok_0 is None,
                Ok(Some((h, chs, q))) => r is Ok && r->Ok_0 is Some && r->Ok_0->Some_0.holds(h, chs, blocks@.len())
                    && final(reader).bit_pos() == q && final(reader).aligned() && q > old(reader).bit_pos(),
                Err(e) => r is Err && r->Err_0.code == e,
            },
    {
        let ghost d = reader.data();
        let ghost p = reader.bit_pos();
        let ghost nbufs = blocks@.len();
        let mut blocks = blocks;
        proof {
            reader.lemma_wf();
        }
        reader.compute_crc16_begin();
        let header = match FrameHeader::from_reader(reader, stream_info) {
            Ok(Some(h)) => h,
            Ok(None) => {
                reader.compute_crc16_end();
                return Ok(None);
            },
            Err(e) => {
                return Err(e);
            },
        };
        let ghost q = reader.bit_pos();
        let ghost h = header;
        proof {
            assert(header.sample_size <= 32);
        }
        let ss = header.sample_size;
        let bs = header.block_size;
        let ghost mut chs: Seq<Seq<i32>> = Seq::empty();
        let ghost t = reader.taps();
        match header.channel_assignment {
            ChannelAssignment::Independent(num_channels) => {
                if num_channels > blocks.len() {
                    return Err(Error::from_code(ErrorCode::FrameBufferUnallocated));
                }
                let ghost mut got: Seq<Seq<i32>> = Seq::empty();
                let mut c: usize = 0;
                while c < num_channels
                    invariant
                        reader.wf(),
                        reader.data() == d,
                        reader.taps() == t,
                        c <= num_channels <= blocks.len(),
                        blocks@.len() == nbufs,
                        ss <= 32,
                        ss == header.sample_size,
                        bs == header.block_size,
                        h == header,
                        d == old(reader).data(),
                        p == old(reader).bit_pos(),
                        frame_header_at(d, p, stream_info.bits_per_sample as nat) == Ok::<Option<(FrameHeader, int)>, ErrorCode>(Some((h, q))),
                        header.channel_assignment == ChannelAssignment::Independent(num_channels),
                        subframes_at(d, q, h, c as nat) == Ok::<(Seq<Seq<i32>>, int), ErrorCode>((got, reader.bit_pos())),
                        reader.bit_pos() >= q,
                        got.len() == c,
                        forall|k: int| 0 <= k < c ==> (#[trigger] blocks@[k])@ == got[k],
                    decreases num_channels - c,
                {
                    let v = match decode_channel(reader, ss, bs) {
                        Ok(v) => v,
                        Err(e) => {
                            proof {
                                assert(channel_sample_size(h, c as nat) == ss);
                                assert(subframes_at(d, q, h, (c + 1) as nat) == Err::<(Seq<Seq<i32>>, int), ErrorCode>(e.code));
                                lemma_subframes_err(d, q, h, (c + 1) as nat, num_channels as nat);
                                assert(channel_count(h.channel_assignment) == num_channels);
                            }
                            return Err(e);
                        },
                    };
                    proof {
                        assert(channel_sample_size(h, c as nat) == ss);
                        assert(subframes_at(d, q, h, (c + 1) as nat) == Ok::<(Seq<Seq<i32>>, int), ErrorCode>((got.push(v@), reader.bit_pos())));
                        got = got.push(v@);
                    }
                    let ghost old_blocks = blocks@;
                    blocks.set(c, v);
                    proof {
                        assert forall|k: int| 0 <= k < c + 1 implies (#[trigger] blocks@[k])@ == got[k] by {
                            if k < c {
                                assert(blocks@[k] == old_blocks[k]);
                            }
                        }
                    }
                    c = c + 1;
                }
                proof {
                    chs = got;
                }
            },
            _ => {
                if blocks.len() < 2 {
                    return Err(Error::from_code(ErrorCode::FrameBufferUnallocated));
                }
                let first_size = if header.channel_assignment == ChannelAssignment::SideRightStereo { ss + 1 } else { ss };
                let second_size = if header.channel_assignment == ChannelAssignment::SideRightStereo { ss } else { ss + 1 };
                proof {
                    assert(channel_sample_size(h, 0) == first_size);
                    assert(channel_sample_size(h, 1) == second_size);
                    assert(subframes_at(d, q, h, 0) == Ok::<(Seq<Seq<i32>>, int), ErrorCode>((Seq::empty(), q)));
                    assert(Seq::<Seq<i32>>::empty().push(Seq::<i32>::empty()) =~= seq![Seq::<i32>::empty()]);
                }
                let mut first = match decode_channel(reader, first_size, bs) {
                    Ok(v) => v,
                    Err(e) => {
                        proof {
                            assert(subframes_at(d, q, h, 1) is Err);
                            lemma_subframes_err(d, q, h, 1, 2);
                        }
                        return Err(e);
                    },
                };
                proof {
                    assert(Seq::<Seq<i32>>::empty().push(first@) =~= seq![first@]);
                }
                let ghost q1 = reader.bit_pos();
                let mut second = match decode_channel(reader, second_size, bs) {
                    Ok(v) => v,
                    Err(e) => {
                        proof {
                            assert(subframes_at(d, q, h, 1) == Ok::<(Seq<Seq<i32>>, int), ErrorCode>((seq![first@], q1)));
                        }
                        return Err(e);
                    },
                };
                proof {
                    lemma_subframe_len(d, q, first_size as nat, bs as nat);
                    lemma_subframe_len(d, q1, second_size as nat, bs as nat);
                    chs = seq![first@, second@];
                    assert(subframes_at(d, q, h, 1) == Ok::<(Seq<Seq<i32>>, int), ErrorCode>((seq![first@], q1)));
                    assert(seq![first@].push(second@) =~= chs);
                }
                match decorrelate(header.channel_assignment, &mut first, &mut second) {
                    Ok(()) => {},
                    Err(e) => {
                        return Err(e);
                    },
                }
                proof {
                    chs = seq![first@, second@];
                }
                blocks.set(0, first);
                blocks.set(1, second);
            },
        }
        // zero padding up to the byte boundary
        let ghost q2 = reader.bit_pos();
        proof {
            reader.lemma_wf();
        }
        reader.align_to_byte();
        proof {
            reader.lemma_wf();
            assert(reader.bit_pos() == 8 * ((q2 + 7) / 8));
            assert(q2 >= q);
        }
        let actual_crc16 = reader.compute_crc16_end();
        let expected_crc16 = match reader.read_u16() {
            Ok(v) => v,
            Err(e) => {
                return Err(e);
            },
        };
        proof {
            reader.lemma_wf();
        }
        if actual_crc16 != expected_crc16 {
            return Err(Error::from_code(ErrorCode::FrameCrcMismatch));
        }
        Ok(Some(Frame { header, blocks }))
    }
}

proof fn lemma_subframes_lengths(d: Seq<u8>, p: int, h: FrameHeader, c: nat)
    requires
        subframes_at(d, p, h, c) is Ok,
    ensures
        subframes_at(d, p, h, c)->Ok_0.0.len() == c,
        forall|i: int| 0 <= i < c ==> (#[trigger] subframes_at(d, p, h, c)->Ok_0.0[i]).len() == h.block_size,
    decreases c,
{
    if c > 0 {
        lemma_subframes_lengths(d, p, h, (c - 1) as nat);
        let (chs, q) = subframes_at(d, p, h, (c - 1) as nat)->Ok_0;
        lemma_subframe_len(d, q, channel_sample_size(h, (c - 1) as nat), h.block_size as nat);
        let all = subframes_at(d, p, h, c)->Ok_0.0;
        assert forall|i: int| 0 <= i < c implies (#[trigger] all[i]).len() == h.block_size by {
            if i < c - 1 {
                assert(all[i] == chs[i]);
            }
        }
    }
}

/// A decoded frame holds one channel per subframe of its assignment, each
/// of exactly its block size.
pub proof fn lemma_frame_lengths(d: Seq<u8>, p: int, bps: nat, nch: nat)
    requires
        frame_at(d, p, bps, nch) is Ok,
        frame_at(d, p, bps, nch)->Ok_0 is Some,
    ensures
        ({
            let (h, chs, q) = frame_at(d, p, bps, nch)->Ok_0->Some_0;
            &&& chs.len() == channel_count(h.channel_assignment)
            &&& forall|c: int| 0 <= c < chs.len() ==> (#[trigger] chs[c]).len() == h.block_size
        }),
{
    reveal(decorrelated);
    let (h, q) = frame_header_at(d, p, bps)->Ok_0->Some_0;
    let n = channel_count(h.channel_assignment);
    lemma_subframes_lengths(d, q, h, n);
}

proof fn lemma_subframes_err(d: Seq<u8>, p: int, h: FrameHeader, i: nat, n: nat)
    requires
        i <= n,
        subframes_at(d, p, h, i) is Err,
    ensures
        subframes_at(d, p, h, n) == subframes_at(d, p, h, i),
    decreases n - i,
{
    if i < n {
        lemma_subframes_err(d, p, h, i, (n - 1) as nat);
    }
}

} // verus!
