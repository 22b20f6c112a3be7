//! Argument-reduction bookkeeping: the reduced-argument records and the
//! error-bound rescaling between ULP scales.

use vstd::prelude::*;
use vstd::arithmetic::power2::pow2;
use vstd::arithmetic::power2::{lemma2_to64, lemma_pow2_adds, lemma_pow2_pos, lemma_pow2_strictly_increases};
use crate::hp::consts::{
    pi_over_2, pi_over_2_table_spec, two_over_pi_window_msw, two_over_pi_window_value, G_C, LN2_BITS,
    TWO_OVER_PI_BITS,
};
use crate::hp::{
    bit_len, limbs_value, limbs_weight, precision, rne_round, BigFloat, FpClass,
};

verus! {

/// `x = (octant-aligned multiple of pi/2) + r`, with the error bound of `r`.
#[derive(Clone, Debug)]
pub struct TrigReduction<const N: usize> {
    pub octant: u32,
    pub r: BigFloat<N>,
    pub err_ulps: u128,
}

/// `x = k*ln2 + r`, with the error bound of `r`.
#[derive(Clone, Debug)]
pub struct ExpReduction<const N: usize> {
    pub k: i64,
    pub r: BigFloat<N>,
    pub err_ulps: u128,
}

/// `x = m * 2^e` with `m` near 1, with the error bound of `m`.
#[derive(Clone, Debug)]
pub struct LogReduction<const N: usize> {
    pub e: i32,
    pub m: BigFloat<N>,
    pub err_ulps: u128,
}

/// `count` units of `2^src_exp` re-expressed in units of `2^dst_exp`:
/// scaled up exactly (saturating at `u128::MAX`) or divided rounding up,
/// so a nonzero bound never becomes zero.
pub open spec fn rescaled(count: nat, d: int) -> nat {
    if count == 0 {
        0
    } else if d >= 0 {
        if d >= 128 || count * pow2(d as nat) > u128::MAX {
            u128::MAX as nat
        } else {
            count * pow2(d as nat)
        }
    } else if -d >= 128 {
        1
    } else {
        count / pow2((-d) as nat) + (if count % pow2((-d) as nat) != 0 { 1nat } else { 0nat })
    }
}

/// `2^k` as a `u128`.
fn pow2_u128(k: u32) -> (r: u128)
    requires
        k < 128,
    ensures
        r == pow2(k as nat),
{
    let mut r: u128 = 1;
    let mut i: u32 = 0;
    proof {
        vstd::arithmetic::power2::lemma2_to64();
    }
    while i < k
        invariant
            i <= k < 128,
            r == pow2(i as nat),
        decreases k - i,
    {
        proof {
            vstd::arithmetic::power2::lemma_pow2_unfold((i + 1) as nat);
            vstd::arithmetic::power2::lemma_pow2_strictly_increases((i + 1) as nat, 128);
            vstd::arithmetic::power2::lemma2_to64_rest();
            vstd::arithmetic::power2::lemma_pow2_adds(64, 64);
            vstd::arithmetic::power2::lemma2_to64();
        }
        r = r * 2;
        i += 1;
    }
    r
}

/// Rescales an error bound from ULPs of `2^src_exp` to ULPs of `2^dst_exp`.
pub fn rescale_ulps(count: u128, src_exp: i32, dst_exp: i32) -> (r: u128)
    requires
        i32::MIN <= src_exp - dst_exp <= i32::MAX,
    ensures
        r == rescaled(count as nat, src_exp - dst_exp),
{
    if count == 0 {
        return 0;
    }
    let d: i32 = src_exp - dst_exp;
    if d >= 0 {
        if d >= 128 {
            u128::MAX
        } else {
            let f = pow2_u128(d as u32);
            match count.checked_mul(f) {
                Some(v) => v,
                None => u128::MAX,
            }
        }
    } else {
        let sh: i64 = 0 - (d as i64);
        if sh >= 128 {
            1
        } else {
            let f = pow2_u128(sh as u32);
            proof {
                vstd::arithmetic::power2::lemma_pow2_pos(sh as nat);
                vstd::arithmetic::power2::lemma2_to64();
                vstd::arithmetic::power2::lemma_pow2_strictly_increases(0, sh as nat);
                vstd::arithmetic::div_mod::lemma_div_is_ordered_by_denominator(count as int, 2, f as int);
            }
            let q = count / f;
            let rem = count % f;
            q + (if rem != 0 { 1 } else { 0 })
        }
    }
}

/// The reduction's guard against an `ln2` table too short for the precision
/// asked for: callers may only ask for at most the stored bits.
pub fn require_ln2_bits(need_bits: usize)
    requires
        need_bits <= LN2_BITS,
{
}

/// The fraction bits the trigonometric reduction keeps: the working
/// precision plus the guard bits.
pub open spec fn trig_frac_bits(n: nat) -> nat {
    64 * n + G_C as nat
}

/// The first `2/pi` bit the reduction of `m * 2^e` reads.
pub open spec fn trig_window_lo(e: int) -> int {
    if e - 2 >= 1 {
        e - 2
    } else {
        1
    }
}

/// The last `2/pi` bit the reduction of `m * 2^e` reads.
pub open spec fn trig_window_hi(n: nat, e: int) -> int {
    e + trig_frac_bits(n) + 53
}

/// `m * 2^e * (2/pi)` with `trig_frac_bits(n)` fraction bits, the integer
/// part taken mod a power of two by the window.
pub open spec fn trig_scaled(n: nat, m: nat, e: int) -> nat {
    (two_over_pi_window_value(trig_window_lo(e) as nat, trig_window_hi(n, e) as nat) * m) / pow2(53)
}

/// Whether the fraction is at least one half (the nearest integer is above).
pub open spec fn trig_half(n: nat, m: nat, e: int) -> bool {
    (trig_scaled(n, m, e) / pow2((trig_frac_bits(n) - 1) as nat)) % 2 == 1
}

/// The octant: the nearest integer to `x * 2/pi`, mod 8.
pub open spec fn trig_octant(n: nat, m: nat, e: int) -> nat {
    let k = (trig_scaled(n, m, e) / pow2(trig_frac_bits(n))) % 8;
    if trig_half(n, m, e) {
        (k + 1) % 8
    } else {
        k
    }
}

/// `|x * 2/pi - nearest integer|` at weight `2^-trig_frac_bits(n)`.
pub open spec fn trig_fprime(n: nat, m: nat, e: int) -> nat {
    let fr = trig_scaled(n, m, e) % pow2(trig_frac_bits(n));
    if trig_half(n, m, e) {
        (pow2(trig_frac_bits(n)) - fr) as nat
    } else {
        fr
    }
}

/// The significand of `pi/2` at `n` limbs.
pub open spec fn pi_over_2_mant(n: nat) -> nat {
    limbs_value(pi_over_2_table_spec().subrange(0, n as int))
}

/// 1 when the `n`-limb `pi/2` was truncated, else 0.
pub open spec fn pi_over_2_err(n: nat) -> nat {
    if limbs_value(pi_over_2_table_spec()) % limbs_weight((18 - n) as nat) != 0 {
        1
    } else {
        0
    }
}

/// The reduction of `m * 2^e` (as [`reduce_trig_core`] computes it) from the
/// rounded `|f'|` onwards.
pub open spec fn trig_reduction_ok<const N: usize>(n: nat, m: nat, e: int, r: TrigReduction<N>) -> bool {
    &&& r.octant == trig_octant(n, m, e)
    &&& r.r.wf()
    &&& match rne_round(trig_fprime(n, m, e), -trig_frac_bits(n), false, precision(N)) {
        None => r.r.class == FpClass::Zero && !r.r.sign && r.err_ulps == 0,
        Some((mv, ex, inexact)) => match rne_round(
            mv * pi_over_2_mant(n),
            ex + 1 - precision(N),
            false,
            precision(N),
        ) {
            Some((mv2, e2, inexact2)) => r.r.class == FpClass::Normal && r.r.sign == trig_half(n, m, e)
                && r.r.mant_value() == mv2 && r.r.exp == e2 && r.err_ulps == 1 + (if inexact { 1nat } else { 0 })
                + pi_over_2_err(n) + (if inexact2 { 1nat } else { 0 }),
            None => false,
        },
    }
}

/// Payne-Hanek reduction of `|x| = m * 2^e`: the octant and
/// `r = f' * pi/2`, `f'` the signed distance of `x * 2/pi` to its nearest
/// integer, with the error bound of `r`.
#[verifier::spinoff_prover]
pub fn reduce_trig_core<const N: usize>(m: u64, e: i32) -> (r: TrigReduction<N>)
    requires
        1 <= N <= 18,
        1 <= trig_window_hi(N as nat, e as int) <= TWO_OVER_PI_BITS,
    ensures
        trig_reduction_ok::<N>(N as nat, m as nat, e as int, r),
{
    let f: u64 = 64 * (N as u64) + (G_C as u64);
    let i0: i64 = if (e as i64) - 2 >= 1 { (e as i64) - 2 } else { 1 };
    let i1: i64 = (e as i64) + (f as i64) + 53;
    let win = two_over_pi_window_msw(i0 as usize, i1 as usize);
    let l = win.len();
    let one = [m];
    let prod = crate::hp::limbs_mul(win.as_slice(), one.as_slice());
    let scaled = crate::hp::scaled_limbs(prod.as_slice(), l + 1, -53);
    let ghost nn = N as nat;
    let ghost wv = two_over_pi_window_value(i0 as nat, i1 as nat);
    let ghost sv = trig_scaled(nn, m as nat, e as int);
    let ghost ff = trig_frac_bits(nn);
    proof {
        assert(f == ff);
        assert(one@.drop_last() =~= Seq::<u64>::empty());
        assert(limbs_value(one@.drop_last()) == 0);
        assert(limbs_value(one@) == m);
        crate::hp::lemma_limbs_value_bound(prod@);
        lemma_pow2_pos(53);
        vstd::arithmetic::div_mod::lemma_div_is_ordered_by_denominator(limbs_value(prod@) as int, 1, pow2(53) as int);
        lemma2_to64();
        assert(limbs_value(prod@) / 1 == limbs_value(prod@));
        assert(crate::hp::scaled_value(limbs_value(prod@), -53) == sv);
        vstd::arithmetic::div_mod::lemma_small_mod(sv, limbs_weight((l + 1) as nat));
        assert(limbs_value(scaled@) == sv);
    }
    let w_int = crate::hp::window64(scaled.as_slice(), f);
    let w_half = crate::hp::window64(scaled.as_slice(), f - 1);
    let n_low3: u64 = w_int % 8;
    let half: bool = w_half % 2 == 1;
    proof {
        lemma_pow2_adds(3, 61);
        lemma_pow2_adds(1, 63);
        crate::hp::lemma_limb_base();
        vstd::arithmetic::div_mod::lemma_mod_mod((sv / pow2(ff)) as int, 8, pow2(61) as int);
        vstd::arithmetic::div_mod::lemma_mod_mod((sv / pow2((ff - 1) as nat)) as int, 2, pow2(63) as int);
        assert(n_low3 == (sv / pow2(ff)) % 8);
        assert(half == trig_half(nn, m as nat, e as int));
    }
    let frac = crate::hp::mask_low(scaled.as_slice(), f);
    let octant: u32 = if half { ((n_low3 + 1) % 8) as u32 } else { n_low3 as u32 };
    let fprime: Vec<u64> = if half {
        let fw = crate::hp::widen_one(frac.as_slice());
        proof {
            let hp = pow2((ff - 1) as nat);
            lemma_pow2_pos((ff - 1) as nat);
            if sv < hp {
                vstd::arithmetic::div_mod::lemma_basic_div(sv as int, hp as int);
                assert(false);
            }
            crate::hp::lemma_limbs_value_bound(scaled@);
            if 64 * (l + 1) <= ff - 1 {
                if 64 * (l + 1) < ff - 1 {
                    lemma_pow2_strictly_increases((64 * (l + 1)) as nat, (ff - 1) as nat);
                }
                assert(false);
            }
        }
        let two = crate::hp::pow2_limbs(l + 2, f);
        proof {
            lemma_pow2_pos(ff);
            vstd::arithmetic::div_mod::lemma_mod_bound(sv as int, pow2(ff) as int);
        }
        crate::hp::limbs_sub(two.as_slice(), fw.as_slice())
    } else {
        frac
    };
    proof {
        assert(limbs_value(fprime@) == trig_fprime(nn, m as nat, e as int));
        assert(fprime@.len() <= l + 2);
    }
    let exp_lsb: i64 = 0 - (f as i64);
    match crate::hp::normalize_round::<N>(fprime.as_slice(), exp_lsb, false) {
        None => TrigReduction { octant, r: BigFloat::<N>::zero(false), err_ulps: 0 },
        Some((mant, exp, inexact)) => {
            proof {
                let fv = limbs_value(fprime@);
                crate::hp::lemma_limbs_value_bound(fprime@);
                crate::hp::lemma_bit_len(fv);
                if bit_len(fv) > 64 * fprime@.len() {
                    lemma_pow2_strictly_increases((64 * fprime@.len()) as nat, (bit_len(fv) - 1) as nat);
                }
            }
            let rp = BigFloat::<N> { sign: false, exp: exp as i32, mant, class: FpClass::Normal };
            let (p2, e_p2) = pi_over_2::<N>();
            let (r_full, mul_err) = rp.mul(&p2);
            let err: u128 = 1u128 + (if inexact { 1u128 } else { 0u128 }) + e_p2 + mul_err;
            let rr = if half { r_full.neg() } else { r_full };
            TrigReduction { octant, r: rr, err_ulps: err }
        },
    }
}

} // verus!
