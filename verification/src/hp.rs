//! A binary big-float `BigFloat<N>` with `N` 64-bit limbs of working
//! precision (`P = 64*N` bits), and the single-rounding reducer that turns a
//! wide value plus an error bound into a correctly rounded IEEE bit pattern.
//!
//! A value is `(-1)^sign * m * 2^exp` where `m` is the mantissa read as a
//! `P`-bit integer (limbs big-endian, `mant[0]` most significant) and `exp` is
//! the weight of its least significant bit. A Normal value has bit `P-1` of
//! `m` set; Zero, Inf and NaN carry an all-zero mantissa.

pub mod consts;
pub mod reduction;

use vstd::prelude::*;
use vstd::arithmetic::power2::pow2;
use vstd::arithmetic::power2::{ lemma_pow2_adds, lemma_pow2_pos, lemma_pow2_strictly_increases, lemma2_to64};
use vstd::arithmetic::div_mod::{lemma_fundamental_div_mod, lemma_div_pos_is_pos};
use vstd::arithmetic::mul::{lemma_mul_inequality, lemma_mul_strict_inequality, lemma_mul_is_distributive_add};
use std::cmp::Ordering;

verus! {

// ---------------------------------------------------------------------------
// The mantissa as an integer.
// ---------------------------------------------------------------------------

/// One limb's radix, `2^64`.
pub open spec fn limb_base() -> nat {
    0x1_0000_0000_0000_0000
}

/// A big-endian limb sequence read as an integer (`s[0]` most significant).
pub open spec fn limbs_value(s: Seq<u64>) -> nat
    decreases s.len(),
{
    if s.len() == 0 {
        0
    } else {
        limbs_value(s.drop_last()) * limb_base() + s.last() as nat
    }
}

/// The number of bits needed to write `x` (0 for 0).
pub open spec fn bit_len(x: nat) -> nat
    decreases x,
{
    if x == 0 {
        0
    } else {
        1 + bit_len(x / 2)
    }
}

pub(crate) proof fn lemma_limb_base()
    ensures
        pow2(64) == limb_base(),
{
    lemma2_to64();
}

/// `2^(64*k)`: the weight of `k` limbs.
pub open spec fn limbs_weight(k: nat) -> nat {
    pow2(64 * k)
}

pub(crate) proof fn lemma_limbs_weight_step(k: nat)
    ensures
        limbs_weight(k + 1) == limbs_weight(k) * limb_base(),
        limbs_weight(k) > 0,
{
    lemma_limb_base();
    lemma_pow2_adds(64 * k, 64);
    assert(64 * (k + 1) == 64 * k + 64) by (nonlinear_arith);
    lemma_pow2_pos(64 * k);
}

/// A limb sequence of length `k` is below `2^(64*k)`.
pub(crate) proof fn lemma_limbs_value_bound(s: Seq<u64>)
    ensures
        limbs_value(s) < limbs_weight(s.len()),
    decreases s.len(),
{
    lemma_limbs_weight_step(0);
    lemma2_to64();
    if s.len() > 0 {
        let d = s.drop_last();
        lemma_limbs_value_bound(d);
        lemma_limbs_weight_step(d.len());
        let v = limbs_value(d);
        let w = limbs_weight(d.len());
        assert(v * limb_base() + s.last() < w * limb_base()) by (nonlinear_arith)
            requires
                v < w,
                s.last() < limb_base(),
        ;
    }
}

/// Concatenation: the high part is scaled by the low part's weight.
proof fn lemma_limbs_concat(a: Seq<u64>, b: Seq<u64>)
    ensures
        limbs_value(a + b) == limbs_value(a) * limbs_weight(b.len()) + limbs_value(b),
    decreases b.len(),
{
    lemma_limbs_weight_step(0);
    lemma2_to64();
    if b.len() == 0 {
        assert(a + b =~= a);
    } else {
        let bd = b.drop_last();
        assert((a + b).drop_last() =~= a + bd);
        assert((a + b).last() == b.last());
        lemma_limbs_concat(a, bd);
        lemma_limbs_weight_step(bd.len());
        let va = limbs_value(a);
        let w = limbs_weight(bd.len());
        let vb = limbs_value(bd);
        assert((va * w + vb) * limb_base() + b.last() == va * (w * limb_base()) + (vb
            * limb_base() + b.last())) by (nonlinear_arith);
    }
}

/// All-zero limbs read as zero, and a value is zero only for all-zero limbs.
proof fn lemma_limbs_zero(s: Seq<u64>)
    ensures
        (limbs_value(s) == 0) <==> (forall|i: int| 0 <= i < s.len() ==> s[i] == 0),
    decreases s.len(),
{
    if s.len() > 0 {
        let d = s.drop_last();
        lemma_limbs_zero(d);
        if limbs_value(s) == 0 {
            assert(limbs_value(d) * limb_base() + s.last() == 0);
            assert(limbs_value(d) == 0) by (nonlinear_arith)
                requires
                    limbs_value(d) * limb_base() + s.last() == 0,
            ;
            assert forall|i: int| 0 <= i < s.len() implies s[i] == 0 by {
                if i < s.len() - 1 {
                    assert(d[i] == s[i]);
                }
            }
        } else {
            if forall|i: int| 0 <= i < s.len() ==> s[i] == 0 {
                assert forall|i: int| 0 <= i < d.len() implies d[i] == 0 by {
                    assert(s[i] == 0);
                }
                assert(s.last() == s[s.len() - 1]);
            }
        }
    }
}

/// A leading limb at weight `2^(64*(len-1))`.
proof fn lemma_limbs_lead(s: Seq<u64>)
    requires
        s.len() >= 1,
    ensures
        limbs_value(s) == s[0] * limbs_weight((s.len() - 1) as nat) + limbs_value(s.subrange(1, s.len() as int)),
        limbs_value(s.subrange(1, s.len() as int)) < limbs_weight((s.len() - 1) as nat),
{
    let hd = s.subrange(0, 1);
    let tl = s.subrange(1, s.len() as int);
    assert(s =~= hd + tl);
    lemma_limbs_concat(hd, tl);
    assert(hd.drop_last() =~= Seq::<u64>::empty());
    assert(limbs_value(hd.drop_last()) == 0);
    assert(hd.last() == s[0]);
    assert(limbs_value(hd) == s[0] as nat);
    lemma_limbs_value_bound(tl);
}

/// Bit length bounds: `2^(len-1) <= x < 2^len` for `x > 0`.
pub(crate) proof fn lemma_bit_len(x: nat)
    ensures
        x < pow2(bit_len(x)),
        x > 0 ==> pow2((bit_len(x) - 1) as nat) <= x,
    decreases x,
{
    lemma2_to64();
    if x > 0 {
        lemma_bit_len(x / 2);
        let l = bit_len(x / 2);
        vstd::arithmetic::power2::lemma_pow2_unfold(l + 1);
        assert(pow2(l + 1) == 2 * pow2(l));
        if x / 2 > 0 {
            vstd::arithmetic::power2::lemma_pow2_unfold(l);
        }
    }
}

proof fn lemma_bit_len_unique(x: nat, l: nat)
    requires
        x < pow2(l),
        x > 0 ==> pow2((l - 1) as nat) <= x,
        x == 0 ==> l == 0,
    ensures
        bit_len(x) == l,
    decreases x,
{
    lemma2_to64();
    if x > 0 {
        assert(l > 0) by {
            if l == 0 {
                assert(x < 1);
            }
        }
        vstd::arithmetic::power2::lemma_pow2_unfold(l);
        if x / 2 > 0 {
            assert(l >= 2) by {
                if l == 1 {
                    lemma2_to64();
                }
            }
            vstd::arithmetic::power2::lemma_pow2_unfold((l - 1) as nat);
        } else {
            assert(l == 1) by {
                if l >= 2 {
                    vstd::arithmetic::power2::lemma_pow2_unfold((l - 1) as nat);
                    lemma_pow2_pos((l - 2) as nat);
                }
            }
        }
        lemma_bit_len_unique(x / 2, (l - 1) as nat);
    }
}

/// The bit length of a `u64`, by halving.
fn bit_len_u64(x: u64) -> (l: u32)
    ensures
        l == bit_len(x as nat),
        l <= 64,
{
    let mut y: u64 = x;
    let mut l: u32 = 0;
    proof {
        lemma2_to64();
    }
    while y > 0
        invariant
            l <= 64,
            bit_len(x as nat) == l + bit_len(y as nat),
            y as nat * pow2(l as nat) <= x,
            y < 0x1_0000_0000_0000_0000,
        decreases y,
    {
        proof {
            vstd::arithmetic::power2::lemma_pow2_unfold((l + 1) as nat);
            let yy = y as nat;
            assert((yy / 2) * pow2((l + 1) as nat) <= yy * pow2(l as nat)) by (nonlinear_arith)
                requires
                    pow2((l + 1) as nat) == 2 * pow2(l as nat),
            ;
            if l == 64 {
                lemma_limb_base();
                assert(yy * pow2(64) >= pow2(64)) by (nonlinear_arith)
                    requires
                        yy >= 1,
                ;
                assert(false);
            }
        }
        y = y / 2;
        l = l + 1;
    }
    l
}

// ---------------------------------------------------------------------------
// The value type.
// ---------------------------------------------------------------------------

/// Floating-point class. Zero carries a sign.
#[derive(Clone, Copy, PartialEq, Eq, Debug, Structural)]
pub enum FpClass {
    Normal,
    Zero,
    Inf,
    NaN,
}

/// A binary big-float of `N` limbs; see the module docs for its value.
#[derive(Clone, Copy, Debug)]
pub struct BigFloat<const N: usize> {
    /// true = negative (meaningful for Normal, Zero and Inf).
    pub sign: bool,
    /// The weight of the mantissa's least significant bit.
    pub exp: i32,
    /// Big-endian limbs, `mant[0]` most significant.
    pub mant: [u64; N],
    pub class: FpClass,
}

/// A value with its accumulated error bound, in units of `2^val.exp`.
#[derive(Clone, Copy, Debug)]
pub struct Evaluated<const N: usize> {
    pub val: BigFloat<N>,
    pub err_ulps: u128,
}

/// The top bit of a limb.
pub open spec fn top_bit_set(x: u64) -> bool {
    x >= 0x8000_0000_0000_0000
}

/// `P = 64*N`, the working precision in bits.
pub open spec fn precision(n: usize) -> nat {
    (64 * n) as nat
}

impl<const N: usize> BigFloat<N> {
    /// The mantissa as an integer.
    pub open spec fn mant_value(&self) -> nat {
        limbs_value(self.mant@)
    }

    /// The representation invariant: a Normal is normalized, every other
    /// class carries an all-zero mantissa.
    pub open spec fn wf(&self) -> bool {
        match self.class {
            FpClass::Normal => N >= 1 && top_bit_set(self.mant@[0]),
            _ => forall|i: int| 0 <= i < N ==> self.mant@[i] == 0,
        }
    }

    /// The most-significant-bit exponent, `exp + P - 1`.
    pub open spec fn ebin_spec(&self) -> int {
        self.exp + precision(N) - 1
    }
}

/// An all-zero mantissa.
proof fn lemma_zero_mant<const N: usize>(m: [u64; N])
    requires
        forall|i: int| 0 <= i < N ==> m@[i] == 0,
    ensures
        limbs_value(m@) == 0,
{
    lemma_limbs_zero(m@);
}

impl<const N: usize> BigFloat<N> {
    fn make_zero(sign: bool) -> (r: Self)
        ensures
            r.wf(),
            r.class == FpClass::Zero,
            r.sign == sign,
            r.exp == 0,
            r.mant_value() == 0,
    {
        let r = BigFloat { sign, exp: 0, mant: [0u64; N], class: FpClass::Zero };
        proof {
            lemma_zero_mant(r.mant);
        }
        r
    }

    fn make_inf(sign: bool) -> (r: Self)
        ensures
            r.wf(),
            r.class == FpClass::Inf,
            r.sign == sign,
            r.exp == 0,
            r.mant_value() == 0,
    {
        let r = BigFloat { sign, exp: 0, mant: [0u64; N], class: FpClass::Inf };
        proof {
            lemma_zero_mant(r.mant);
        }
        r
    }

    fn make_nan() -> (r: Self)
        ensures
            r.wf(),
            r.class == FpClass::NaN,
            !r.sign,
            r.exp == 0,
            r.mant_value() == 0,
    {
        let r = BigFloat { sign: false, exp: 0, mant: [0u64; N], class: FpClass::NaN };
        proof {
            lemma_zero_mant(r.mant);
        }
        r
    }

    /// A normalized Normal whose value is `sig * 2^e2`, exactly: the
    /// significand is shifted up until its top bit is bit `P-1`.
    fn from_sig64(sign: bool, sig: u64, e2: i32) -> (r: Self)
        requires
            sig != 0,
            1 <= N <= 0x100_0000,
            e2 - (precision(N) - bit_len(sig as nat)) >= i32::MIN,
        ensures
            r.wf(),
            r.class == FpClass::Normal,
            r.sign == sign,
            r.exp == e2 - (precision(N) - bit_len(sig as nat)),
            r.mant_value() == sig * pow2((precision(N) - bit_len(sig as nat)) as nat),
    {
        let l = bit_len_u64(sig);
        proof {
            lemma_bit_len(sig as nat);
        }
        let sh: u64 = (64 - l) as u64;
        proof {
            lemma_pow2_adds((l - 1) as nat, sh as nat);
            lemma_pow2_adds(l as nat, sh as nat);
            lemma_limb_base();
            let sg = sig as nat;
            let a = pow2((l - 1) as nat);
            let b = pow2(l as nat);
            let c = pow2(sh as nat);
            lemma_pow2_pos(sh as nat);
            assert(sg * c < b * c) by (nonlinear_arith)
                requires
                    sg < b,
                    c > 0,
            ;
            assert(a * c <= sg * c) by (nonlinear_arith)
                requires
                    a <= sg,
            ;
            lemma_pow2_pos(sh as nat);
            vstd::bits::lemma_u64_shl_is_mul(sig, sh);
        }
        let top: u64 = sig << sh;
        proof {
            lemma_pow2_adds(63, 1);
            lemma2_to64();
            assert(pow2(63) == 0x8000_0000_0000_0000) by {
                vstd::arithmetic::power2::lemma2_to64_rest();
            }
        }
        let mut mant = [0u64; N];
        mant[0] = top;
        let exp: i32 = e2 - (64 * (N as i32) - (l as i32));
        let r = BigFloat { sign, exp, mant, class: FpClass::Normal };
        proof {
            lemma_limbs_lead(mant@);
            let tl = mant@.subrange(1, N as int);
            assert forall|i: int| 0 <= i < tl.len() implies tl[i] == 0 by {
                assert(tl[i] == mant@[i + 1]);
            }
            lemma_limbs_zero(tl);
            lemma_pow2_adds(64 * (N - 1) as nat, sh as nat);
            assert(64 * (N - 1) + sh == precision(N) - l);
            assert(limbs_value(mant@) == top * limbs_weight((N - 1) as nat));
            assert(top * limbs_weight((N - 1) as nat) == sig * pow2((precision(N) - l) as nat)) by (nonlinear_arith)
                requires
                    top == sig * pow2(sh as nat),
                    pow2((precision(N) - l) as nat) == limbs_weight((N - 1) as nat) * pow2(sh as nat),
            ;
        }
        r
    }
}

/// A normalized mantissa lies in `[2^(P-1), 2^P)`.
proof fn lemma_normalized_range(s: Seq<u64>)
    requires
        s.len() >= 1,
        top_bit_set(s[0]),
    ensures
        pow2((64 * s.len() - 1) as nat) <= limbs_value(s),
        limbs_value(s) < pow2(64 * s.len()),
{
    lemma_limbs_lead(s);
    lemma_limbs_value_bound(s);
    let w = limbs_weight((s.len() - 1) as nat);
    lemma_pow2_adds(63, 64 * (s.len() - 1) as nat);
    vstd::arithmetic::power2::lemma2_to64_rest();
    assert(63 + 64 * (s.len() - 1) == 64 * s.len() - 1);
    let rest = limbs_value(s.subrange(1, s.len() as int));
    assert(0x8000_0000_0000_0000 * w <= s[0] * w + rest) by (nonlinear_arith)
        requires
            s[0] >= 0x8000_0000_0000_0000,
    ;
}

/// Equal-length limb sequences order as their first differing limb.
proof fn lemma_limbs_first_difference(a: Seq<u64>, b: Seq<u64>, i: int)
    requires
        a.len() == b.len(),
        0 <= i < a.len(),
        forall|j: int| 0 <= j < i ==> a[j] == b[j],
        a[i] < b[i],
    ensures
        limbs_value(a) < limbs_value(b),
{
    let pre = a.subrange(0, i);
    assert(pre =~= b.subrange(0, i));
    let ta = a.subrange(i, a.len() as int);
    let tb = b.subrange(i, b.len() as int);
    assert(a =~= pre + ta);
    assert(b =~= pre + tb);
    lemma_limbs_concat(pre, ta);
    lemma_limbs_concat(pre, tb);
    lemma_limbs_lead(ta);
    lemma_limbs_lead(tb);
    let w = limbs_weight((ta.len() - 1) as nat);
    let ra = limbs_value(ta.subrange(1, ta.len() as int));
    let rb = limbs_value(tb.subrange(1, tb.len() as int));
    assert(ta[0] * w + ra < tb[0] * w + rb) by (nonlinear_arith)
        requires
            ta[0] < tb[0],
            ra < w,
    ;
    let wp = limbs_weight(ta.len());
    let vp = limbs_value(pre);
    assert(vp * wp + limbs_value(ta) < vp * wp + limbs_value(tb));
}

/// A magnitude `m * 2^e` scaled to the common weight `2^base` (`base <= e`).
pub open spec fn scaled(m: nat, e: int, base: int) -> nat {
    m * pow2((e - base) as nat)
}

/// The sign of an integer as -1, 0 or 1.
pub open spec fn sign3(x: int) -> int {
    if x < 0 {
        -1
    } else if x > 0 {
        1
    } else {
        0
    }
}

proof fn lemma_scaled_self(m: nat, e: int)
    ensures
        scaled(m, e, e) == m,
{
    lemma2_to64();
    assert((e - e) as nat == 0);
    assert(m * pow2(0) == m) by (nonlinear_arith)
        requires
            pow2(0) == 1,
    ;
}

/// Normalized magnitudes order by exponent first.
proof fn lemma_exp_order(ma: nat, ea: int, mb: nat, eb: int, p: nat)
    requires
        p >= 1,
        ma < pow2(p),
        pow2((p - 1) as nat) <= mb,
        ea < eb,
    ensures
        scaled(ma, ea, ea) < scaled(mb, eb, ea),
{
    let d = (eb - ea) as nat;
    lemma2_to64();
    lemma_scaled_self(ma, ea);
    lemma_pow2_adds((p - 1) as nat, d);
    assert(pow2((p - 1) as nat) * pow2(d) <= mb * pow2(d)) by (nonlinear_arith)
        requires
            pow2((p - 1) as nat) <= mb,
    ;
    if d > 1 {
        lemma_pow2_strictly_increases(p, (p - 1 + d) as nat);
    }
    assert((p - 1 + d) as nat == p || d > 1);
}

impl<const N: usize> BigFloat<N> {
    /// The value's sign: 0 for a zero, else -1 or 1.
    pub open spec fn signum(&self) -> int {
        if self.class == FpClass::Zero {
            0
        } else if self.sign {
            -1
        } else {
            1
        }
    }

    /// The order of two Normal magnitudes: -1, 0 or 1.
    pub open spec fn normal_order(&self, other: &Self) -> int {
        let base = if self.exp <= other.exp { self.exp as int } else { other.exp as int };
        sign3(scaled(self.mant_value(), self.exp as int, base) - scaled(other.mant_value(), other.exp as int, base))
    }

    /// The order of two non-NaN, non-zero magnitudes (Inf above every Normal).
    pub open spec fn magnitude_order(&self, other: &Self) -> int {
        match (self.class, other.class) {
            (FpClass::Inf, FpClass::Inf) => 0,
            (FpClass::Inf, _) => 1,
            (_, FpClass::Inf) => -1,
            _ => self.normal_order(other),
        }
    }

    /// The sign-aware total order: `+0 == -0`, NaN above everything.
    pub open spec fn value_order(&self, other: &Self) -> int {
        if self.class == FpClass::NaN || other.class == FpClass::NaN {
            if self.class == other.class {
                0
            } else if self.class == FpClass::NaN {
                1
            } else {
                -1
            }
        } else if self.signum() != other.signum() {
            sign3(self.signum() - other.signum())
        } else if self.signum() == 0 {
            0
        } else if self.signum() > 0 {
            self.magnitude_order(other)
        } else {
            -self.magnitude_order(other)
        }
    }

    /// The value is the integer `v`: a Normal with `|v| = m * 2^exp`, `exp <= 0`.
    pub open spec fn is_int(&self, v: int) -> bool {
        &&& self.class == FpClass::Normal
        &&& self.sign == (v < 0)
        &&& self.exp <= 0
        &&& self.mant_value() == (if v < 0 { -v } else { v }) * pow2((-self.exp) as nat)
    }

    /// Exact conversion from a signed 64-bit integer; zero is `+0`.
    pub fn from_i64(k: i64) -> (r: Self)
        requires
            1 <= N <= 0x100_0000,
        ensures
            r.wf(),
            k == 0 ==> r.class == FpClass::Zero && !r.sign,
            k != 0 ==> r.is_int(k as int),
    {
        if k == 0 {
            return Self::make_zero(false);
        }
        let sign = k < 0;
        let mag: u64 = if k < 0 { (0i128 - (k as i128)) as u64 } else { k as u64 };
        proof {
            lemma_bit_len(mag as nat);
            lemma_limb_base();
            assert(bit_len(mag as nat) <= 64) by {
                if bit_len(mag as nat) > 64 {
                    lemma_pow2_strictly_increases(64, (bit_len(mag as nat) - 1) as nat);
                    if bit_len(mag as nat) - 1 > 64 {
                    } else {
                    }
                }
            }
        }
        Self::from_sig64(sign, mag, 0)
    }

    /// Exact conversion from an unsigned 64-bit integer; zero is `+0`.
    pub fn from_u64(k: u64) -> (r: Self)
        requires
            1 <= N <= 0x100_0000,
        ensures
            r.wf(),
            k == 0 ==> r.class == FpClass::Zero && !r.sign,
            k != 0 ==> r.is_int(k as int),
    {
        if k == 0 {
            return Self::make_zero(false);
        }
        proof {
            lemma_bit_len(k as nat);
            lemma_limb_base();
            assert(bit_len(k as nat) <= 64) by {
                if bit_len(k as nat) > 64 {
                    lemma_pow2_strictly_increases(64, (bit_len(k as nat) - 1) as nat);
                }
            }
        }
        Self::from_sig64(false, k, 0)
    }

    /// The constant 1.0.
    pub fn one() -> (r: Self)
        requires
            1 <= N <= 0x100_0000,
        ensures
            r.wf(),
            r.is_int(1),
    {
        Self::from_u64(1)
    }

    /// A signed zero.
    pub fn zero(sign: bool) -> (r: Self)
        ensures
            r.wf(),
            r.class == FpClass::Zero,
            r.sign == sign,
            r.exp == 0,
    {
        Self::make_zero(sign)
    }

    /// Stores the fields verbatim.
    pub fn from_limbs(sign: bool, exp: i32, mant: [u64; N], class: FpClass) -> (r: Self)
        ensures
            r.sign == sign,
            r.exp == exp,
            r.mant == mant,
            r.class == class,
    {
        BigFloat { sign, exp, mant, class }
    }

    /// Builds from an MSB exponent: stores `exp = ebin - (P - 1)`.
    pub fn from_limbs_ebin(sign: bool, ebin: i32, mant: [u64; N], class: FpClass) -> (r: Self)
        requires
            1 <= N <= 0x100_0000,
            i32::MIN <= ebin - (precision(N) - 1),
        ensures
            r.sign == sign,
            r.exp == ebin - (precision(N) - 1),
            r.mant == mant,
            r.class == class,
    {
        let p: i32 = 64 * (N as i32);
        assert(p == precision(N));
        BigFloat { sign, exp: ebin - (p - 1), mant, class }
    }

    /// Negation (exact): flips the sign of all but NaN.
    pub fn neg(&self) -> (r: Self)
        ensures
            r.exp == self.exp,
            r.mant == self.mant,
            r.class == self.class,
            r.sign == (if self.class == FpClass::NaN { self.sign } else { !self.sign }),
    {
        let mut r = *self;
        if r.class != FpClass::NaN {
            r.sign = !r.sign;
        }
        r
    }

    /// Absolute value (exact): clears the sign of all but NaN.
    pub fn abs(&self) -> (r: Self)
        ensures
            r.exp == self.exp,
            r.mant == self.mant,
            r.class == self.class,
            r.sign == (if self.class == FpClass::NaN { self.sign } else { false }),
    {
        let mut r = *self;
        if r.class != FpClass::NaN {
            r.sign = false;
        }
        r
    }

    /// Multiplies by `2^k` (exact) by moving the LSB weight of a Normal.
    pub fn ldexp(&self, k: i32) -> (r: Self)
        requires
            self.class == FpClass::Normal ==> i32::MIN <= self.exp + k <= i32::MAX,
        ensures
            r.sign == self.sign,
            r.mant == self.mant,
            r.class == self.class,
            r.exp == (if self.class == FpClass::Normal { self.exp + k } else { self.exp as int }),
    {
        let mut r = *self;
        if r.class == FpClass::Normal {
            r.exp = r.exp + k;
        }
        r
    }

    /// True iff this is a (signed) zero.
    pub fn is_zero(&self) -> (r: bool)
        ensures
            r == (self.class == FpClass::Zero),
    {
        self.class == FpClass::Zero
    }

    /// The stored LSB-weight exponent.
    pub fn exp2(&self) -> (r: i32)
        ensures
            r == self.exp,
    {
        self.exp
    }

    /// The MSB exponent `exp + P - 1`.
    pub fn ebin(&self) -> (r: i32)
        requires
            1 <= N <= 0x100_0000,
            self.ebin_spec() <= i32::MAX,
        ensures
            r == self.ebin_spec(),
    {
        let p: i32 = 64 * (N as i32);
        assert(p == precision(N));
        self.exp + (p - 1)
    }

    /// The sign as -1 (negative, a negative zero included) or 1.
    pub fn sign_i8(&self) -> (r: i8)
        ensures
            r == (if self.sign { -1i8 } else { 1i8 }),
    {
        if self.sign {
            -1
        } else {
            1
        }
    }

    /// The magnitude order of two Normals by exponent, then by limbs.
    fn normal_mag_order(&self, other: &Self) -> (r: i8)
        requires
            self.wf(),
            other.wf(),
            self.class == FpClass::Normal,
            other.class == FpClass::Normal,
        ensures
            r == self.normal_order(other),
    {
        proof {
            lemma_normalized_range(self.mant@);
            lemma_normalized_range(other.mant@);
        }
        if self.exp != other.exp {
            proof {
                if self.exp < other.exp {
                    lemma_exp_order(self.mant_value(), self.exp as int, other.mant_value(), other.exp as int, precision(N));
                } else {
                    lemma_exp_order(other.mant_value(), other.exp as int, self.mant_value(), self.exp as int, precision(N));
                }
            }
            if self.exp < other.exp {
                return -1;
            } else {
                return 1;
            }
        }
        let mut i: usize = 0;
        while i < N
            invariant
                i <= N,
                self.mant@.len() == N,
                other.mant@.len() == N,
                self.exp == other.exp,
                forall|j: int| 0 <= j < i ==> self.mant@[j] == other.mant@[j],
            decreases N - i,
        {
            if self.mant[i] != other.mant[i] {
                proof {
                    if self.mant@[i as int] < other.mant@[i as int] {
                        lemma_limbs_first_difference(self.mant@, other.mant@, i as int);
                    } else {
                        lemma_limbs_first_difference(other.mant@, self.mant@, i as int);
                    }
                    lemma2_to64();
                    lemma_scaled_self(self.mant_value(), self.exp as int);
                    lemma_scaled_self(other.mant_value(), other.exp as int);
                }
                if self.mant[i] < other.mant[i] {
                    return -1;
                } else {
                    return 1;
                }
            }
            i += 1;
        }
        proof {
            assert(self.mant@ =~= other.mant@);
            lemma2_to64();
            lemma_scaled_self(self.mant_value(), self.exp as int);
            lemma_scaled_self(other.mant_value(), other.exp as int);
        }
        0
    }

    /// The magnitude order of two non-zero, non-NaN values.
    fn mag_order(&self, other: &Self) -> (r: i8)
        requires
            self.wf(),
            other.wf(),
            self.class != FpClass::NaN && self.class != FpClass::Zero,
            other.class != FpClass::NaN && other.class != FpClass::Zero,
        ensures
            r == self.magnitude_order(other),
    {
        match (self.class, other.class) {
            (FpClass::Inf, FpClass::Inf) => 0,
            (FpClass::Inf, _) => 1,
            (_, FpClass::Inf) => -1,
            _ => self.normal_mag_order(other),
        }
    }

    /// The signum as -1, 0 or 1.
    fn signum_i8(&self) -> (r: i8)
        ensures
            r == self.signum(),
    {
        if self.class == FpClass::Zero {
            0
        } else if self.sign {
            -1
        } else {
            1
        }
    }

    /// The order of two values, as -1, 0 or 1.
    fn order3(&self, other: &Self) -> (r: i8)
        requires
            self.wf(),
            other.wf(),
        ensures
            r == self.value_order(other),
    {
        let a_nan = self.class == FpClass::NaN;
        let b_nan = other.class == FpClass::NaN;
        if a_nan || b_nan {
            return if a_nan && b_nan {
                0
            } else if a_nan {
                1
            } else {
                -1
            };
        }
        let a = self.signum_i8();
        let b = other.signum_i8();
        if a != b {
            return if a < b {
                -1
            } else {
                1
            };
        }
        if a == 0 {
            return 0;
        }
        let m = self.mag_order(other);
        if a > 0 {
            m
        } else {
            0 - m
        }
    }

    /// Sign-aware total order: `+0 == -0`, NaN sorts above every value.
    pub fn cmp(&self, other: &Self) -> (r: Ordering)
        requires
            self.wf(),
            other.wf(),
        ensures
            (r == Ordering::Less) <==> self.value_order(other) == -1,
            (r == Ordering::Equal) <==> self.value_order(other) == 0,
            (r == Ordering::Greater) <==> self.value_order(other) == 1,
            self.class == FpClass::Inf && !self.sign && other.class != FpClass::NaN && !(other.class
                == FpClass::Inf && !other.sign) ==> r == Ordering::Greater,
            self.class == FpClass::Inf && self.sign && other.class != FpClass::NaN && !(other.class
                == FpClass::Inf && other.sign) ==> r == Ordering::Less,
    {
        proof {
            infinities_bound_the_order(*self, *other);
        }
        let o = self.order3(other);
        if o < 0 {
            Ordering::Less
        } else if o == 0 {
            Ordering::Equal
        } else {
            Ordering::Greater
        }
    }
}

/// A limb sequence split into a high part and its last `k` limbs.
proof fn lemma_limbs_split(s: Seq<u64>, k: nat)
    requires
        k <= s.len(),
    ensures
        limbs_value(s) == limbs_value(s.subrange(0, s.len() - k)) * limbs_weight(k)
            + limbs_value(s.subrange(s.len() - k, s.len() as int)),
        limbs_value(s.subrange(s.len() - k, s.len() as int)) < limbs_weight(k),
{
    let hi = s.subrange(0, s.len() - k);
    let lo = s.subrange(s.len() - k, s.len() as int);
    assert(s =~= hi + lo);
    lemma_limbs_concat(hi, lo);
    lemma_limbs_value_bound(lo);
}

impl<const N: usize> BigFloat<N> {
    /// Compares a distance `d` (a limb array) with an error bound: `d > err_ulps`.
    #[verifier::spinoff_prover]
    pub fn dist_gt_err(d: &[u64; N], err_ulps: u128) -> (r: bool)
        requires
            N >= 1,
        ensures
            r == (limbs_value(d@) > err_ulps),
    {
        if N >= 2 {
            let mut i: usize = 0;
            while i < N - 2
                invariant
                    N >= 2,
                    i <= N - 2,
                    d@.len() == N,
                    forall|j: int| 0 <= j < i ==> d@[j] == 0,
                decreases N - 2 - i,
            {
                if d[i] != 0 {
                    proof {
                        lemma_limbs_split(d@, 2);
                        let hi = d@.subrange(0, N - 2);
                        assert(hi[i as int] != 0);
                        lemma_limbs_zero(hi);
                        lemma_limbs_weight_step(0);
                        lemma_limbs_weight_step(1);
                        lemma2_to64();
                        assert(limbs_weight(2) == 0x1_0000_0000_0000_0000_0000_0000_0000_0000);
                        let vh = limbs_value(hi);
                        assert(vh * limbs_weight(2) >= limbs_weight(2)) by (nonlinear_arith)
                            requires
                                vh >= 1,
                        ;
                    }
                    return true;
                }
                i += 1;
            }
            let lo: u128 = (d[N - 2] as u128) * 0x1_0000_0000_0000_0000 + (d[N - 1] as u128);
            proof {
                lemma_limbs_split(d@, 2);
                let hi = d@.subrange(0, N - 2);
                assert forall|j: int| 0 <= j < hi.len() implies hi[j] == 0 by {}
                lemma_limbs_zero(hi);
                let low = d@.subrange(N - 2, N as int);
                assert(low.drop_last().drop_last() =~= Seq::<u64>::empty());
                assert(limbs_value(low.drop_last().drop_last()) == 0);
                assert(low.drop_last().last() == d@[N - 2]);
                assert(limbs_value(low.drop_last()) == d@[N - 2] as nat);
                assert(limbs_value(low) == lo);
            }
            lo > err_ulps
        } else {
            proof {
                assert(d@.drop_last() =~= Seq::<u64>::empty());
                assert(limbs_value(d@.drop_last()) == 0);
                assert(d@.last() == d@[0]);
            }
            (d[0] as u128) > err_ulps
        }
    }

    /// Widens to `M >= N` limbs by appending zero limbs below: the value is
    /// unchanged (`exp` drops by `64*(M-N)`).
    pub fn widen<const M: usize>(&self) -> (r: BigFloat<M>)
        requires
            N <= M <= 0x100_0000,
            i32::MIN <= self.exp - 64 * (M - N),
        ensures
            r.sign == self.sign,
            r.class == self.class,
            r.exp == self.exp - 64 * (M - N),
            r.mant@ == self.mant@ + Seq::new((M - N) as nat, |i: int| 0u64),
            r.mant_value() == self.mant_value() * limbs_weight((M - N) as nat),
            self.wf() ==> r.wf(),
    {
        let mut mant = [0u64; M];
        let mut i: usize = 0;
        while i < N
            invariant
                N <= M,
                i <= N,
                mant@.len() == M,
                self.mant@.len() == N,
                forall|j: int| 0 <= j < i ==> mant@[j] == self.mant@[j],
                forall|j: int| i <= j < M ==> mant@[j] == 0,
            decreases N - i,
        {
            mant[i] = self.mant[i];
            i += 1;
        }
        let exp: i32 = self.exp - 64 * ((M - N) as i32);
        let r = BigFloat { sign: self.sign, exp, mant, class: self.class };
        proof {
            let z = Seq::new((M - N) as nat, |i: int| 0u64);
            assert(mant@ =~= self.mant@ + z);
            lemma_limbs_concat(self.mant@, z);
            lemma_limbs_zero(z);
        }
        r
    }

    /// Narrows to `M <= N` limbs by keeping the top `M` (truncation); the
    /// second result is 1 iff a Normal lost a nonzero limb, else 0.
    pub fn narrow<const M: usize>(&self) -> (r: (BigFloat<M>, u128))
        requires
            M <= N <= 0x100_0000,
            self.exp + 64 * (N - M) <= i32::MAX,
        ensures
            r.0.sign == self.sign,
            r.0.class == self.class,
            r.0.exp == self.exp + 64 * (N - M),
            r.0.mant@ == self.mant@.subrange(0, M as int),
            r.0.mant_value() == self.mant_value() / limbs_weight((N - M) as nat),
            r.1 == (if self.class == FpClass::Normal && self.mant_value() % limbs_weight((N - M) as nat) != 0 {
                1u128
            } else {
                0u128
            }),
            self.wf() && M >= 1 ==> r.0.wf(),
    {
        let mut mant = [0u64; M];
        let mut i: usize = 0;
        while i < M
            invariant
                M <= N,
                i <= M,
                mant@.len() == M,
                self.mant@.len() == N,
                forall|j: int| 0 <= j < i ==> mant@[j] == self.mant@[j],
            decreases M - i,
        {
            mant[i] = self.mant[i];
            i += 1;
        }
        let mut dropped = false;
        let mut k: usize = M;
        while k < N
            invariant
                M <= k <= N,
                self.mant@.len() == N,
                dropped == (exists|j: int| M <= j < k && self.mant@[j] != 0),
            decreases N - k,
        {
            if self.mant[k] != 0 {
                dropped = true;
            }
            k += 1;
        }
        let exp: i32 = self.exp + 64 * ((N - M) as i32);
        let err: u128 = if self.class == FpClass::Normal && dropped { 1 } else { 0 };
        let r = BigFloat { sign: self.sign, exp, mant, class: self.class };
        proof {
            assert(mant@ =~= self.mant@.subrange(0, M as int));
            lemma_limbs_split(self.mant@, (N - M) as nat);
            let lo = self.mant@.subrange(M as int, N as int);
            lemma_limbs_zero(lo);
            lemma_limbs_weight_step((N - M) as nat);
            let w = limbs_weight((N - M) as nat);
            let vh = limbs_value(mant@);
            let vl = limbs_value(lo);
            vstd::arithmetic::div_mod::lemma_fundamental_div_mod_converse((vh * w + vl) as int, w as int, vh as int, vl as int);
            if dropped {
                let j = choose|j: int| M <= j < N && self.mant@[j] != 0;
                assert(lo[j - M] != 0);
            } else {
                assert forall|j: int| 0 <= j < lo.len() implies lo[j] == 0 by {
                    assert(self.mant@[j + M] == lo[j]);
                }
            }
        }
        (r, err)
    }

    /// Checks the representation invariant (a Normal is normalized; every
    /// other class has an all-zero mantissa).
    pub fn check_invariant(&self) -> (ok: bool)
        ensures
            ok == self.wf(),
    {
        match self.class {
            FpClass::Normal => {
                if N == 0 {
                    return false;
                }
                self.mant[0] >= 0x8000_0000_0000_0000
            },
            _ => {
                let mut i: usize = 0;
                while i < N
                    invariant
                        i <= N,
                        self.mant@.len() == N,
                        self.class != FpClass::Normal,
                        forall|j: int| 0 <= j < i ==> self.mant@[j] == 0,
                    decreases N - i,
                {
                    if self.mant[i] != 0 {
                        return false;
                    }
                    i += 1;
                }
                true
            },
        }
    }
}

// ---------------------------------------------------------------------------
// Bit-level reads of a limb sequence.
// ---------------------------------------------------------------------------

/// The 64 bits of `v` from bit `lo` upward.
pub open spec fn bits_window(v: nat, lo: nat) -> nat {
    (v / pow2(lo)) % limb_base()
}

/// A limb and its neighbours: the limb `j` places from the low end.
proof fn lemma_limbs_at(s: Seq<u64>, j: nat)
    requires
        j < s.len(),
    ensures
        limbs_value(s) == limbs_value(s.subrange(0, s.len() - 1 - j)) * limbs_weight(j + 1)
            + s[s.len() - 1 - j] * limbs_weight(j) + limbs_value(s.subrange(s.len() - j, s.len() as int)),
        limbs_value(s.subrange(s.len() - j, s.len() as int)) < limbs_weight(j),
{
    let idx = s.len() - 1 - j;
    lemma_limbs_split(s, j + 1);
    let t = s.subrange(idx, s.len() as int);
    lemma_limbs_lead(t);
    assert(t.subrange(1, t.len() as int) =~= s.subrange(s.len() - j, s.len() as int));
    assert(t[0] == s[idx]);
}

proof fn lemma_weight_bits(j: nat, b: nat)
    ensures
        limbs_weight(j) * pow2(b) == pow2(64 * j + b),
        pow2(64 * j + b) > 0,
{
    lemma_pow2_adds(64 * j, b);
    lemma_pow2_pos(64 * j + b);
}

/// `(a * d + r) / d == a` and `(a * d + r) % d == r` for `r < d`.
proof fn lemma_div_mod_parts(a: nat, d: nat, r: nat)
    requires
        d > 0,
        r < d,
    ensures
        (a * d + r) / d == a,
        (a * d + r) % d == r,
{
    vstd::arithmetic::div_mod::lemma_fundamental_div_mod_converse((a * d + r) as int, d as int, a as int, r as int);
}

/// `value % 2^k`: every bit at or above `k` cleared.
#[verifier::spinoff_prover]
pub(crate) fn mask_low(s: &[u64], k: u64) -> (r: Vec<u64>)
    requires
        s@.len() <= 0x100_0000,
    ensures
        r@.len() == s@.len(),
        limbs_value(r@) == limbs_value(s@) % pow2(k as nat),
{
    let n = s.len();
    let j64: u64 = k / 64;
    if j64 >= n as u64 {
        let mut r: Vec<u64> = Vec::new();
        let mut i: usize = 0;
        while i < n
            invariant
                n == s@.len(),
                i <= n,
                r@ == s@.subrange(0, i as int),
            decreases n - i,
        {
            r.push(s[i]);
            i += 1;
            proof {
                assert(r@ =~= s@.subrange(0, i as int));
            }
        }
        proof {
            assert(r@ =~= s@);
            lemma_limbs_value_bound(s@);
            let kk = k as nat;
            assert(kk >= 64 * n);
            if kk > 64 * n {
                lemma_pow2_strictly_increases((64 * n) as nat, kk);
            }
            vstd::arithmetic::div_mod::lemma_small_mod(limbs_value(s@), pow2(kk));
        }
        return r;
    }
    let j: usize = j64 as usize;
    let b: u64 = k % 64;
    let mut r: Vec<u64> = Vec::new();
    let mut i: usize = 0;
    while i < n
        invariant
            n == s@.len(),
            i <= n,
            j == k / 64,
            j < n,
            n <= 0x100_0000,
            b == k % 64,
            r@.len() == i,
            forall|t: int| 0 <= t < i && t < n - 1 - j ==> r@[t] == 0,
            forall|t: int| 0 <= t < i && t > n - 1 - j ==> r@[t] == s@[t],
            n - 1 - j < i ==> r@[n - 1 - j] as nat == (s@[n - 1 - j] as nat) % pow2(b as nat),
        decreases n - i,
    {
        if i + 1 + j < n {
            r.push(0);
        } else if i + 1 + j == n {
            proof {
                vstd::bits::lemma_u64_pow2_no_overflow(b as nat);
                vstd::bits::lemma_u64_shl_is_mul(1, b);
                lemma2_to64();
            }
            let m: u64 = 1u64 << b;
            r.push(s[i] % m);
        } else {
            r.push(s[i]);
        }
        i += 1;
    }
    proof {
        let kk = k as nat;
        let jj = j as nat;
        let idx = n - 1 - j;
        lemma_limbs_at(s@, jj);
        lemma_limbs_at(r@, jj);
        let hr = r@.subrange(0, idx as int);
        assert forall|t: int| 0 <= t < hr.len() implies hr[t] == 0 by {}
        lemma_limbs_zero(hr);
        assert(r@.subrange(n - jj, n as int) =~= s@.subrange(n - jj, n as int));
        let low = limbs_value(s@.subrange(n - jj, n as int));
        let hi = limbs_value(s@.subrange(0, idx as int));
        let x = s@[idx] as nat;
        let pb = pow2(b as nat);
        let w = limbs_weight(jj);
        lemma_weight_bits(jj, b as nat);
        assert(kk == 64 * jj + b);
        lemma_pow2_pos(b as nat);
        lemma_limbs_weight_step(jj);
        lemma_pow2_adds(b as nat, (64 - b) as nat);
        lemma_limb_base();
        lemma_fundamental_div_mod(x as int, pb as int);
        let c = pow2((64 - b) as nat);
        let q = x / pb;
        let rm = x % pb;
        assert(hi * (w * limb_base()) + x * w + low == (hi * c + q) * (w * pb) + (rm * w + low)) by (nonlinear_arith)
            requires
                limb_base() == pb * c,
                x == pb * q + rm,
        ;
        assert(rm * w + low < pb * w) by (nonlinear_arith)
            requires
                rm < pb,
                low < w,
        ;
        lemma_div_mod_parts(hi * c + q, w * pb, rm * w + low);
        assert(limbs_value(r@) == 0 * (w * limb_base()) + (x % pb) * w + low);
    }
    r
}

/// The 64 bits of the value from bit `lo` upward.
#[verifier::spinoff_prover]
pub(crate) fn window64(s: &[u64], lo: u64) -> (r: u64)
    requires
        s@.len() <= 0x100_0000,
    ensures
        r == bits_window(limbs_value(s@), lo as nat),
{
    let n = s.len();
    let j64: u64 = lo / 64;
    let b: u64 = lo % 64;
    if j64 >= n as u64 {
        proof {
            lemma_limbs_value_bound(s@);
            lemma_pow2_pos(lo as nat);
            assert(lo >= 64 * n);
            if lo > 64 * n {
                lemma_pow2_strictly_increases((64 * n) as nat, lo as nat);
            }
            vstd::arithmetic::div_mod::lemma_basic_div(limbs_value(s@) as int, pow2(lo as nat) as int);
        }
        return 0;
    }
    let j: usize = j64 as usize;
    let idx = n - 1 - j;
    let lo_limb: u64 = s[idx];
    let hi_limb: u64 = if idx >= 1 { s[idx - 1] } else { 0 };
    let x: u128 = (hi_limb as u128) * 0x1_0000_0000_0000_0000 + (lo_limb as u128);
    proof {
        vstd::bits::lemma_u128_shr_is_div(x, b as u128);
    }
    let y: u128 = x >> (b as u128);
    let r: u64 = (y % 0x1_0000_0000_0000_0000) as u64;
    proof {
        let jj = j as nat;
        let bb = b as nat;
        lemma_limbs_at(s@, jj);
        let low = limbs_value(s@.subrange(n - jj, n as int));
        let pre = s@.subrange(0, idx as int);
        let w = limbs_weight(jj);
        lemma_limbs_weight_step(jj);
        lemma_limbs_weight_step(jj + 1);
        lemma_limb_base();
        let hh: nat = if idx >= 1 {
            lemma_limbs_at(pre, 0);
            assert(pre.subrange(pre.len() - 0, pre.len() as int) =~= Seq::<u64>::empty());
            limbs_value(pre.subrange(0, pre.len() - 1))
        } else {
            assert(pre =~= Seq::<u64>::empty());
            0
        };
        // value = (hh * 2^128 + x) * w + low
        lemma_limbs_weight_step(0);
        lemma2_to64();
        assert(limbs_value(pre) == hh * limb_base() + hi_limb) by {
            if idx >= 1 {
                assert(pre[pre.len() - 1] == s@[idx - 1]);
            }
        }
        let v = limbs_value(s@);
        let xn = x as nat;
        assert(v == (hh * (limb_base() * limb_base()) + xn) * w + low) by (nonlinear_arith)
            requires
                v == limbs_value(pre) * limbs_weight(jj + 1) + lo_limb * w + low,
                limbs_value(pre) == hh * limb_base() + hi_limb,
                limbs_weight(jj + 1) == w * limb_base(),
                xn == hi_limb * limb_base() + lo_limb,
        ;
        lemma_div_mod_parts(hh * (limb_base() * limb_base()) + xn, w, low);
        let pb = pow2(bb);
        lemma_weight_bits(jj, bb);
        assert(lo as nat == 64 * jj + bb);
        vstd::arithmetic::div_mod::lemma_div_denominator(v as int, w as int, pb as int);
        lemma_pow2_pos(bb);
        // (hh * 2^128 + x) / pb = hh * 2^(128-b) + x / pb
        lemma_pow2_adds(bb, (128 - bb) as nat);
        lemma_pow2_adds(64, 64);
        let c = pow2((128 - bb) as nat);
        lemma_fundamental_div_mod(xn as int, pb as int);
        assert(hh * (limb_base() * limb_base()) + xn == (hh * c + xn / pb) * pb + xn % pb) by (nonlinear_arith)
            requires
                limb_base() * limb_base() == pb * c,
                xn == (xn / pb) * pb + xn % pb,
        ;
        lemma_div_mod_parts(hh * c + xn / pb, pb, xn % pb);
        // (hh * c + x / pb) % 2^64 = (x / pb) % 2^64, as c = 2^(64-b) * 2^64
        lemma_pow2_adds((64 - bb) as nat, 64);
        let c2 = pow2((64 - bb) as nat);
        assert(c == c2 * limb_base());
        vstd::arithmetic::div_mod::lemma_mod_multiples_vanish((hh * c2) as int, (xn / pb) as int, limb_base() as int);
        assert(hh * c + xn / pb == limb_base() * (hh * c2) + xn / pb) by (nonlinear_arith)
            requires
                c == c2 * limb_base(),
        ;
        assert(y == xn / pb);
    }
    r
}

/// True iff the value is zero.
fn limbs_is_zero(s: &[u64]) -> (r: bool)
    ensures
        r == (limbs_value(s@) == 0),
{
    proof {
        lemma_limbs_zero(s@);
    }
    let mut i: usize = 0;
    while i < s.len()
        invariant
            i <= s@.len(),
            forall|j: int| 0 <= j < i ==> s@[j] == 0,
        decreases s@.len() - i,
    {
        if s[i] != 0 {
            proof {
                lemma_limbs_zero(s@);
            }
            return false;
        }
        i += 1;
    }
    true
}

/// The value's bit length.
#[verifier::spinoff_prover]
fn limbs_bit_len(s: &[u64]) -> (r: u64)
    requires
        s@.len() <= 0x100_0000,
    ensures
        r == bit_len(limbs_value(s@)),
        r <= 64 * s@.len(),
{
    let n = s.len();
    let mut i: usize = 0;
    while i < n
        invariant
            n == s@.len(),
            n <= 0x100_0000,
            i <= n,
            forall|j: int| 0 <= j < i ==> s@[j] == 0,
        decreases n - i,
    {
        if s[i] != 0 {
            let l = bit_len_u64(s[i]);
            let r: u64 = 64 * ((n - 1 - i) as u64) + (l as u64);
            proof {
                let jj = (n - 1 - i) as nat;
                lemma_limbs_at(s@, jj);
                let pre = s@.subrange(0, i as int);
                assert forall|t: int| 0 <= t < pre.len() implies pre[t] == 0 by {}
                lemma_limbs_zero(pre);
                let x = s@[i as int] as nat;
                let w = limbs_weight(jj);
                let rest = limbs_value(s@.subrange(n - jj, n as int));
                let v = limbs_value(s@);
                assert(v == x * w + rest);
                lemma_bit_len(x);
                let bl = l as nat;
                lemma_weight_bits(jj, bl);
                lemma_weight_bits(jj, (bl - 1) as nat);
                assert(x * w + rest < pow2(bl) * w) by (nonlinear_arith)
                    requires
                        x < pow2(bl),
                        rest < w,
                ;
                assert(pow2((bl - 1) as nat) * w <= x * w + rest) by (nonlinear_arith)
                    requires
                        pow2((bl - 1) as nat) <= x,
                ;
                assert(64 * jj + bl - 1 == 64 * jj + (bl - 1) as nat);
                assert(pow2(bl) * w == w * pow2(bl)) by (nonlinear_arith);
                assert(pow2((bl - 1) as nat) * w == w * pow2((bl - 1) as nat)) by (nonlinear_arith);
                assert(v < pow2(64 * jj + bl));
                assert(pow2((64 * jj + bl - 1) as nat) <= v);
                lemma_bit_len_unique(v, 64 * jj + bl);
            }
            return r;
        }
        i += 1;
    }
    proof {
        lemma_limbs_zero(s@);
        assert(bit_len(0) == 0);
    }
    0
}

/// The value compared with a `u128`: `value > e`.
fn limbs_gt(s: &[u64], e: u128) -> (r: bool)
    ensures
        r == (limbs_value(s@) > e),
{
    let n = s.len();
    if n == 0 {
        return false;
    }
    if n == 1 {
        proof {
            assert(s@.drop_last() =~= Seq::<u64>::empty());
            assert(limbs_value(s@.drop_last()) == 0);
            assert(s@.last() == s@[0]);
            assert(limbs_value(s@) == limbs_value(s@.drop_last()) * limb_base() + s@.last());
            assert(limbs_value(s@) == s@[0]);
        }
        return (s[0] as u128) > e;
    }
    let mut i: usize = 0;
    while i < n - 2
        invariant
            n == s@.len(),
            n >= 2,
            i <= n - 2,
            forall|j: int| 0 <= j < i ==> s@[j] == 0,
        decreases n - 2 - i,
    {
        if s[i] != 0 {
            proof {
                lemma_limbs_split(s@, 2);
                let hi = s@.subrange(0, n - 2);
                assert(hi[i as int] != 0);
                lemma_limbs_zero(hi);
                lemma_limbs_weight_step(0);
                lemma_limbs_weight_step(1);
                lemma2_to64();
                let vh = limbs_value(hi);
                assert(vh * limbs_weight(2) >= limbs_weight(2)) by (nonlinear_arith)
                    requires
                        vh >= 1,
                ;
            }
            return true;
        }
        i += 1;
    }
    let lo: u128 = (s[n - 2] as u128) * 0x1_0000_0000_0000_0000 + (s[n - 1] as u128);
    proof {
        lemma_limbs_split(s@, 2);
        let hi = s@.subrange(0, n - 2);
        assert forall|j: int| 0 <= j < hi.len() implies hi[j] == 0 by {}
        lemma_limbs_zero(hi);
        let low = s@.subrange(n - 2, n as int);
        assert(low.drop_last().drop_last() =~= Seq::<u64>::empty());
        assert(limbs_value(low.drop_last().drop_last()) == 0);
        assert(low.drop_last().last() == s@[n - 2]);
        assert(limbs_value(low.drop_last()) == s@[n - 2]);
        assert(low.last() == s@[n - 1]);
        assert(limbs_value(low) == lo);
    }
    lo > e
}

/// `a - b` for `a >= b`, in the width of `a`.
#[verifier::spinoff_prover]
pub(crate) fn limbs_sub(a: &[u64], b: &[u64]) -> (r: Vec<u64>)
    requires
        a@.len() == b@.len(),
        limbs_value(a@) >= limbs_value(b@),
    ensures
        r@.len() == a@.len(),
        limbs_value(r@) == limbs_value(a@) - limbs_value(b@),
{
    let n = a.len();
    let mut out: Vec<u64> = Vec::new();
    let mut k: usize = 0;
    while k < n
        invariant
            k <= n,
            out@.len() == k,
        decreases n - k,
    {
        out.push(0);
        k += 1;
    }
    let mut borrow: u64 = 0;
    let mut i: usize = n;
    proof {
        lemma_limbs_weight_step(0);
        lemma2_to64();
        assert(a@.subrange(n as int, n as int) =~= Seq::<u64>::empty());
        assert(b@.subrange(n as int, n as int) =~= Seq::<u64>::empty());
        assert(out@.subrange(n as int, n as int) =~= Seq::<u64>::empty());
    }
    while i > 0
        invariant
            n == a@.len(),
            n == b@.len(),
            out@.len() == n,
            i <= n,
            borrow <= 1,
            limbs_value(out@.subrange(i as int, n as int)) == limbs_value(a@.subrange(i as int, n as int))
                - limbs_value(b@.subrange(i as int, n as int)) + borrow * limbs_weight((n - i) as nat),
        decreases i,
    {
        let t = i - 1;
        let x: u64 = a[t];
        let y: u64 = b[t];
        let d: u64;
        let nb: u64;
        if (x as u128) >= (y as u128) + (borrow as u128) {
            d = x - y - borrow;
            nb = 0;
            assert(d == x - y - borrow + nb * limb_base());
        } else {
            let wide: u128 = (x as u128) + 0x1_0000_0000_0000_0000 - (y as u128) - (borrow as u128);
            assert(wide < 0x1_0000_0000_0000_0000);
            d = wide as u64;
            nb = 1;
            assert(d == wide);
            assert(d == x - y - borrow + nb * limb_base());
        }
        let ghost old_out = out@;
        out.set(t, d);
        proof {
            let sa = a@.subrange(t as int, n as int);
            let sb = b@.subrange(t as int, n as int);
            let so = out@.subrange(t as int, n as int);
            lemma_limbs_lead(sa);
            lemma_limbs_lead(sb);
            lemma_limbs_lead(so);
            assert(sa.subrange(1, sa.len() as int) =~= a@.subrange(i as int, n as int));
            assert(sb.subrange(1, sb.len() as int) =~= b@.subrange(i as int, n as int));
            assert(so.subrange(1, so.len() as int) =~= old_out.subrange(i as int, n as int));
            assert(so[0] == d);
            lemma_limbs_weight_step((n - i) as nat);
            let w = limbs_weight((n - i) as nat);
            assert((n - t) as nat == (n - i) as nat + 1);
            let ra = limbs_value(a@.subrange(i as int, n as int));
            let rb = limbs_value(b@.subrange(i as int, n as int));
            assert(d == x - y - borrow + nb * limb_base());
            assert(d * w + (ra - rb + borrow * w) == (x * w + ra) - (y * w + rb) + nb * (w * limb_base())) by (nonlinear_arith)
                requires
                    d == x - y - borrow + nb * limb_base(),
            ;
        }
        borrow = nb;
        i = t;
    }
    proof {
        assert(out@.subrange(0, n as int) =~= out@);
        assert(a@.subrange(0, n as int) =~= a@);
        assert(b@.subrange(0, n as int) =~= b@);
        lemma_limbs_value_bound(out@);
        if borrow == 1 {
            assert(false);
        }
    }
    out
}

/// `2^k` in `n` limbs.
pub(crate) fn pow2_limbs(n: usize, k: u64) -> (r: Vec<u64>)
    requires
        k < 64 * n,
        n <= 0x100_0000,
    ensures
        r@.len() == n,
        limbs_value(r@) == pow2(k as nat),
{
    let j: usize = (k / 64) as usize;
    let b: u64 = k % 64;
    proof {
        vstd::bits::lemma_u64_pow2_no_overflow(b as nat);
        vstd::bits::lemma_u64_shl_is_mul(1, b);
        lemma2_to64();
    }
    let bit: u64 = 1u64 << b;
    let mut r: Vec<u64> = Vec::new();
    let mut i: usize = 0;
    while i < n
        invariant
            i <= n,
            j < n,
            n <= 0x100_0000,
            r@.len() == i,
            forall|t: int| 0 <= t < i && t != n - 1 - j ==> r@[t] == 0,
            n - 1 - j < i ==> r@[n - 1 - j] == bit,
        decreases n - i,
    {
        if i + 1 + j == n {
            r.push(bit);
        } else {
            r.push(0);
        }
        i += 1;
    }
    proof {
        let jj = j as nat;
        lemma_limbs_at(r@, jj);
        let pre = r@.subrange(0, n - 1 - j);
        let suf = r@.subrange(n - jj, n as int);
        assert forall|t: int| 0 <= t < pre.len() implies pre[t] == 0 by {}
        assert forall|t: int| 0 <= t < suf.len() implies suf[t] == 0 by {
            assert(suf[t] == r@[n - jj + t]);
        }
        lemma_limbs_zero(pre);
        lemma_limbs_zero(suf);
        lemma_weight_bits(jj, b as nat);
        assert(k as nat == 64 * jj + b);
        assert(bit == pow2(b as nat));
        assert(bit * limbs_weight(jj) == limbs_weight(jj) * pow2(b as nat)) by (nonlinear_arith)
            requires
                bit == pow2(b as nat),
        ;
        assert(r@[n - 1 - jj] == bit);
        assert(limbs_value(r@) == bit * limbs_weight(jj)) by (nonlinear_arith)
            requires
                limbs_value(r@) == limbs_value(pre) * limbs_weight(jj + 1) + bit * limbs_weight(jj) + limbs_value(suf),
                limbs_value(pre) == 0,
                limbs_value(suf) == 0,
        ;
    }
    r
}

// ---------------------------------------------------------------------------
// Single rounding to an IEEE binary format.
// ---------------------------------------------------------------------------

/// A target IEEE-754 binary format: `t` significand bits (the implicit 1
/// included), the normal exponent range, and the container width.
#[derive(Clone, Copy, Debug, PartialEq, Eq, Structural)]
pub struct Fmt {
    pub t: u32,
    pub emin: i32,
    pub emax: i32,
    pub width: u32,
}

/// The binary64 parameters.
pub open spec fn fmt_f64() -> Fmt {
    Fmt { t: 53, emin: -1022i32, emax: 1023, width: 64 }
}

/// The binary32 parameters.
pub open spec fn fmt_f32() -> Fmt {
    Fmt { t: 24, emin: -126i32, emax: 127, width: 32 }
}

/// The binary64 target format.
pub fn binary64() -> (f: Fmt)
    ensures
        f == fmt_f64(),
{
    Fmt { t: 53, emin: -1022, emax: 1023, width: 64 }
}

/// The binary32 target format.
pub fn binary32() -> (f: Fmt)
    ensures
        f == fmt_f32(),
{
    Fmt { t: 24, emin: -126, emax: 127, width: 32 }
}

/// The evaluation precision a rounding certifies.
#[derive(Clone, Copy, PartialEq, Eq, Debug, Structural)]
pub enum EvalPrecision {
    ComputeDtype,
    WiderThanCompute,
}

/// The rounding certificate: how far the value sat from a rounding boundary
/// (in bits below the kept significand) and the precision it was decided at.
#[derive(Clone, Copy, PartialEq, Eq, Debug, Structural)]
pub struct Certificate {
    pub hardness_margin_bits: u32,
    pub stabilized_precision_bits: u32,
}

/// A rounded bit pattern, whether the error bound decided it, and its certificate.
#[derive(Clone, Copy, PartialEq, Eq, Debug, Structural)]
pub struct RoundResult {
    pub bits: u64,
    pub decided: bool,
    pub eval_precision: EvalPrecision,
    pub cert: Certificate,
}

/// A well-formed IEEE binary format: bias `emax = 2^(w-t-1) - 1`, `emin = 1 - emax`.
pub open spec fn fmt_ok(f: Fmt) -> bool {
    &&& 2 <= f.t < f.width <= 64
    &&& f.width - f.t <= 16
    &&& f.emax == pow2((f.width - f.t - 1) as nat) - 1
    &&& f.emin == 1 - f.emax
}

proof fn lemma_fmt_ok()
    ensures
        fmt_ok(fmt_f64()),
        fmt_ok(fmt_f32()),
{
    lemma2_to64();
}

/// The IEEE encoding of a sign, a biased exponent field and a stored fraction.
pub open spec fn encoding(f: Fmt, sign: bool, field: nat, frac: nat) -> nat {
    (if sign { pow2((f.width - 1) as nat) } else { 0 }) + field * pow2((f.t - 1) as nat) + frac
}

/// The all-ones exponent field.
pub open spec fn max_field(f: Fmt) -> nat {
    (pow2((f.width - f.t) as nat) - 1) as nat
}

/// Zero, Inf and the canonical quiet NaN of a format.
pub open spec fn special_encoding(f: Fmt, class: FpClass, sign: bool) -> nat {
    match class {
        FpClass::Zero => encoding(f, sign, 0, 0),
        FpClass::Inf => encoding(f, sign, max_field(f), 0),
        _ => encoding(f, false, max_field(f), pow2((f.t - 2) as nat)),
    }
}

fn encode_bits(fmt: Fmt, sign: bool, exp_field: u64, frac: u64) -> (r: u64)
    requires
        fmt_ok(fmt),
        exp_field < pow2((fmt.width - fmt.t) as nat),
        frac < pow2((fmt.t - 1) as nat),
    ensures
        r == encoding(fmt, sign, exp_field as nat, frac as nat),
{
    let frac_width: u64 = (fmt.t - 1) as u64;
    let top: u64 = (fmt.width - 1) as u64;
    proof {
        let fw = frac_width as nat;
        let ew = (fmt.width - fmt.t) as nat;
        lemma_pow2_adds(ew, fw);
        assert(ew + fw == top);
        lemma_pow2_adds(top as nat, 1);
        lemma_limb_base();
        if top < 63 {
            lemma_pow2_strictly_increases((top + 1) as nat, 64);
        }
        vstd::bits::lemma_u64_pow2_no_overflow(top as nat);
        vstd::bits::lemma_u64_shl_is_mul(1, top);
        let e = exp_field as nat;
        let pf = pow2(fw);
        let pe = pow2(ew);
        assert(e * pf + frac < pe * pf) by (nonlinear_arith)
            requires
                e < pe,
                frac < pf,
        ;
        vstd::bits::lemma_u64_shl_is_mul(exp_field, frac_width);
        lemma2_to64();
    }
    let s: u64 = if sign { 1u64 << top } else { 0 };
    s + (exp_field << frac_width) + frac
}

fn max_exp_field(fmt: Fmt) -> (r: u64)
    requires
        fmt_ok(fmt),
    ensures
        r == max_field(fmt),
        r < pow2((fmt.width - fmt.t) as nat),
{
    let k: u64 = (fmt.width - fmt.t) as u64;
    proof {
        vstd::bits::lemma_u64_pow2_no_overflow(k as nat);
        vstd::bits::lemma_u64_shl_is_mul(1, k);
        lemma_pow2_pos(k as nat);
        lemma2_to64();
    }
    (1u64 << k) - 1
}

fn special_bits(fmt: Fmt, class: FpClass, sign: bool) -> (r: u64)
    requires
        fmt_ok(fmt),
        class != FpClass::Normal,
    ensures
        r == special_encoding(fmt, class, sign),
{
    proof {
        lemma_pow2_pos((fmt.width - fmt.t) as nat);
        lemma_pow2_pos((fmt.t - 1) as nat);
    }
    match class {
        FpClass::Zero => encode_bits(fmt, sign, 0, 0),
        FpClass::Inf => encode_bits(fmt, sign, max_exp_field(fmt), 0),
        _ => {
            let k: u64 = (fmt.t - 2) as u64;
            proof {
                vstd::bits::lemma_u64_pow2_no_overflow(k as nat);
                vstd::bits::lemma_u64_shl_is_mul(1, k);
                lemma2_to64();
                lemma_pow2_strictly_increases(k as nat, (fmt.t - 1) as nat);
            }
            encode_bits(fmt, false, max_exp_field(fmt), 1u64 << k)
        },
    }
}

/// The significand bits a result keeps: all `t` for a normal result, fewer
/// (possibly negative) below the normal range.
pub open spec fn avail_bits(f: Fmt, e: int) -> int {
    if e >= f.emin {
        f.t as int
    } else {
        f.t - (f.emin - e)
    }
}

/// The distance of the discarded bits `m mod 2^(k+1)` from the midpoint `2^k`.
pub open spec fn half_dist(m: nat, k: nat) -> nat {
    let low = m % pow2(k);
    if (m / pow2(k)) % 2 == 1 {
        low
    } else {
        (pow2(k) - low) as nat
    }
}

/// `cap - bit_len(d)`, floored at 0, and `cap` when `d == 0`.
pub open spec fn margin(cap: nat, d: nat) -> nat {
    if d == 0 {
        cap
    } else if cap > bit_len(d) {
        (cap - bit_len(d)) as nat
    } else {
        0
    }
}

/// `m / 2^shift` rounded to nearest, ties to even.
pub open spec fn rne_quotient(m: nat, shift: nat) -> nat {
    let q = m / pow2(shift);
    let round_bit = (m / pow2((shift - 1) as nat)) % 2 == 1;
    let sticky = m % pow2((shift - 1) as nat) != 0;
    q + (if round_bit && (sticky || q % 2 == 1) { 1nat } else { 0nat })
}

/// The correctly rounded bit pattern of `(-1)^sign * m * 2^(e - P + 1)` with
/// `m` a normalized `P`-bit mantissa (`e` its MSB exponent).
pub open spec fn rounded_bits(f: Fmt, sign: bool, m: nat, e: int, p: nat) -> nat {
    let a = avail_bits(f, e);
    if a <= -1 {
        encoding(f, sign, 0, 0)
    } else {
        let sig = rne_quotient(m, (p - a) as nat);
        if e >= f.emin {
            let carry = sig == pow2(a as nat);
            let ef = if carry { e + 1 } else { e };
            let s2 = if carry { sig / 2 } else { sig };
            if e > f.emax || ef > f.emax {
                encoding(f, sign, max_field(f), 0)
            } else {
                encoding(f, sign, (ef + f.emax) as nat, (s2 - pow2((f.t - 1) as nat)) as nat)
            }
        } else if sig >= pow2((f.t - 1) as nat) {
            encoding(f, sign, 1, 0)
        } else {
            encoding(f, sign, 0, sig)
        }
    }
}

/// The distance from the value to its nearest rounding boundary, in mantissa units.
pub open spec fn round_dist(f: Fmt, m: nat, e: int, p: nat) -> nat {
    let a = avail_bits(f, e);
    if a == -1 {
        (pow2(p) - m) as nat
    } else {
        half_dist(m, (p - a - 1) as nat)
    }
}

/// The hardness margin the certificate reports.
pub open spec fn round_margin(f: Fmt, m: nat, e: int, p: nat) -> nat {
    let a = avail_bits(f, e);
    if a <= -2 {
        0
    } else if a == -1 {
        margin(p, round_dist(f, m, e, p))
    } else {
        margin((p - a - 1) as nat, round_dist(f, m, e, p))
    }
}

/// Whether the error bound decides the rounding: the value's distance to the
/// boundary exceeds the error (or the error is zero, or the result overflows).
pub open spec fn round_decided(f: Fmt, m: nat, e: int, p: nat, err: nat) -> bool {
    let a = avail_bits(f, e);
    if a <= -2 {
        true
    } else if a == -1 {
        err == 0 || round_dist(f, m, e, p) > err
    } else {
        (e >= f.emin && e > f.emax) || err == 0 || round_dist(f, m, e, p) > err
    }
}

proof fn lemma_div_pow2_bounds(m: nat, shift: nat, k: nat)
    ensures
        m < pow2(shift + k) ==> m / pow2(shift) < pow2(k),
        pow2(shift + k) <= m ==> pow2(k) <= m / pow2(shift),
{
    lemma_pow2_pos(shift);
    lemma_pow2_adds(shift, k);
    let d = pow2(shift);
    let q = m / d;
    let r = m % d;
    lemma_fundamental_div_mod(m as int, d as int);
    let pk = pow2(k);
    if m < pow2(shift + k) && q >= pk {
        assert(d * q >= d * pk) by (nonlinear_arith)
            requires
                q >= pk,
        ;
        assert(d * pk == pow2(shift + k)) by (nonlinear_arith)
            requires
                pow2(shift + k) == d * pk,
        ;
    }
    if pow2(shift + k) <= m && q < pk {
        assert(d * q + r < d * pk) by (nonlinear_arith)
            requires
                q + 1 <= pk,
                r < d,
        ;
        assert(d * pk == pow2(shift + k)) by (nonlinear_arith)
            requires
                pow2(shift + k) == d * pk,
        ;
    }
}

proof fn lemma_bit_len_pos(x: nat)
    ensures
        (x == 0) == (bit_len(x) == 0),
{
}

/// Rounds a wide value with its error bound to `fmt`, once, ties to even.
#[verifier::spinoff_prover]
fn round_evaluated<const N: usize>(ev: &Evaluated<N>, fmt: Fmt) -> (r: RoundResult)
    requires
        ev.val.wf(),
        fmt_ok(fmt),
        fmt.t < precision(N),
        N < 0x100_0000,
        ev.val.class == FpClass::Normal ==> ev.val.ebin_spec() <= i32::MAX,
    ensures
        r.eval_precision == EvalPrecision::WiderThanCompute,
        r.cert.stabilized_precision_bits == precision(N),
        ev.val.class != FpClass::Normal ==> r.decided && r.cert.hardness_margin_bits == 0
            && r.bits == special_encoding(fmt, ev.val.class, ev.val.sign),
        ev.val.class == FpClass::Normal ==> r.bits == rounded_bits(fmt, ev.val.sign, ev.val.mant_value(), ev.val.ebin_spec(), precision(N))
            && r.decided == round_decided(fmt, ev.val.mant_value(), ev.val.ebin_spec(), precision(N), ev.err_ulps as nat)
            && r.cert.hardness_margin_bits == round_margin(fmt, ev.val.mant_value(), ev.val.ebin_spec(), precision(N)),
{
    let val = &ev.val;
    let err_ulps = ev.err_ulps;
    let stab: u32 = 64 * (N as u32);
    let special = Certificate { hardness_margin_bits: 0, stabilized_precision_bits: stab };
    match val.class {
        FpClass::Normal => {},
        _ => {
            return RoundResult {
                bits: special_bits(fmt, val.class, val.sign),
                decided: true,
                eval_precision: EvalPrecision::WiderThanCompute,
                cert: special,
            };
        },
    }
    let ghost m = val.mant_value();
    let ghost pp = precision(N);
    proof {
        lemma_normalized_range(val.mant@);
    }
    let p: i32 = 64 * (N as i32);
    let e_orig: i32 = val.ebin();
    let avail_i: i32 = if e_orig >= fmt.emin {
        fmt.t as i32
    } else {
        (fmt.t as i32) - (fmt.emin - e_orig)
    };
    if avail_i <= -2 {
        return RoundResult {
            bits: special_bits(fmt, FpClass::Zero, val.sign),
            decided: true,
            eval_precision: EvalPrecision::WiderThanCompute,
            cert: special,
        };
    }
    if avail_i == -1 {
        let top = pow2_limbs(N + 1, p as u64);
        let mut mext: Vec<u64> = Vec::new();
        mext.push(0);
        let mut i: usize = 0;
        while i < N
            invariant
                i <= N,
                val.mant@.len() == N,
                mext@ == seq![0u64] + val.mant@.subrange(0, i as int),
            decreases N - i,
        {
            mext.push(val.mant[i]);
            i += 1;
            proof {
                assert(mext@ =~= seq![0u64] + val.mant@.subrange(0, i as int));
            }
        }
        proof {
            assert(val.mant@.subrange(0, N as int) =~= val.mant@);
            lemma_limbs_concat(seq![0u64], val.mant@);
            assert(seq![0u64].drop_last() =~= Seq::<u64>::empty());
            assert(limbs_value(Seq::<u64>::empty()) == 0);
            assert(seq![0u64].last() == 0);
            assert(limbs_value(seq![0u64]) == limbs_value(seq![0u64].drop_last()) * limb_base() + seq![0u64].last());
            assert(limbs_value(seq![0u64]) == 0);
            assert(mext@ =~= seq![0u64] + val.mant@);
            assert(limbs_value(mext@) == 0 * limbs_weight(N as nat) + m);
            assert(limbs_value(mext@) == m);
        }
        let d = limbs_sub(top.as_slice(), mext.as_slice());
        let bl = limbs_bit_len(d.as_slice());
        proof {
            lemma_bit_len_pos(limbs_value(d@));
        }
        let pu: u64 = p as u64;
        let hardness: u64 = if bl == 0 {
            pu
        } else if pu > bl {
            pu - bl
        } else {
            0
        };
        let decided = err_ulps == 0 || limbs_gt(d.as_slice(), err_ulps);
        return RoundResult {
            bits: special_bits(fmt, FpClass::Zero, val.sign),
            decided,
            eval_precision: EvalPrecision::WiderThanCompute,
            cert: Certificate { hardness_margin_bits: hardness as u32, stabilized_precision_bits: stab },
        };
    }
    let avail: u64 = avail_i as u64;
    let shift: u64 = (p - avail_i) as u64;
    let ms = val.mant.as_slice();
    let q: u64 = window64(ms, shift);
    proof {
        lemma_div_pow2_bounds(m, shift as nat, avail as nat);
        assert(shift + avail == pp);
        lemma_limb_base();
        lemma_pow2_strictly_increases(avail as nat, 64);
        vstd::arithmetic::div_mod::lemma_small_mod(m / pow2(shift as nat), limb_base());
        assert(q == m / pow2(shift as nat));
    }
    let rb_word: u64 = window64(ms, shift - 1);
    let round_bit: bool = rb_word % 2 == 1;
    proof {
        let x = m / pow2((shift - 1) as nat);
        lemma2_to64();
        lemma_pow2_adds(1, 63);
        vstd::arithmetic::div_mod::lemma_mod_mod(x as int, 2, pow2(63) as int);
        assert(round_bit == ((x % 2) == 1));
    }
    let low = mask_low(ms, shift - 1);
    let sticky: bool = !limbs_is_zero(low.as_slice());
    let round_up: bool = round_bit && (sticky || q % 2 == 1);
    proof {
        lemma_pow2_strictly_increases(avail as nat, 64);
        lemma2_to64();
    }
    let sig: u64 = if round_up { q + 1 } else { q };
    assert(sig == rne_quotient(m, shift as nat));
    let d: Vec<u64> = if round_bit {
        low
    } else {
        let h = pow2_limbs(N, shift - 1);
        proof {
            lemma_pow2_pos((shift - 1) as nat);
            vstd::arithmetic::div_mod::lemma_mod_bound(m as int, pow2((shift - 1) as nat) as int);
        }
        limbs_sub(h.as_slice(), low.as_slice())
    };
    assert(limbs_value(d@) == half_dist(m, (shift - 1) as nat));
    let bl = limbs_bit_len(d.as_slice());
    proof {
        lemma_bit_len_pos(limbs_value(d@));
    }
    let cap: u64 = shift - 1;
    let hardness: u64 = if bl == 0 {
        cap
    } else if cap > bl {
        cap - bl
    } else {
        0
    };
    let sign = val.sign;
    let mut overflow = false;
    let bits: u64;
    if e_orig >= fmt.emin {
        proof {
            assert(avail == fmt.t);
            lemma_div_pow2_bounds(m, shift as nat, (fmt.t - 1) as nat);
            assert(shift + fmt.t - 1 == pp - 1);
            vstd::bits::lemma_u64_pow2_no_overflow(avail as nat);
            vstd::bits::lemma_u64_shl_is_mul(1, avail);
            vstd::arithmetic::power2::lemma_pow2_unfold(avail as nat);
            vstd::arithmetic::power2::lemma_pow2_unfold((fmt.width - fmt.t) as nat);
        }
        let mut e_final: i64 = e_orig as i64;
        let mut s2: u64 = sig;
        if sig == (1u64 << avail) {
            s2 = sig / 2;
            e_final = e_final + 1;
        }
        if e_orig > fmt.emax {
            overflow = true;
            bits = special_bits(fmt, FpClass::Inf, sign);
        } else if e_final > fmt.emax as i64 {
            bits = special_bits(fmt, FpClass::Inf, sign);
        } else {
            let exp_field: u64 = (e_final + fmt.emax as i64) as u64;
            proof {
                vstd::bits::lemma_u64_pow2_no_overflow((fmt.t - 1) as nat);
                vstd::bits::lemma_u64_shl_is_mul(1, (fmt.t - 1) as u64);
                assert(s2 < pow2(avail as nat));
            }
            let implicit: u64 = 1u64 << ((fmt.t - 1) as u64);
            let frac: u64 = s2 - implicit;
            bits = encode_bits(fmt, sign, exp_field, frac);
        }
    } else {
        proof {
            lemma_pow2_pos((fmt.width - fmt.t) as nat);
            vstd::bits::lemma_u64_pow2_no_overflow((fmt.t - 1) as nat);
            vstd::bits::lemma_u64_shl_is_mul(1, (fmt.t - 1) as u64);
            lemma_pow2_pos((fmt.t - 1) as nat);
            lemma_pow2_strictly_increases(0, (fmt.width - fmt.t) as nat);
        }
        let implicit: u64 = 1u64 << ((fmt.t - 1) as u64);
        if sig >= implicit {
            bits = encode_bits(fmt, sign, 1, 0);
        } else {
            bits = encode_bits(fmt, sign, 0, sig);
        }
    }
    let decided = overflow || err_ulps == 0 || limbs_gt(d.as_slice(), err_ulps);
    RoundResult {
        bits,
        decided,
        eval_precision: EvalPrecision::WiderThanCompute,
        cert: Certificate { hardness_margin_bits: hardness as u32, stabilized_precision_bits: stab },
    }
}

/// Rounds a wide value with its error bound to binary64, once, ties to even.
pub fn round_to_f64<const N: usize>(ev: &Evaluated<N>) -> (r: RoundResult)
    requires
        ev.val.wf(),
        1 <= N < 0x100_0000,
        ev.val.class == FpClass::Normal ==> ev.val.ebin_spec() <= i32::MAX,
    ensures
        r.eval_precision == EvalPrecision::WiderThanCompute,
        r.cert.stabilized_precision_bits == precision(N),
        ev.val.class != FpClass::Normal ==> r.decided && r.cert.hardness_margin_bits == 0
            && r.bits == special_encoding(fmt_f64(), ev.val.class, ev.val.sign),
        ev.val.class == FpClass::Normal ==> r.bits == rounded_bits(fmt_f64(), ev.val.sign, ev.val.mant_value(), ev.val.ebin_spec(), precision(N))
            && r.decided == round_decided(fmt_f64(), ev.val.mant_value(), ev.val.ebin_spec(), precision(N), ev.err_ulps as nat)
            && r.cert.hardness_margin_bits == round_margin(fmt_f64(), ev.val.mant_value(), ev.val.ebin_spec(), precision(N)),
{
    proof {
        lemma_fmt_ok();
    }
    round_evaluated(ev, binary64())
}

/// Rounds a wide value with its error bound to binary32, once, ties to even.
pub fn round_to_f32<const N: usize>(ev: &Evaluated<N>) -> (r: RoundResult)
    requires
        ev.val.wf(),
        1 <= N < 0x100_0000,
        ev.val.class == FpClass::Normal ==> ev.val.ebin_spec() <= i32::MAX,
    ensures
        r.eval_precision == EvalPrecision::WiderThanCompute,
        r.cert.stabilized_precision_bits == precision(N),
        ev.val.class != FpClass::Normal ==> r.decided && r.cert.hardness_margin_bits == 0
            && r.bits == special_encoding(fmt_f32(), ev.val.class, ev.val.sign),
        ev.val.class == FpClass::Normal ==> r.bits == rounded_bits(fmt_f32(), ev.val.sign, ev.val.mant_value(), ev.val.ebin_spec(), precision(N))
            && r.decided == round_decided(fmt_f32(), ev.val.mant_value(), ev.val.ebin_spec(), precision(N), ev.err_ulps as nat)
            && r.cert.hardness_margin_bits == round_margin(fmt_f32(), ev.val.mant_value(), ev.val.ebin_spec(), precision(N)),
{
    proof {
        lemma_fmt_ok();
    }
    round_evaluated(ev, binary32())
}

/// `a < b` for equal-length limb sequences.
fn limbs_less(a: &[u64], b: &[u64]) -> (r: bool)
    requires
        a@.len() == b@.len(),
    ensures
        r == (limbs_value(a@) < limbs_value(b@)),
{
    let n = a.len();
    let mut i: usize = 0;
    while i < n
        invariant
            n == a@.len(),
            n == b@.len(),
            i <= n,
            forall|j: int| 0 <= j < i ==> a@[j] == b@[j],
        decreases n - i,
    {
        if a[i] != b[i] {
            proof {
                if a@[i as int] < b@[i as int] {
                    lemma_limbs_first_difference(a@, b@, i as int);
                } else {
                    lemma_limbs_first_difference(b@, a@, i as int);
                }
            }
            return a[i] < b[i];
        }
        i += 1;
    }
    proof {
        assert(a@ =~= b@);
    }
    false
}

/// A vector of `N` limbs as an array.
fn to_array<const N: usize>(v: &Vec<u64>) -> (r: [u64; N])
    requires
        v@.len() == N,
    ensures
        r@ == v@,
{
    let mut r = [0u64; N];
    let mut i: usize = 0;
    while i < N
        invariant
            i <= N,
            v@.len() == N,
            r@.len() == N,
            forall|j: int| 0 <= j < i ==> r@[j] == v@[j],
        decreases N - i,
    {
        r[i] = v[i];
        i += 1;
    }
    proof {
        assert(r@ =~= v@);
    }
    r
}

impl<const N: usize> BigFloat<N> {
    /// The exact distance `|a - b|` of two mantissas that share an exponent.
    pub fn abs_diff_limbs(&self, other: &Self) -> (r: [u64; N])
        requires
            self.exp == other.exp,
        ensures
            limbs_value(r@) == (if self.mant_value() >= other.mant_value() {
                self.mant_value() - other.mant_value()
            } else {
                other.mant_value() - self.mant_value()
            }),
    {
        let a = self.mant.as_slice();
        let b = other.mant.as_slice();
        let diff = if limbs_less(a, b) {
            limbs_sub(b, a)
        } else {
            limbs_sub(a, b)
        };
        to_array::<N>(&diff)
    }

    /// The value rounded to the nearest integer, ties to even; Zero, Inf and
    /// NaN give 0. The magnitude must stay below `2^62`.
    pub fn round_to_i64(&self) -> (r: i64)
        requires
            self.wf(),
            N <= 0x100_0000,
            self.class == FpClass::Normal ==> self.exp < 0 && self.mant_value() / pow2((-self.exp) as nat) < 0x4000_0000_0000_0000,
        ensures
            self.class != FpClass::Normal ==> r == 0,
            self.class == FpClass::Normal ==> r == (if self.sign { -rne_quotient(self.mant_value(), (-self.exp) as nat) } else {
                rne_quotient(self.mant_value(), (-self.exp) as nat) as int
            }),
    {
        match self.class {
            FpClass::Normal => {},
            _ => {
                return 0;
            },
        }
        let ghost m = self.mant_value();
        let shift: u64 = (0i64 - (self.exp as i64)) as u64;
        let ms = self.mant.as_slice();
        let q: u64 = window64(ms, shift);
        proof {
            lemma_limb_base();
            vstd::arithmetic::div_mod::lemma_small_mod(m / pow2(shift as nat), limb_base());
        }
        let rb_word: u64 = window64(ms, shift - 1);
        let round_bit: bool = rb_word % 2 == 1;
        proof {
            let x = m / pow2((shift - 1) as nat);
            lemma2_to64();
            lemma_pow2_adds(1, 63);
            vstd::arithmetic::div_mod::lemma_mod_mod(x as int, 2, pow2(63) as int);
        }
        let low = mask_low(ms, shift - 1);
        let sticky: bool = !limbs_is_zero(low.as_slice());
        let mm: u64 = if round_bit && (sticky || q % 2 == 1) { q + 1 } else { q };
        assert(mm == rne_quotient(m, shift as nat));
        if self.sign {
            0 - (mm as i64)
        } else {
            mm as i64
        }
    }
}

// ---------------------------------------------------------------------------
// Scaling a limb sequence by a power of two.
// ---------------------------------------------------------------------------

/// `v * 2^sh` for `sh >= 0`, `floor(v / 2^-sh)` otherwise.
pub open spec fn scaled_value(v: nat, sh: int) -> nat {
    if sh >= 0 {
        v * pow2(sh as nat)
    } else {
        v / pow2((-sh) as nat)
    }
}

/// Limbs whose `k`-th limb from the low end is `(v / 2^(64k)) mod 2^64`
/// read as `v mod 2^(64 * len)`.
proof fn lemma_limbs_compose(out: Seq<u64>, v: nat)
    requires
        forall|k: int| 0 <= k < out.len() ==> #[trigger] out[out.len() - 1 - k] as nat == (v / limbs_weight(k as nat)) % limb_base(),
    ensures
        limbs_value(out) == v % limbs_weight(out.len()),
    decreases out.len(),
{
    lemma_limbs_weight_step(0);
    lemma2_to64();
    lemma_limb_base();
    if out.len() == 0 {
        assert(v % 1 == 0);
    } else {
        let d = out.drop_last();
        let v2 = v / limb_base();
        assert forall|k: int| 0 <= k < d.len() implies #[trigger] d[d.len() - 1 - k] as nat == (v2 / limbs_weight(k as nat)) % limb_base() by {
            assert(d[d.len() - 1 - k] == out[out.len() - 1 - (k + 1)]);
            lemma_limbs_weight_step(k as nat);
            vstd::arithmetic::div_mod::lemma_div_denominator(v as int, limb_base() as int, limbs_weight(k as nat) as int);
            assert(limb_base() * limbs_weight(k as nat) == limbs_weight((k + 1) as nat)) by (nonlinear_arith)
                requires
                    limbs_weight((k + 1) as nat) == limbs_weight(k as nat) * limb_base(),
            ;
        }
        lemma_limbs_compose(d, v2);
        assert(out.last() == out[out.len() - 1 - 0]);
        assert(out.last() as nat == v % limb_base());
        lemma_limbs_weight_step(d.len());
        vstd::arithmetic::div_mod::lemma_breakdown(v as int, limb_base() as int, limbs_weight(d.len()) as int);
        assert(limb_base() * limbs_weight(d.len()) == limbs_weight(out.len())) by (nonlinear_arith)
            requires
                limbs_weight(d.len() + 1) == limbs_weight(d.len()) * limb_base(),
                out.len() == d.len() + 1,
        ;
    }
}

/// The `k`-th limb (from the low end) of the value scaled by `2^sh`.
#[verifier::spinoff_prover]
fn scaled_window(s: &[u64], sh: i64, k: u64) -> (r: u64)
    requires
        s@.len() <= 0x100_0000,
        k <= 0x100_0000,
        -0x1_0000_0000 <= sh <= 0x1_0000_0000,
    ensures
        r == (scaled_value(limbs_value(s@), sh as int) / limbs_weight(k as nat)) % limb_base(),
{
    let ghost m = limbs_value(s@);
    let pos: i64 = 64 * (k as i64) - sh;
    proof {
        lemma_limb_base();
        lemma_pow2_pos(64 * k as nat);
    }
    if pos >= 0 {
        let r = window64(s, pos as u64);
        proof {
            if sh >= 0 {
                lemma_pow2_adds(sh as nat, pos as nat);
                assert(64 * k == sh + pos);
                lemma_pow2_pos(sh as nat);
                lemma_pow2_pos(pos as nat);
                vstd::arithmetic::div_mod::lemma_div_denominator((m * pow2(sh as nat)) as int, pow2(sh as nat) as int, pow2(pos as nat) as int);
                vstd::arithmetic::div_mod::lemma_div_multiples_vanish(m as int, pow2(sh as nat) as int);
                assert(pow2(sh as nat) * m == m * pow2(sh as nat)) by (nonlinear_arith);
            } else {
                let d = (-sh) as nat;
                lemma_pow2_adds(d, 64 * k as nat);
                assert(pos == d + 64 * k);
                lemma_pow2_pos(d);
                vstd::arithmetic::div_mod::lemma_div_denominator(m as int, pow2(d) as int, pow2(64 * k as nat) as int);
            }
        }
        r
    } else {
        let a: i64 = 0 - pos;
        proof {
            lemma_pow2_adds(64 * k as nat, a as nat);
            assert(sh == 64 * k + a);
            let w = pow2(64 * k as nat);
            let pa = pow2(a as nat);
            assert(m * pow2(sh as nat) == (m * pa) * w) by (nonlinear_arith)
                requires
                    pow2(sh as nat) == w * pa,
            ;
            vstd::arithmetic::div_mod::lemma_div_multiples_vanish((m * pa) as int, w as int);
            assert(w * (m * pa) == (m * pa) * w) by (nonlinear_arith);
        }
        if a >= 64 {
            proof {
                lemma_pow2_adds(64, (a - 64) as nat);
                let pa = pow2(a as nat);
                let c = pow2((a - 64) as nat);
                assert(m * pa == (m * c) * limb_base()) by (nonlinear_arith)
                    requires
                        pa == limb_base() * c,
                ;
                vstd::arithmetic::div_mod::lemma_mod_multiples_basic((m * c) as int, limb_base() as int);
            }
            return 0;
        }
        let n = s.len();
        let low: u64 = if n > 0 { s[n - 1] } else { 0 };
        proof {
            vstd::bits::lemma_u64_pow2_no_overflow(a as nat);
            vstd::bits::lemma_u64_shl_is_mul(1, a as u64);
        }
        let f: u64 = 1u64 << (a as u64);
        assert((low as u128) * (f as u128) < 0x1_0000_0000_0000_0000_0000_0000_0000_0000) by (nonlinear_arith)
            requires
                low < 0x1_0000_0000_0000_0000u128,
                f < 0x1_0000_0000_0000_0000u128,
        ;
        let prod: u128 = (low as u128) * (f as u128);
        let r: u64 = (prod % 0x1_0000_0000_0000_0000) as u64;
        proof {
            if n > 0 {
                lemma_limbs_split(s@, 1);
                let hi = limbs_value(s@.subrange(0, n - 1));
                let lo = s@.subrange(n - 1, n as int);
                assert(lo.drop_last() =~= Seq::<u64>::empty());
                assert(limbs_value(lo.drop_last()) == 0);
                assert(lo.last() == low);
                assert(limbs_value(lo) == low as nat);
                lemma_limbs_weight_step(0);
                assert(limbs_weight(1) == limb_base());
                assert(m == hi * limb_base() + low);
                vstd::arithmetic::div_mod::lemma_fundamental_div_mod_converse(m as int, limb_base() as int, hi as int, low as int);
            } else {
                assert(m == 0);
            }
            vstd::arithmetic::div_mod::lemma_mul_mod_noop_left(m as int, f as int, limb_base() as int);
        }
        r
    }
}

/// `len` limbs of the value scaled by `2^sh`, modulo `2^(64*len)`.
pub(crate) fn scaled_limbs(s: &[u64], len: usize, sh: i64) -> (r: Vec<u64>)
    requires
        s@.len() <= 0x100_0000,
        len <= 0x100_0000,
        -0x1_0000_0000 <= sh <= 0x1_0000_0000,
    ensures
        r@.len() == len,
        limbs_value(r@) == scaled_value(limbs_value(s@), sh as int) % limbs_weight(len as nat),
{
    let ghost v = scaled_value(limbs_value(s@), sh as int);
    let mut r: Vec<u64> = Vec::new();
    let mut i: usize = 0;
    while i < len
        invariant
            i <= len <= 0x100_0000,
            s@.len() <= 0x100_0000,
            -0x1_0000_0000 <= sh <= 0x1_0000_0000,
            v == scaled_value(limbs_value(s@), sh as int),
            r@.len() == i,
            forall|j: int| 0 <= j < i ==> #[trigger] r@[j] as nat == (v / limbs_weight((len - 1 - j) as nat)) % limb_base(),
        decreases len - i,
    {
        let w = scaled_window(s, sh, (len - 1 - i) as u64);
        r.push(w);
        i += 1;
    }
    proof {
        assert forall|k: int| 0 <= k < r@.len() implies #[trigger] r@[r@.len() - 1 - k] as nat == (v / limbs_weight(k as nat)) % limb_base() by {
            let j = r@.len() - 1 - k;
            assert(len - 1 - j == k);
        }
        lemma_limbs_compose(r@, v);
    }
    r
}

// ---------------------------------------------------------------------------
// Rounding a magnitude to P bits, ties to even.
// ---------------------------------------------------------------------------

/// `m * 2^e` (plus, when `sticky`, a positive amount below the weight `2^e`)
/// rounded to a normalized `p`-bit mantissa, ties to even: the mantissa, its
/// LSB weight, and whether anything was lost. `None` for `m == 0`.
pub open spec fn rne_round(m: nat, e: int, sticky: bool, p: nat) -> Option<(nat, int, bool)> {
    if m == 0 {
        None
    } else {
        let l = bit_len(m);
        if l <= p {
            Some((m * pow2((p - l) as nat), e - (p - l), sticky))
        } else {
            let d = (l - p) as nat;
            let q = m / pow2(d);
            let rb = (m / pow2((d - 1) as nat)) % 2 == 1;
            let st = sticky || m % pow2((d - 1) as nat) != 0;
            let up = rb && (st || q % 2 == 1);
            if up && q + 1 == pow2(p) {
                Some((pow2((p - 1) as nat), e + d + 1, rb || st))
            } else {
                Some((q + (if up { 1nat } else { 0nat }), e + d, rb || st))
            }
        }
    }
}

/// Adds one to an `N`-limb mantissa; the flag is the carry out of the top.
#[verifier::spinoff_prover]
fn limbs_inc<const N: usize>(m: [u64; N]) -> (r: ([u64; N], bool))
    ensures
        limbs_value(r.0@) + (if r.1 { limbs_weight(N as nat) } else { 0 }) == limbs_value(m@) + 1,
{
    let mut out = m;
    let mut i: usize = N;
    proof {
        lemma_limbs_weight_step(0);
        lemma2_to64();
        assert(m@.subrange(N as int, N as int) =~= Seq::<u64>::empty());
    }
    while i > 0
        invariant
            i <= N,
            out@.len() == N,
            forall|j: int| 0 <= j < i ==> out@[j] == m@[j],
            forall|j: int| i <= j < N ==> out@[j] == 0,
            limbs_value(m@.subrange(i as int, N as int)) + 1 == limbs_weight((N - i) as nat),
        decreases i,
    {
        let t = i - 1;
        if m[t] != 0xFFFF_FFFF_FFFF_FFFF {
            out[t] = m[t] + 1;
            proof {
                let jj = (N - 1 - t) as nat;
                lemma_limbs_at(m@, jj);
                lemma_limbs_at(out@, jj);
                assert(out@.subrange(0, t as int) =~= m@.subrange(0, t as int));
                let suf = out@.subrange(i as int, N as int);
                assert forall|z: int| 0 <= z < suf.len() implies suf[z] == 0 by {
                    assert(suf[z] == out@[i + z]);
                }
                lemma_limbs_zero(suf);
                assert(m@.subrange(N - jj, N as int) == m@.subrange(i as int, N as int));
                assert(out@.subrange(N - jj, N as int) == suf);
                assert(out@[t as int] == m@[t as int] + 1);
                let w = limbs_weight(jj);
                let pm = limbs_value(m@.subrange(0, t as int));
                let w1 = limbs_weight(jj + 1);
                let rm = limbs_value(m@.subrange(i as int, N as int));
                assert(rm + 1 == w);
                assert(pm * w1 + (m@[t as int] + 1) * w + 0 == (pm * w1 + m@[t as int] * w + rm) + 1) by (nonlinear_arith)
                    requires
                        rm + 1 == w,
                ;
            }
            return (out, false);
        }
        out[t] = 0;
        proof {
            let sa = m@.subrange(t as int, N as int);
            lemma_limbs_lead(sa);
            assert(sa.subrange(1, sa.len() as int) =~= m@.subrange(i as int, N as int));
            lemma_limbs_weight_step((N - i) as nat);
            lemma_limb_base();
            let w = limbs_weight((N - i) as nat);
            assert(0xFFFF_FFFF_FFFF_FFFFu64 * w + (w - 1) + 1 == w * limb_base()) by (nonlinear_arith)
                requires
                    limb_base() == 0x1_0000_0000_0000_0000,
            ;
            assert((N - t) as nat == (N - i) as nat + 1);
        }
        i = t;
    }
    proof {
        assert(m@.subrange(0, N as int) =~= m@);
        assert forall|z: int| 0 <= z < out@.len() implies out@[z] == 0 by {}
        lemma_limbs_zero(out@);
    }
    (out, true)
}

/// Rounds the magnitude `mag` (its LSB at weight `2^exp_lsb`, with
/// `extra_sticky` marking content below it) to a normalized `P`-bit mantissa.
#[verifier::spinoff_prover]
pub(crate) fn normalize_round<const N: usize>(mag: &[u64], exp_lsb: i64, extra_sticky: bool) -> (r: Option<([u64; N], i64, bool)>)
    requires
        1 <= N <= 0x10_0000,
        mag@.len() <= 0x10_0000,
        -0x4_0000_0000 <= exp_lsb <= 0x4_0000_0000,
    ensures
        match rne_round(limbs_value(mag@), exp_lsb as int, extra_sticky, precision(N)) {
            None => r is None,
            Some((mv, e, inexact)) => r matches Some((m, ex, i)) && limbs_value(m@) == mv && ex == e && i == inexact
                && top_bit_set(m@[0]),
        },
        r matches Some((_, ex, _)) ==> exp_lsb + bit_len(limbs_value(mag@)) - precision(N) <= ex
            <= exp_lsb + bit_len(limbs_value(mag@)) - precision(N) + 1,
{
    let p: u64 = 64 * (N as u64);
    let l = limbs_bit_len(mag);
    let ghost mv = limbs_value(mag@);
    proof {
        lemma_bit_len(mv);
        lemma_limbs_value_bound(mag@);
        lemma_bit_len_pos(mv);
    }
    if l == 0 {
        return None;
    }
    if l <= p {
        let sh: i64 = (p - l) as i64;
        let buf = scaled_limbs(mag, N, sh);
        let mant = to_array::<N>(&buf);
        proof {
            let pl = (p - l) as nat;
            lemma_pow2_pos(pl);
            lemma_pow2_adds((l - 1) as nat, pl);
            lemma_pow2_adds(l as nat, pl);
            assert(mv * pow2(pl) < pow2(l as nat) * pow2(pl)) by (nonlinear_arith)
                requires
                    mv < pow2(l as nat),
                    pow2(pl) > 0,
            ;
            lemma_pow2_pos(pl);
            assert(pow2((l - 1) as nat) * pow2(pl) <= mv * pow2(pl)) by (nonlinear_arith)
                requires
                    pow2((l - 1) as nat) <= mv,
            ;
            assert(l + pl == p);
            vstd::arithmetic::div_mod::lemma_small_mod(mv * pow2(pl), limbs_weight(N as nat));
            lemma_top_limb(mant@, (mv * pow2(pl)));
        }
        return Some((mant, exp_lsb - sh, extra_sticky));
    }
    let d: u64 = l - p;
    let buf = scaled_limbs(mag, N, 0 - (d as i64));
    let q_arr = to_array::<N>(&buf);
    let rb_word = window64(mag, d - 1);
    let round_bit: bool = rb_word % 2 == 1;
    let low = mask_low(mag, d - 1);
    let sticky: bool = extra_sticky || !limbs_is_zero(low.as_slice());
    let lsb_odd: bool = q_arr[N - 1] % 2 == 1;
    let ghost q = mv / pow2(d as nat);
    proof {
        lemma_div_pow2_bounds(mv, d as nat, p as nat);
        lemma_div_pow2_bounds(mv, d as nat, (p - 1) as nat);
        assert(d + p == l);
        assert(d + p - 1 == l - 1);
        vstd::arithmetic::div_mod::lemma_small_mod(q, limbs_weight(N as nat));
        let x = mv / pow2((d - 1) as nat);
        lemma2_to64();
        lemma_pow2_adds(1, 63);
        lemma_limb_base();
        vstd::arithmetic::div_mod::lemma_mod_mod(x as int, 2, pow2(63) as int);
        lemma_limbs_split(q_arr@, 1);
        lemma_limbs_weight_step(0);
        let tl = q_arr@.subrange(N - 1, N as int);
        assert(tl.drop_last() =~= Seq::<u64>::empty());
        assert(limbs_value(tl.drop_last()) == 0);
        assert(tl.last() == q_arr@[N - 1]);
        assert(limbs_value(tl) == q_arr@[N - 1] as nat);
        let hq = limbs_value(q_arr@.subrange(0, N - 1));
        assert(q == hq * limb_base() + q_arr@[N - 1]);
        assert((hq * limb_base() + q_arr@[N - 1]) % 2 == (q_arr@[N - 1] as nat) % 2) by (nonlinear_arith)
            requires
                limb_base() == 0x1_0000_0000_0000_0000,
        ;
    }
    let inexact = round_bit || sticky;
    let exp: i64 = exp_lsb + (d as i64);
    if round_bit && (sticky || lsb_odd) {
        let (inc, carry) = limbs_inc(q_arr);
        if carry {
            let mut top = [0u64; N];
            top[0] = 0x8000_0000_0000_0000;
            proof {
                assert(q + 1 == pow2(p as nat)) by {
                    lemma_limbs_value_bound(inc@);
                    lemma_pow2_pos(64 * N as nat);
                }
                lemma_limbs_lead(top@);
                let tl = top@.subrange(1, N as int);
                assert forall|z: int| 0 <= z < tl.len() implies tl[z] == 0 by {
                    assert(tl[z] == top@[z + 1]);
                }
                lemma_limbs_zero(tl);
                vstd::arithmetic::power2::lemma2_to64_rest();
                lemma_pow2_adds(63, (64 * (N - 1)) as nat);
                assert(63 + 64 * (N - 1) == p - 1);
            }
            return Some((top, exp + 1, inexact));
        }
        proof {
            lemma_normalized_after_inc(q, inc@, p as nat);
            assert(limbs_value(inc@) == q + 1);
            lemma_limbs_value_bound(inc@);
            assert(q + 1 != pow2(p as nat));
        }
        return Some((inc, exp, inexact));
    }
    proof {
        lemma_top_limb(q_arr@, q);
        if q + 1 == pow2(p as nat) {
        }
    }
    Some((q_arr, exp, inexact))
}

/// A value in `[2^(P-1), 2^P)` held in `N` limbs has its top bit set.
proof fn lemma_top_limb(s: Seq<u64>, v: nat)
    requires
        s.len() >= 1,
        limbs_value(s) == v,
        pow2((64 * s.len() - 1) as nat) <= v,
    ensures
        top_bit_set(s[0]),
{
    lemma_limbs_lead(s);
    let w = limbs_weight((s.len() - 1) as nat);
    let rest = limbs_value(s.subrange(1, s.len() as int));
    vstd::arithmetic::power2::lemma2_to64_rest();
    lemma_pow2_adds(63, 64 * (s.len() - 1) as nat);
    assert(63 + 64 * (s.len() - 1) == 64 * s.len() - 1);
    if s[0] < 0x8000_0000_0000_0000 {
        assert(s[0] * w + rest < 0x8000_0000_0000_0000 * w) by (nonlinear_arith)
            requires
                s[0] < 0x8000_0000_0000_0000,
                rest < w,
        ;
    }
}

proof fn lemma_normalized_after_inc(q: nat, s: Seq<u64>, p: nat)
    requires
        s.len() >= 1,
        p == 64 * s.len(),
        pow2((p - 1) as nat) <= q,
        limbs_value(s) == q + 1,
    ensures
        top_bit_set(s[0]),
{
    lemma_top_limb(s, q + 1);
}

// ---------------------------------------------------------------------------
// Multiplication.
// ---------------------------------------------------------------------------

/// `s + a * x` over equal-length limb sequences, with the carry out of the top.
#[verifier::spinoff_prover]
fn limbs_fma(s: &[u64], a: &[u64], x: u64) -> (r: (Vec<u64>, u64))
    requires
        s@.len() == a@.len(),
    ensures
        r.0@.len() == s@.len(),
        limbs_value(r.0@) + r.1 * limbs_weight(s@.len()) == limbs_value(s@) + limbs_value(a@) * x,
{
    let n = s.len();
    let mut out: Vec<u64> = Vec::new();
    let mut k: usize = 0;
    while k < n
        invariant
            k <= n,
            out@.len() == k,
        decreases n - k,
    {
        out.push(0);
        k += 1;
    }
    let mut carry: u64 = 0;
    let mut i: usize = n;
    proof {
        lemma_limbs_weight_step(0);
        lemma2_to64();
        assert(s@.subrange(n as int, n as int) =~= Seq::<u64>::empty());
        assert(a@.subrange(n as int, n as int) =~= Seq::<u64>::empty());
        assert(out@.subrange(n as int, n as int) =~= Seq::<u64>::empty());
        assert(limbs_value(Seq::<u64>::empty()) == 0);
        assert(0 * (x as nat) == 0);
    }
    while i > 0
        invariant
            n == s@.len(),
            n == a@.len(),
            out@.len() == n,
            i <= n,
            limbs_value(out@.subrange(i as int, n as int)) + carry * limbs_weight((n - i) as nat)
                == limbs_value(s@.subrange(i as int, n as int)) + limbs_value(a@.subrange(i as int, n as int)) * x,
        decreases i,
    {
        let t = i - 1;
        let at: u64 = a[t];
        assert((at as u128) * (x as u128) <= 0xFFFF_FFFF_FFFF_FFFE_0000_0000_0000_0001) by (nonlinear_arith)
            requires
                at <= 0xFFFF_FFFF_FFFF_FFFFu64,
                x <= 0xFFFF_FFFF_FFFF_FFFFu64,
        ;
        let prod: u128 = (at as u128) * (x as u128);
        let sum: u128 = prod + (s[t] as u128) + (carry as u128);
        let lo: u64 = (sum % 0x1_0000_0000_0000_0000) as u64;
        let hi: u64 = (sum / 0x1_0000_0000_0000_0000) as u64;
        let ghost old_out = out@;
        out.set(t, lo);
        proof {
            let sa = s@.subrange(t as int, n as int);
            let aa = a@.subrange(t as int, n as int);
            let so = out@.subrange(t as int, n as int);
            lemma_limbs_lead(sa);
            lemma_limbs_lead(aa);
            lemma_limbs_lead(so);
            assert(sa.subrange(1, sa.len() as int) =~= s@.subrange(i as int, n as int));
            assert(aa.subrange(1, aa.len() as int) =~= a@.subrange(i as int, n as int));
            assert(so.subrange(1, so.len() as int) =~= old_out.subrange(i as int, n as int));
            assert(so[0] == lo);
            lemma_limbs_weight_step((n - i) as nat);
            lemma_limb_base();
            let w = limbs_weight((n - i) as nat);
            assert((n - t) as nat == (n - i) as nat + 1);
            let rs = limbs_value(s@.subrange(i as int, n as int));
            let ra = limbs_value(a@.subrange(i as int, n as int));
            let ro = limbs_value(old_out.subrange(i as int, n as int));
            assert(sum == lo + hi * limb_base());
            assert(lo * w + ro + hi * (w * limb_base()) == (s@[t as int] * w + rs) + (a@[t as int] * w + ra) * x) by (nonlinear_arith)
                requires
                    ro + carry * w == rs + ra * x,
                    lo + hi * limb_base() == a@[t as int] * x + s@[t as int] + carry,
            ;
        }
        carry = hi;
        i = t;
    }
    proof {
        assert(out@.subrange(0, n as int) =~= out@);
        assert(s@.subrange(0, n as int) =~= s@);
        assert(a@.subrange(0, n as int) =~= a@);
    }
    (out, carry)
}

/// Leading zero limbs add nothing.
proof fn lemma_zero_prefix(pre: Seq<u64>, a: Seq<u64>)
    requires
        forall|z: int| 0 <= z < pre.len() ==> pre[z] == 0,
    ensures
        limbs_value(pre + a) == limbs_value(a),
{
    lemma_limbs_zero(pre);
    assert(limbs_value(pre) == 0);
    lemma_limbs_concat(pre, a);
    assert(0 * limbs_weight(a.len()) == 0);
}

/// `a * b`, in `a.len() + b.len()` limbs.
pub(crate) fn limbs_mul(a: &[u64], b: &[u64]) -> (r: Vec<u64>)
    requires
        a@.len() + b@.len() <= 0x10_0000,
    ensures
        r@.len() == a@.len() + b@.len(),
        limbs_value(r@) == limbs_value(a@) * limbs_value(b@),
{
    let la = a.len();
    let lb = b.len();
    let n = la + lb;
    // `a` aligned to the low end of `n` limbs
    let mut a_ext: Vec<u64> = Vec::new();
    let mut k: usize = 0;
    while k < n
        invariant
            k <= n == la + lb,
            la == a@.len(),
            a_ext@.len() == k,
            forall|z: int| 0 <= z < k && z < lb ==> a_ext@[z] == 0,
            forall|z: int| 0 <= z < k && z >= lb ==> a_ext@[z] == a@[z - lb],
        decreases n - k,
    {
        if k < lb {
            a_ext.push(0);
        } else {
            a_ext.push(a[k - lb]);
        }
        k += 1;
    }
    let ghost pre = a_ext@.subrange(0, lb as int);
    proof {
        assert(a_ext@ =~= pre + a@);
        assert forall|z: int| 0 <= z < pre.len() implies pre[z] == 0 by {}
        lemma_zero_prefix(pre, a@);
    }
    let mut acc: Vec<u64> = Vec::new();
    let mut k2: usize = 0;
    while k2 < n
        invariant
            k2 <= n,
            acc@.len() == k2,
            forall|z: int| 0 <= z < k2 ==> acc@[z] == 0,
        decreases n - k2,
    {
        acc.push(0);
        k2 += 1;
    }
    proof {
        lemma_limbs_zero(acc@);
        assert(b@.subrange(0, 0) =~= Seq::<u64>::empty());
        assert(limbs_value(Seq::<u64>::empty()) == 0);
        assert(limbs_value(a@) * 0 == 0);
        lemma_limbs_weight_step(0);
        lemma2_to64();
    }
    let mut j: usize = 0;
    while j < lb
        invariant
            j <= lb,
            n == la + lb,
            la == a@.len(),
            lb == b@.len(),
            acc@.len() == n,
            a_ext@.len() == n,
            limbs_value(a_ext@) == limbs_value(a@),
            limbs_value(acc@) == limbs_value(a@) * limbs_value(b@.subrange(0, j as int)),
        decreases lb - j,
    {
        // acc * 2^64, by moving every limb up one place (the top limb is zero)
        let mut shifted: Vec<u64> = Vec::new();
        let mut z: usize = 1;
        while z < n
            invariant
                1 <= z <= n,
                acc@.len() == n,
                shifted@ == acc@.subrange(1, z as int),
            decreases n - z,
        {
            shifted.push(acc[z]);
            z += 1;
            proof {
                assert(shifted@ =~= acc@.subrange(1, z as int));
            }
        }
        shifted.push(0);
        let ghost va = limbs_value(a@);
        let ghost vb = limbs_value(b@.subrange(0, j as int));
        proof {
            lemma_limbs_value_bound(a@);
            lemma_limbs_value_bound(b@.subrange(0, j as int));
            // acc < 2^(64 * (la + j)), so its top limb is zero
            let wa = limbs_weight(la as nat);
            let wj = limbs_weight(j as nat);
            assert(va * vb < wa * wj) by (nonlinear_arith)
                requires
                    va < wa,
                    vb < wj,
                    vb >= 0,
            ;
            lemma_pow2_adds(64 * la as nat, 64 * j as nat);
            assert(64 * la + 64 * j == 64 * (la + j));
            lemma_limbs_lead(acc@);
            let wtop = limbs_weight((n - 1) as nat);
            if acc@[0] > 0 {
                if la + j < n {
                    if la + j < n - 1 {
                        lemma_pow2_strictly_increases(64 * (la + j) as nat, 64 * (n - 1) as nat);
                    }
                    assert(acc@[0] * wtop >= wtop) by (nonlinear_arith)
                        requires
                            acc@[0] >= 1,
                    ;
                }
            }
            assert(acc@[0] == 0);
            let tl = acc@.subrange(1, n as int);
            assert(shifted@ =~= tl.push(0u64));
            assert(tl.push(0u64).drop_last() =~= tl);
            assert(limbs_value(shifted@) == limbs_value(tl) * limb_base());
            assert(limbs_value(acc@) == limbs_value(tl));
        }
        let (next, carry) = limbs_fma(shifted.as_slice(), a_ext.as_slice(), b[j]);
        proof {
            let bj = b@.subrange(0, j + 1);
            assert(bj.drop_last() =~= b@.subrange(0, j as int));
            assert(bj.last() == b@[j as int]);
            assert(limbs_value(bj) == vb * limb_base() + b@[j as int]);
            assert(limbs_value(next@) + carry * limbs_weight(n as nat) == va * vb * limb_base() + va * b@[j as int]);
            assert(va * vb * limb_base() + va * b@[j as int] == va * (vb * limb_base() + b@[j as int])) by (nonlinear_arith);
            // the product so far fits in `la + j + 1 <= n` limbs, so no carry
            lemma_limbs_value_bound(bj);
            lemma_limbs_value_bound(a@);
            let wa = limbs_weight(la as nat);
            let wj1 = limbs_weight((j + 1) as nat);
            assert(va * limbs_value(bj) < wa * wj1) by (nonlinear_arith)
                requires
                    va < wa,
                    limbs_value(bj) < wj1,
            ;
            lemma_pow2_adds(64 * la as nat, 64 * (j + 1) as nat);
            assert(64 * la + 64 * (j + 1) == 64 * (la + j + 1));
            if la + j + 1 < n {
                lemma_pow2_strictly_increases(64 * (la + j + 1) as nat, 64 * n as nat);
            }
            lemma_limbs_value_bound(next@);
            if carry > 0 {
                assert(carry * limbs_weight(n as nat) >= limbs_weight(n as nat)) by (nonlinear_arith)
                    requires
                        carry >= 1,
                ;
            }
            assert(carry == 0);
            let vbj = limbs_value(bj);
            assert(va * vbj == va * (vb * limb_base() + b@[j as int])) by (nonlinear_arith)
                requires
                    vbj == vb * limb_base() + b@[j as int],
            ;
            assert(carry * limbs_weight(n as nat) == 0) by (nonlinear_arith)
                requires
                    carry == 0,
            ;
            assert(limbs_value(next@) + carry * limbs_weight(n as nat) == va * vbj);
            assert(limbs_value(next@) == va * vbj);
        }
        acc = next;
        j += 1;
    }
    proof {
        assert(b@.subrange(0, lb as int) =~= b@);
    }
    acc
}

impl<const N: usize> BigFloat<N> {
    /// `self * other`, correctly rounded to nearest, ties to even; the second
    /// result is 1 when the product was inexact, else 0.
    pub fn mul(&self, other: &Self) -> (r: (Self, u128))
        requires
            self.wf(),
            other.wf(),
            1 <= N <= 0x1_0000,
            self.class == FpClass::Normal && other.class == FpClass::Normal ==> i32::MIN <= self.exp + other.exp
                && self.exp + other.exp + precision(N) + 1 <= i32::MAX,
        ensures
            r.0.wf(),
            self.class == FpClass::NaN || other.class == FpClass::NaN ==> r.0.class == FpClass::NaN && r.1 == 0,
            ((self.class == FpClass::Inf && other.class == FpClass::Zero) || (self.class == FpClass::Zero && other.class == FpClass::Inf))
                ==> r.0.class == FpClass::NaN && r.1 == 0,
            self.class != FpClass::NaN && other.class != FpClass::NaN && (self.class == FpClass::Inf || other.class == FpClass::Inf)
                && self.class != FpClass::Zero && other.class != FpClass::Zero
                ==> r.0.class == FpClass::Inf && r.0.sign == (self.sign != other.sign) && r.1 == 0,
            self.class != FpClass::NaN && other.class != FpClass::NaN && self.class != FpClass::Inf && other.class != FpClass::Inf
                && (self.class == FpClass::Zero || other.class == FpClass::Zero)
                ==> r.0.class == FpClass::Zero && r.0.sign == (self.sign != other.sign) && r.1 == 0,
            self.class == FpClass::Normal && other.class == FpClass::Normal ==> match rne_round(
                self.mant_value() * other.mant_value(),
                self.exp + other.exp,
                false,
                precision(N),
            ) {
                Some((mv, e, inexact)) => r.0.class == FpClass::Normal && r.0.sign == (self.sign != other.sign)
                    && r.0.mant_value() == mv && r.0.exp == e && r.1 == (if inexact { 1u128 } else { 0u128 }),
                None => false,
            },
    {
        let sign = self.sign != other.sign;
        match (self.class, other.class) {
            (FpClass::NaN, _) | (_, FpClass::NaN) => {
                return (Self::make_nan(), 0);
            },
            (FpClass::Inf, FpClass::Zero) | (FpClass::Zero, FpClass::Inf) => {
                return (Self::make_nan(), 0);
            },
            (FpClass::Inf, _) | (_, FpClass::Inf) => {
                return (Self::make_inf(sign), 0);
            },
            (FpClass::Zero, _) | (_, FpClass::Zero) => {
                return (Self::make_zero(sign), 0);
            },
            _ => {},
        }
        let prod = limbs_mul(self.mant.as_slice(), other.mant.as_slice());
        let exp_lsb: i64 = (self.exp as i64) + (other.exp as i64);
        let ghost pv = self.mant_value() * other.mant_value();
        proof {
            lemma_normalized_range(self.mant@);
            lemma_normalized_range(other.mant@);
            let p = precision(N);
            let lo = pow2((p - 1) as nat);
            let hi = pow2(p);
            assert(lo * lo <= pv < hi * hi) by (nonlinear_arith)
                requires
                    lo <= self.mant_value() < hi,
                    lo <= other.mant_value() < hi,
                    pv == self.mant_value() * other.mant_value(),
            ;
            lemma_pow2_adds((p - 1) as nat, (p - 1) as nat);
            lemma_pow2_adds(p, p);
            lemma_bit_len(pv);
            if bit_len(pv) > 2 * p {
                lemma_pow2_strictly_increases(2 * p, (bit_len(pv) - 1) as nat);
            }
            if bit_len(pv) < 2 * p - 1 {
                lemma_pow2_strictly_increases(bit_len(pv), (2 * p - 2) as nat);
            }
        }
        match normalize_round::<N>(prod.as_slice(), exp_lsb, false) {
            None => (Self::make_zero(sign), 0),
            Some((mant, exp, inexact)) => {
                let r = BigFloat { sign, exp: exp as i32, mant, class: FpClass::Normal };
                (r, if inexact { 1 } else { 0 })
            },
        }
    }

    /// `self * n` for a machine integer, correctly rounded to nearest, ties
    /// to even; the second result is 1 when low bits were dropped, else 0.
    pub fn mul_small_int(&self, n: i64) -> (r: (Self, u128))
        requires
            self.wf(),
            1 <= N <= 0x1_0000,
            self.class == FpClass::Normal && n != 0 ==> self.exp + 65 <= i32::MAX,
        ensures
            r.0.wf(),
            n == 0 ==> r.0.class == FpClass::Zero && !r.0.sign && r.1 == 0,
            n != 0 && self.class == FpClass::NaN ==> r.0.class == FpClass::NaN && r.1 == 0,
            n != 0 && self.class == FpClass::Inf ==> r.0.class == FpClass::Inf && r.0.sign == (self.sign != (n < 0)) && r.1 == 0,
            n != 0 && self.class == FpClass::Zero ==> r.0.class == FpClass::Zero && r.0.sign == (self.sign != (n < 0)) && r.1 == 0,
            n != 0 && self.class == FpClass::Normal ==> match rne_round(
                self.mant_value() * (if n < 0 { -n } else { n as int }) as nat,
                self.exp as int,
                false,
                precision(N),
            ) {
                Some((mv, e, inexact)) => r.0.class == FpClass::Normal && r.0.sign == (self.sign != (n < 0))
                    && r.0.mant_value() == mv && r.0.exp == e && r.1 == (if inexact { 1u128 } else { 0u128 }),
                None => false,
            },
    {
        if n == 0 {
            return (Self::make_zero(false), 0);
        }
        let sign = self.sign != (n < 0);
        let mag: u64 = if n < 0 { (0i128 - (n as i128)) as u64 } else { n as u64 };
        match self.class {
            FpClass::NaN => {
                return (Self::make_nan(), 0);
            },
            FpClass::Inf => {
                return (Self::make_inf(sign), 0);
            },
            FpClass::Zero => {
                return (Self::make_zero(sign), 0);
            },
            FpClass::Normal => {},
        }
        let one = [mag];
        let prod = limbs_mul(self.mant.as_slice(), one.as_slice());
        let ghost pv: nat = self.mant_value() * (mag as nat);
        proof {
            assert(one@.drop_last() =~= Seq::<u64>::empty());
            assert(limbs_value(one@.drop_last()) == 0);
            assert(one@.last() == mag);
            assert(limbs_value(one@) == mag);
            lemma_normalized_range(self.mant@);
            let p = precision(N);
            lemma_limb_base();
            lemma_pow2_adds(p, 64);
            assert(pow2((p - 1) as nat) <= pv < pow2(p) * limb_base()) by (nonlinear_arith)
                requires
                    pow2((p - 1) as nat) <= self.mant_value() < pow2(p),
                    1 <= mag < limb_base(),
                    pv == self.mant_value() * mag,
            ;
            lemma_bit_len(pv);
            if bit_len(pv) > p + 64 {
                lemma_pow2_strictly_increases(p + 64, (bit_len(pv) - 1) as nat);
            }
            if bit_len(pv) < p {
                lemma_pow2_strictly_increases(bit_len(pv), (p - 1) as nat);
            }
        }
        match normalize_round::<N>(prod.as_slice(), self.exp as i64, false) {
            None => (Self::make_zero(sign), 0),
            Some((mant, exp, inexact)) => {
                let r = BigFloat { sign, exp: exp as i32, mant, class: FpClass::Normal };
                (r, if inexact { 1 } else { 0 })
            },
        }
    }
}

// ---------------------------------------------------------------------------
// Addition and subtraction.
// ---------------------------------------------------------------------------

/// The guard bits below the larger operand's LSB.
pub open spec fn add_guard() -> nat {
    64
}

/// How the exact aligned sum of two Normals comes out: an exact cancellation,
/// or a magnitude (at weight `2^(big.exp - 64)`) with its sign and a sticky
/// flag for content below the guard.
pub enum AlignedSum {
    Cancel,
    Mag(nat, bool, bool),
}

/// The aligned sum of two Normals, `big` the one with the larger exponent.
pub open spec fn aligned_sum<const N: usize>(big: BigFloat<N>, small: BigFloat<N>) -> AlignedSum {
    let shift = big.exp - small.exp;
    let big_val = big.mant_value() * pow2(add_guard());
    let small_val = if shift <= add_guard() {
        small.mant_value() * pow2((add_guard() - shift) as nat)
    } else {
        small.mant_value() / pow2((shift - add_guard()) as nat)
    };
    let align_sticky = shift > add_guard() && small.mant_value() % pow2((shift - add_guard()) as nat) != 0;
    if big.sign == small.sign {
        AlignedSum::Mag(big_val + small_val, big.sign, align_sticky)
    } else if big_val > small_val {
        AlignedSum::Mag((big_val - small_val - (if align_sticky { 1int } else { 0int })) as nat, big.sign, align_sticky)
    } else if big_val < small_val {
        AlignedSum::Mag((small_val - big_val) as nat, small.sign, false)
    } else if align_sticky {
        AlignedSum::Mag(1, small.sign, true)
    } else {
        AlignedSum::Cancel
    }
}

proof fn lemma_add_bounds(mb: nat, ms: nat, p: nat, shift: int)
    requires
        mb < pow2(p),
        ms < pow2(p),
        shift >= 0,
    ensures
        mb * pow2(64) < pow2(p + 64),
        (if shift <= 64 { ms * pow2((64 - shift) as nat) } else { ms / pow2((shift - 64) as nat) }) < pow2(p + 64),
        mb * pow2(64) + (if shift <= 64 { ms * pow2((64 - shift) as nat) } else { ms / pow2((shift - 64) as nat) })
            < pow2(p + 65),
{
    lemma_pow2_adds(p, 64);
    lemma_pow2_adds(p + 64, 1);
    lemma2_to64();
    lemma_pow2_pos(64);
    let t = pow2(p);
    let g = pow2(64);
    assert(mb * g < t * g) by (nonlinear_arith)
        requires
            mb < t,
            g > 0,
    ;
    if shift <= 64 {
        let c = pow2((64 - shift) as nat);
        lemma_pow2_pos((64 - shift) as nat);
        if 0 < shift {
            lemma_pow2_strictly_increases((64 - shift) as nat, 64);
        }
        assert(ms * c < t * g) by (nonlinear_arith)
            requires
                ms < t,
                0 < c <= g,
        ;
    } else {
        lemma_pow2_pos((shift - 64) as nat);
        vstd::arithmetic::div_mod::lemma_div_is_ordered_by_denominator(ms as int, 1, pow2((shift - 64) as nat) as int);
        lemma_pow2_strictly_increases(p, p + 64);
    }
}

impl<const N: usize> BigFloat<N> {
    /// The operand `add` treats as `big`: the one with the larger exponent
    /// (`self` on a tie).
    pub open spec fn add_big(&self, other: &Self) -> Self {
        if self.exp >= other.exp { *self } else { *other }
    }

    pub open spec fn add_small(&self, other: &Self) -> Self {
        if self.exp >= other.exp { *other } else { *self }
    }

    /// What `self + other` returns, as a relation on the result.
    pub open spec fn add_result(&self, other: &Self, r: (Self, u128)) -> bool {
        let (v, err) = r;
        match (self.class, other.class) {
            (FpClass::NaN, _) | (_, FpClass::NaN) => v.class == FpClass::NaN && err == 0,
            (FpClass::Inf, FpClass::Inf) => err == 0 && if self.sign == other.sign {
                v.class == FpClass::Inf && v.sign == self.sign
            } else {
                v.class == FpClass::NaN
            },
            (FpClass::Inf, _) => v.class == FpClass::Inf && v.sign == self.sign && err == 0,
            (_, FpClass::Inf) => v.class == FpClass::Inf && v.sign == other.sign && err == 0,
            (FpClass::Zero, FpClass::Zero) => v.class == FpClass::Zero && v.sign == (self.sign && other.sign) && err == 0,
            (FpClass::Zero, _) => v == *other && err == 0,
            (_, FpClass::Zero) => v == *self && err == 0,
            _ => match aligned_sum(self.add_big(other), self.add_small(other)) {
                AlignedSum::Cancel => v.class == FpClass::Zero && !v.sign && err == 0,
                AlignedSum::Mag(m, sign, sticky) => match rne_round(
                    m,
                    self.add_big(other).exp - add_guard(),
                    sticky,
                    precision(N),
                ) {
                    None => v.class == FpClass::Zero && !v.sign && err == 0,
                    Some((mv, e, inexact)) => v.class == FpClass::Normal && v.sign == sign && v.mant_value() == mv
                        && v.exp == e && err == (if inexact { 1u128 } else { 0u128 }),
                },
            },
        }
    }

    /// The exponents an addition of two Normals can round to fit an `i32`.
    pub open spec fn add_exps_ok(&self, other: &Self) -> bool {
        let top = if self.exp >= other.exp { self.exp as int } else { other.exp as int };
        self.class == FpClass::Normal && other.class == FpClass::Normal ==> i32::MIN + 64 + precision(N) <= top
            && top + 2 <= i32::MAX
    }

    /// `self` with its sign flipped (NaN kept).
    pub open spec fn negated(&self) -> Self {
        BigFloat { sign: if self.class == FpClass::NaN { self.sign } else { !self.sign }, ..*self }
    }

    /// The exact aligned magnitude of two Normals' sum: its limbs, sign and
    /// sticky flag, or `None` for an exact cancellation.
    #[verifier::spinoff_prover]
    #[verifier::rlimit(40)]
    fn aligned_magnitude(big: &Self, small: &Self) -> (r: Option<(Vec<u64>, bool, bool)>)
        requires
            big.wf(),
            small.wf(),
            big.class == FpClass::Normal,
            small.class == FpClass::Normal,
            big.exp >= small.exp,
            1 <= N <= 0x1_0000,
        ensures
            match aligned_sum(*big, *small) {
                AlignedSum::Cancel => r is None,
                AlignedSum::Mag(m, sg, st) => r matches Some((buf, sign, sticky)) && limbs_value(buf@) == m
                    && sign == sg && sticky == st && buf@.len() <= N + 3,
            },
            r matches Some((buf, _, _)) ==> limbs_value(buf@) < pow2(precision(N) + 65),
    {
        let shift: i64 = (big.exp as i64) - (small.exp as i64);
        let w: usize = N + 3;
        let big_buf = scaled_limbs(big.mant.as_slice(), w, 64);
        let small_buf = scaled_limbs(small.mant.as_slice(), w, 64 - shift);
        let align_sticky: bool = if shift > 64 {
            let low = mask_low(small.mant.as_slice(), (shift - 64) as u64);
            !limbs_is_zero(low.as_slice())
        } else {
            false
        };
        let ghost bv = big.mant_value() * pow2(add_guard());
        let ghost sv = if shift <= 64 {
            small.mant_value() * pow2((64 - shift) as nat)
        } else {
            small.mant_value() / pow2((shift - 64) as nat)
        };
        let ghost p = precision(N);
        proof {
            lemma_normalized_range(big.mant@);
            lemma_normalized_range(small.mant@);
            lemma_add_bounds(big.mant_value(), small.mant_value(), p, shift as int);
            assert(64 * (N + 3) == p + 192);
            lemma_pow2_strictly_increases(p + 65, p + 192);
            lemma_pow2_strictly_increases(p + 64, p + 65);
            vstd::arithmetic::div_mod::lemma_small_mod(bv, limbs_weight((N + 3) as nat));
            vstd::arithmetic::div_mod::lemma_small_mod(sv, limbs_weight((N + 3) as nat));
            assert(limbs_value(big_buf@) == bv);
            assert(limbs_value(small_buf@) == sv);
            assert(align_sticky == (shift > 64 && small.mant_value() % pow2((shift - 64) as nat) != 0));
        }
        let mut result_sign: bool = big.sign;
        let mut extra_sticky: bool = align_sticky;
        let result_buf: Vec<u64>;
        if big.sign == small.sign {
            let (sum, carry) = limbs_fma(big_buf.as_slice(), small_buf.as_slice(), 1);
            proof {
                assert(sv * 1 == sv);
                assert(bv + sv < pow2(p + 65));
                lemma_limbs_value_bound(sum@);
                if carry > 0 {
                    assert(carry * limbs_weight((N + 3) as nat) >= limbs_weight((N + 3) as nat)) by (nonlinear_arith)
                        requires
                            carry >= 1,
                    ;
                }
                assert(carry == 0);
                assert(carry * limbs_weight((N + 3) as nat) == 0) by (nonlinear_arith)
                    requires
                        carry == 0,
                ;
                assert(limbs_value(sum@) == bv + sv);
            }
            result_buf = sum;
        } else if limbs_less(small_buf.as_slice(), big_buf.as_slice()) {
            let diff = limbs_sub(big_buf.as_slice(), small_buf.as_slice());
            assert(limbs_value(diff@) < pow2(p + 65));
            if align_sticky {
                let one = pow2_limbs(w, 0);
                proof {
                    lemma2_to64();
                }
                result_buf = limbs_sub(diff.as_slice(), one.as_slice());
            } else {
                result_buf = diff;
            }
        } else if limbs_less(big_buf.as_slice(), small_buf.as_slice()) {
            result_buf = limbs_sub(small_buf.as_slice(), big_buf.as_slice());
            result_sign = small.sign;
            extra_sticky = false;
        } else if align_sticky {
            let mut one: Vec<u64> = Vec::new();
            one.push(1);
            proof {
                assert(one@.drop_last() =~= Seq::<u64>::empty());
                assert(limbs_value(one@.drop_last()) == 0);
                assert(limbs_value(one@) == 1);
            }
            result_buf = one;
            result_sign = small.sign;
            extra_sticky = true;
        } else {
            return None;
        }
        proof {
            let rv = limbs_value(result_buf@);
            assert(rv < pow2(p + 65));
            lemma_bit_len(rv);
            if bit_len(rv) > p + 65 {
                lemma_pow2_strictly_increases(p + 65, (bit_len(rv) - 1) as nat);
            }
            match aligned_sum(*big, *small) {
                AlignedSum::Mag(m, sg, st) => {
                    assert(m == rv);
                    assert(sg == result_sign);
                    assert(st == extra_sticky);
                },
                AlignedSum::Cancel => {
                    assert(false);
                },
            }
        }
        proof {
            let rv = limbs_value(result_buf@);
            assert(rv < pow2(p + 65));
            match aligned_sum(*big, *small) {
                AlignedSum::Mag(m, sg, st) => {
                    assert(m == rv);
                    assert(sg == result_sign);
                    assert(st == extra_sticky);
                },
                AlignedSum::Cancel => {
                    assert(false);
                },
            }
        }
        Some((result_buf, result_sign, extra_sticky))
    }

    /// `self + other`, rounded to nearest, ties to even, with 64 guard bits
    /// and a sticky bit below them; the second result is 1 when the result is
    /// inexact, else 0. Opposite infinities give NaN; an exact cancellation
    /// gives `+0`.
    pub fn add(&self, other: &Self) -> (r: (Self, u128))
        requires
            self.wf(),
            other.wf(),
            1 <= N <= 0x1_0000,
            self.add_exps_ok(other),
        ensures
            r.0.wf(),
            self.add_result(other, r),
    {
        match (self.class, other.class) {
            (FpClass::NaN, _) | (_, FpClass::NaN) => {
                return (Self::make_nan(), 0);
            },
            (FpClass::Inf, FpClass::Inf) => {
                return if self.sign == other.sign {
                    (Self::make_inf(self.sign), 0)
                } else {
                    (Self::make_nan(), 0)
                };
            },
            (FpClass::Inf, _) => {
                return (Self::make_inf(self.sign), 0);
            },
            (_, FpClass::Inf) => {
                return (Self::make_inf(other.sign), 0);
            },
            (FpClass::Zero, FpClass::Zero) => {
                return (Self::make_zero(self.sign && other.sign), 0);
            },
            (FpClass::Zero, _) => {
                return (*other, 0);
            },
            (_, FpClass::Zero) => {
                return (*self, 0);
            },
            _ => {},
        }
        let (big, small) = if self.exp >= other.exp { (self, other) } else { (other, self) };
        assert(*big == self.add_big(other));
        assert(*small == self.add_small(other));
        let (result_buf, result_sign, extra_sticky) = match Self::aligned_magnitude(big, small) {
            Some(x) => x,
            None => {
                return (Self::make_zero(false), 0);
            },
        };
        let exp_lsb: i64 = (big.exp as i64) - 64;
        proof {
            let rv = limbs_value(result_buf@);
            let p = precision(N);
            lemma_bit_len(rv);
            if bit_len(rv) > p + 65 {
                lemma_pow2_strictly_increases(p + 65, (bit_len(rv) - 1) as nat);
            }
            lemma_bit_len_pos(rv);
        }
        match normalize_round::<N>(result_buf.as_slice(), exp_lsb, extra_sticky) {
            None => (Self::make_zero(false), 0),
            Some((mant, exp, inexact)) => {
                let r = BigFloat { sign: result_sign, exp: exp as i32, mant, class: FpClass::Normal };
                (r, if inexact { 1 } else { 0 })
            },
        }
    }

    /// `self - other`: `self + (-other)`.
    pub fn sub(&self, other: &Self) -> (r: (Self, u128))
        requires
            self.wf(),
            other.wf(),
            1 <= N <= 0x1_0000,
            self.add_exps_ok(other),
        ensures
            r.0.wf(),
            self.add_result(&other.negated(), r),
    {
        let n = other.neg();
        assert(n == other.negated());
        self.add(&n)
    }
}

// ---------------------------------------------------------------------------
// Division.
// ---------------------------------------------------------------------------

/// `2 * v + bit` in the same width (the caller keeps it in range).
fn double_plus(v: &Vec<u64>, bit: u64) -> (r: Vec<u64>)
    requires
        bit <= 1,
        v@.len() >= 1,
        2 * limbs_value(v@) + bit < limbs_weight(v@.len()),
    ensures
        r@.len() == v@.len(),
        limbs_value(r@) == 2 * limbs_value(v@) + bit,
{
    let n = v.len();
    let mut unit: Vec<u64> = Vec::new();
    let mut k: usize = 0;
    while k < n
        invariant
            k <= n,
            n == v@.len(),
            unit@.len() == k,
            forall|z: int| 0 <= z < k ==> unit@[z] == (if z == n - 1 { bit } else { 0u64 }),
        decreases n - k,
    {
        if k + 1 == n {
            unit.push(bit);
        } else {
            unit.push(0);
        }
        k += 1;
    }
    let (twice, c1) = limbs_fma(v.as_slice(), v.as_slice(), 1);
    proof {
        lemma_limbs_split(unit@, 1);
        let hi = unit@.subrange(0, n - 1);
        assert forall|z: int| 0 <= z < hi.len() implies hi[z] == 0 by {}
        lemma_limbs_zero(hi);
        let lo = unit@.subrange(n - 1, n as int);
        assert(lo.drop_last() =~= Seq::<u64>::empty());
        assert(limbs_value(lo.drop_last()) == 0);
        assert(lo.last() == bit);
        assert(limbs_value(lo) == bit);
        assert(limbs_value(unit@) == bit);
        let w = limbs_weight(n as nat);
        assert(limbs_value(v@) * 1 == limbs_value(v@));
        lemma_limbs_value_bound(twice@);
        if c1 > 0 {
            assert(c1 * w >= w) by (nonlinear_arith)
                requires
                    c1 >= 1,
            ;
        }
        assert(c1 * w == 0) by (nonlinear_arith)
            requires
                c1 == 0,
        ;
    }
    let (r, c2) = limbs_fma(twice.as_slice(), unit.as_slice(), 1);
    proof {
        let w = limbs_weight(n as nat);
        assert(limbs_value(unit@) * 1 == bit);
        lemma_limbs_value_bound(r@);
        if c2 > 0 {
            assert(c2 * w >= w) by (nonlinear_arith)
                requires
                    c2 >= 1,
            ;
        }
        assert(c2 * w == 0) by (nonlinear_arith)
            requires
                c2 == 0,
        ;
    }
    r
}

/// `den` widened by one zero limb on top.
pub(crate) fn widen_one(den: &[u64]) -> (r: Vec<u64>)
    ensures
        r@.len() == den@.len() + 1,
        limbs_value(r@) == limbs_value(den@),
{
    let mut r: Vec<u64> = Vec::new();
    r.push(0);
    let mut i: usize = 0;
    while i < den.len()
        invariant
            i <= den@.len(),
            r@ == seq![0u64] + den@.subrange(0, i as int),
        decreases den@.len() - i,
    {
        r.push(den[i]);
        i += 1;
        proof {
            assert(r@ =~= seq![0u64] + den@.subrange(0, i as int));
        }
    }
    proof {
        assert(den@.subrange(0, den@.len() as int) =~= den@);
        lemma_zero_prefix(seq![0u64], den@);
    }
    r
}

/// Restoring long division, one bit at a time: `(q, r)` with
/// `num = q * den + r` and `r < den`.
#[verifier::spinoff_prover]
fn limbs_divmod(num: &[u64], den: &[u64]) -> (r: (Vec<u64>, Vec<u64>))
    requires
        limbs_value(den@) > 0,
        num@.len() >= 1,
        num@.len() + den@.len() <= 0x10_0000,
    ensures
        limbs_value(r.0@) * limbs_value(den@) + limbs_value(r.1@) == limbs_value(num@),
        limbs_value(r.1@) < limbs_value(den@),
        r.0@.len() == num@.len(),
{
    let ln = num.len();
    let ld = den.len();
    let ghost v = limbs_value(num@);
    let ghost dv = limbs_value(den@);
    let den_w = widen_one(den);
    let mut q: Vec<u64> = Vec::new();
    let mut k: usize = 0;
    while k < ln
        invariant
            k <= ln,
            q@.len() == k,
            forall|z: int| 0 <= z < k ==> q@[z] == 0,
        decreases ln - k,
    {
        q.push(0);
        k += 1;
    }
    let ld1: usize = ld + 1;
    let mut rem: Vec<u64> = Vec::new();
    let mut k2: usize = 0;
    while k2 < ld1
        invariant
            k2 <= ld1,
            rem@.len() == k2,
            forall|z: int| 0 <= z < k2 ==> rem@[z] == 0,
        decreases ld1 - k2,
    {
        rem.push(0);
        k2 += 1;
    }
    let nbits: u64 = 64 * (ln as u64);
    proof {
        lemma_limbs_zero(q@);
        lemma_limbs_zero(rem@);
        lemma_limbs_value_bound(num@);
        lemma_pow2_pos(nbits as nat);
        assert(limbs_weight(ln as nat) == pow2(nbits as nat));
        vstd::arithmetic::div_mod::lemma_basic_div(v as int, pow2(nbits as nat) as int);
        assert(limbs_value(q@) * dv == 0) by (nonlinear_arith)
            requires
                limbs_value(q@) == 0,
        ;
    }
    let mut i: u64 = nbits;
    while i > 0
        invariant
            i <= nbits == 64 * ln,
            ln == num@.len(),
            ld == den@.len(),
            ln + ld <= 0x10_0000,
            v == limbs_value(num@),
            dv == limbs_value(den@),
            dv > 0,
            q@.len() == ln,
            rem@.len() == ld + 1,
            den_w@.len() == ld + 1,
            limbs_value(den_w@) == dv,
            limbs_value(q@) * dv + limbs_value(rem@) == v / pow2(i as nat),
            limbs_value(rem@) < dv,
        decreases i,
    {
        let t = i - 1;
        let bit: u64 = window64(num, t) % 2;
        let ghost qv = limbs_value(q@);
        let ghost rv = limbs_value(rem@);
        proof {
            // v / 2^t == 2 * (v / 2^i) + bit
            let x = v / pow2(t as nat);
            lemma2_to64();
            lemma_pow2_adds(1, 63);
            lemma_limb_base();
            vstd::arithmetic::div_mod::lemma_mod_mod(x as int, 2, pow2(63) as int);
            assert(bit == x % 2);
            lemma_pow2_adds(t as nat, 1);
            lemma_pow2_pos(t as nat);
            vstd::arithmetic::div_mod::lemma_div_denominator(v as int, pow2(t as nat) as int, 2);
            assert(pow2(i as nat) == pow2(t as nat) * 2);
            lemma_fundamental_div_mod(x as int, 2);
            // widths: 2 * rem + 1 < 2 * den <= 2^(64 ld + 1) < 2^(64 (ld + 1))
            lemma_limbs_value_bound(den@);
            lemma_limbs_weight_step(ld as nat);
            assert(2 * rv + bit < limbs_weight((ld + 1) as nat)) by (nonlinear_arith)
                requires
                    rv < dv,
                    dv < limbs_weight(ld as nat),
                    bit <= 1,
                    limbs_weight((ld + 1) as nat) == limbs_weight(ld as nat) * limb_base(),
                    limb_base() == 0x1_0000_0000_0000_0000,
            ;
            // the quotient so far stays below 2^(64 ln)
            lemma_limbs_value_bound(num@);
            vstd::arithmetic::div_mod::lemma_div_is_ordered_by_denominator(v as int, 1, pow2(t as nat) as int);
            assert(x < limbs_weight(ln as nat));
            assert(x == 2 * (qv * dv + rv) + bit);
        }
        let rem2 = double_plus(&rem, bit);
        let ge = !limbs_less(rem2.as_slice(), den_w.as_slice());
        if ge {
            let rem3 = limbs_sub(rem2.as_slice(), den_w.as_slice());
            proof {
                let x = v / pow2(t as nat);
                assert(2 * qv + 1 <= x) by (nonlinear_arith)
                    requires
                        x == 2 * (qv * dv + rv) + bit,
                        2 * rv + bit >= dv,
                        dv >= 1,
                        qv >= 0,
                        rv >= 0,
                ;
            }
            let q2 = double_plus(&q, 1);
            proof {
                let x = v / pow2(t as nat);
                assert((2 * qv + 1) * dv + (2 * rv + bit - dv) == 2 * (qv * dv + rv) + bit) by (nonlinear_arith);
                assert(x == 2 * (qv * dv + rv) + bit);
            }
            rem = rem3;
            q = q2;
        } else {
            proof {
                let x = v / pow2(t as nat);
                assert(2 * qv <= x) by (nonlinear_arith)
                    requires
                        x == 2 * (qv * dv + rv) + bit,
                        dv >= 1,
                        qv >= 0,
                        rv >= 0,
                        bit >= 0,
                ;
            }
            let q2 = double_plus(&q, 0);
            proof {
                let x = v / pow2(t as nat);
                assert((2 * qv) * dv + (2 * rv + bit) == 2 * (qv * dv + rv) + bit) by (nonlinear_arith);
                assert(x == 2 * (qv * dv + rv) + bit);
            }
            rem = rem2;
            q = q2;
        }
        i = t;
    }
    proof {
        lemma2_to64();
        assert(v / 1 == v);
    }
    (q, rem)
}

impl<const N: usize> BigFloat<N> {
    /// `self / d`, correctly rounded to nearest, ties to even, by long
    /// division; the second result is 1 when the quotient was inexact, else 0.
    #[verifier::spinoff_prover]
    pub fn div(&self, d: &Self) -> (r: (Self, u128))
        requires
            self.wf(),
            d.wf(),
            1 <= N <= 0x1_0000,
            self.class == FpClass::Normal && d.class == FpClass::Normal ==> i32::MIN <= self.exp - d.exp
                - precision(N) - 1 && self.exp - d.exp <= i32::MAX,
        ensures
            r.0.wf(),
            self.class == FpClass::NaN || d.class == FpClass::NaN ==> r.0.class == FpClass::NaN && r.1 == 0,
            (self.class == FpClass::Inf && d.class == FpClass::Inf) || (self.class == FpClass::Zero && d.class
                == FpClass::Zero) ==> r.0.class == FpClass::NaN && r.1 == 0,
            self.class == FpClass::Inf && d.class != FpClass::NaN && d.class != FpClass::Inf ==> r.0.class
                == FpClass::Inf && r.0.sign == (self.sign != d.sign) && r.1 == 0,
            self.class != FpClass::NaN && self.class != FpClass::Inf && d.class == FpClass::Inf ==> r.0.class
                == FpClass::Zero && r.0.sign == (self.sign != d.sign) && r.1 == 0,
            self.class == FpClass::Zero && d.class != FpClass::NaN && d.class != FpClass::Inf && d.class
                != FpClass::Zero ==> r.0.class == FpClass::Zero && r.0.sign == (self.sign != d.sign) && r.1 == 0,
            self.class == FpClass::Normal && d.class == FpClass::Zero ==> r.0.class == FpClass::Inf && r.0.sign
                == (self.sign != d.sign) && r.1 == 0,
            self.class == FpClass::Normal && d.class == FpClass::Normal ==> match rne_round(
                (self.mant_value() * pow2(precision(N) + 1)) / d.mant_value(),
                self.exp - d.exp - precision(N) - 1,
                (self.mant_value() * pow2(precision(N) + 1)) % d.mant_value() != 0,
                precision(N),
            ) {
                Some((mv, e, inexact)) => r.0.class == FpClass::Normal && r.0.sign == (self.sign != d.sign)
                    && r.0.mant_value() == mv && r.0.exp == e && r.1 == (if inexact { 1u128 } else { 0u128 }),
                None => false,
            },
    {
        let sign = self.sign != d.sign;
        match (self.class, d.class) {
            (FpClass::NaN, _) | (_, FpClass::NaN) => {
                return (Self::make_nan(), 0);
            },
            (FpClass::Inf, FpClass::Inf) | (FpClass::Zero, FpClass::Zero) => {
                return (Self::make_nan(), 0);
            },
            (FpClass::Inf, _) => {
                return (Self::make_inf(sign), 0);
            },
            (_, FpClass::Inf) => {
                return (Self::make_zero(sign), 0);
            },
            (FpClass::Zero, _) => {
                return (Self::make_zero(sign), 0);
            },
            (_, FpClass::Zero) => {
                return (Self::make_inf(sign), 0);
            },
            _ => {},
        }
        let p1: i64 = 64 * (N as i64) + 1;
        let num = scaled_limbs(self.mant.as_slice(), 2 * N + 2, p1);
        let ghost p = precision(N);
        let ghost pm = (p - 1) as nat;
        let ghost ms = self.mant_value();
        let ghost md = d.mant_value();
        let ghost x = ms * pow2(p + 1);
        proof {
            lemma_normalized_range(self.mant@);
            lemma_normalized_range(d.mant@);
            lemma_pow2_adds(p, p + 1);
            lemma_pow2_pos(p + 1);
            assert(x < pow2(p + p + 1)) by (nonlinear_arith)
                requires
                    ms < pow2(p),
                    x == ms * pow2(p + 1),
                    pow2(p + p + 1) == pow2(p) * pow2(p + 1),
                    pow2(p + 1) > 0,
            ;
            lemma_pow2_strictly_increases(p + p + 1, 64 * (2 * N + 2) as nat);
            assert(limbs_weight((2 * N + 2) as nat) == pow2(64 * (2 * N + 2) as nat));
            vstd::arithmetic::div_mod::lemma_small_mod(x, limbs_weight((2 * N + 2) as nat));
            assert(limbs_value(num@) == x);
        }
        proof {
            lemma_pow2_pos(pm);
            lemma_pow2_pos(p);
            assert(md > 0);
        }
        let (q0, rem) = limbs_divmod(num.as_slice(), d.mant.as_slice());
        let exp_lsb: i64 = (self.exp as i64) - (d.exp as i64) - p1;
        let extra_sticky = !limbs_is_zero(rem.as_slice());
        proof {
            let q = limbs_value(q0@);
            vstd::arithmetic::div_mod::lemma_fundamental_div_mod(x as int, md as int);
            vstd::arithmetic::div_mod::lemma_mod_bound(x as int, md as int);
            vstd::arithmetic::div_mod::lemma_div_pos_is_pos(x as int, md as int);
            // x == q * md + rem, 0 <= rem < md, so q == x / md
            vstd::arithmetic::div_mod::lemma_fundamental_div_mod_converse(x as int, md as int, q as int,
                limbs_value(rem@) as int);
            lemma_pow2_adds(pm, 2);
            lemma_pow2_adds(pm, p + 1);
            lemma_pow2_adds(pm, p + 2);
            lemma_pow2_adds(p, p);
            lemma_pow2_adds(p, 2);
            lemma2_to64();
            // 2^p <= q < 2^(p + 2)
            assert(x >= pow2(pm) * pow2(p + 1)) by (nonlinear_arith)
                requires
                    x == ms * pow2(p + 1),
                    ms >= pow2(pm),
            ;
            let a = pow2(p);
            let rv = limbs_value(rem@);
            if q < a {
                assert((q + 1) * md <= a * md) by (nonlinear_arith)
                    requires
                        q + 1 <= a,
                        md >= 0,
                ;
                assert(a * md < a * a) by (nonlinear_arith)
                    requires
                        md < a,
                        a > 0,
                ;
                assert((q + 1) * md == q * md + md) by (nonlinear_arith);
                assert(false);
            }
            assert(q < pow2(p + 2)) by (nonlinear_arith)
                requires
                    x == q * md + limbs_value(rem@),
                    md >= pow2(pm),
                    x < pow2(p) * pow2(p + 1),
                    pow2(p) * pow2(p + 1) == pow2(pm) * pow2(p + 2),
                    pow2(pm) > 0,
            {
                if q >= pow2(p + 2) {
                    assert(q * md >= pow2(p + 2) * pow2(pm));
                }
            }
            lemma_bit_len(q);
            if bit_len(q) > p + 2 {
                lemma_pow2_strictly_increases(p + 2, (bit_len(q) - 1) as nat);
            }
            if bit_len(q) < p + 1 {
                lemma_pow2_strictly_increases(bit_len(q), p);
            }
        }
        match normalize_round::<N>(q0.as_slice(), exp_lsb, extra_sticky) {
            None => (Self::make_zero(sign), 0),
            Some((mant, exp, inexact)) => {
                let r = BigFloat { sign, exp: exp as i32, mant, class: FpClass::Normal };
                (r, if inexact { 1 } else { 0 })
            },
        }
    }
}

impl<const N: usize> BigFloat<N> {
    /// `self / n` for a machine divisor, correctly rounded to nearest, ties
    /// to even; the second result is 1 when the quotient was inexact, else 0.
    #[verifier::spinoff_prover]
    pub fn div_small(&self, n: u64) -> (r: (Self, u128))
        requires
            self.wf(),
            1 <= N <= 0x1_0000,
            self.class == FpClass::Normal && n >= 2 ==> i32::MIN <= self.exp - 65,
        ensures
            r.0.wf(),
            self.class == FpClass::NaN ==> r.0.class == FpClass::NaN && r.1 == 0,
            self.class == FpClass::Inf ==> r.0.class == FpClass::Inf && r.0.sign == self.sign && r.1 == 0,
            self.class == FpClass::Zero && n == 0 ==> r.0.class == FpClass::NaN && r.1 == 0,
            self.class == FpClass::Zero && n != 0 ==> r.0.class == FpClass::Zero && r.0.sign == self.sign && r.1
                == 0,
            self.class == FpClass::Normal && n == 0 ==> r.0.class == FpClass::Inf && r.0.sign == self.sign && r.1
                == 0,
            self.class == FpClass::Normal && n == 1 ==> r.0 == *self && r.1 == 0,
            self.class == FpClass::Normal && n >= 2 ==> match rne_round(
                (self.mant_value() * pow2(65)) / (n as nat),
                self.exp - 65,
                (self.mant_value() * pow2(65)) % (n as nat) != 0,
                precision(N),
            ) {
                Some((mv, e, inexact)) => r.0.class == FpClass::Normal && r.0.sign == self.sign && r.0.mant_value()
                    == mv && r.0.exp == e && r.1 == (if inexact { 1u128 } else { 0u128 }),
                None => false,
            },
    {
        match self.class {
            FpClass::NaN => {
                return (Self::make_nan(), 0);
            },
            FpClass::Inf => {
                return (Self::make_inf(self.sign), 0);
            },
            FpClass::Zero => {
                if n == 0 {
                    return (Self::make_nan(), 0);
                } else {
                    return (Self::make_zero(self.sign), 0);
                }
            },
            FpClass::Normal => {},
        }
        if n == 0 {
            return (Self::make_inf(self.sign), 0);
        }
        if n == 1 {
            return (*self, 0);
        }
        let num = scaled_limbs(self.mant.as_slice(), N + 2, 65);
        let mut den: Vec<u64> = Vec::new();
        den.push(n);
        let ghost p = precision(N);
        let ghost pm = (p - 1) as nat;
        let ghost ms = self.mant_value();
        let ghost x = ms * pow2(65);
        proof {
            lemma_normalized_range(self.mant@);
            lemma_pow2_adds(p, 65);
            lemma_pow2_pos(65);
            assert(x < pow2(p + 65)) by (nonlinear_arith)
                requires
                    ms < pow2(p),
                    x == ms * pow2(65),
                    pow2(p + 65) == pow2(p) * pow2(65),
                    pow2(65) > 0,
            ;
            lemma_pow2_strictly_increases(p + 65, 64 * (N + 2) as nat);
            assert(limbs_weight((N + 2) as nat) == pow2(64 * (N + 2) as nat));
            vstd::arithmetic::div_mod::lemma_small_mod(x, limbs_weight((N + 2) as nat));
            assert(limbs_value(num@) == x);
            assert(den@.drop_last() =~= Seq::<u64>::empty());
            assert(limbs_value(den@.drop_last()) == 0);
            assert(limbs_value(den@) == n);
        }
        let (q0, rem) = limbs_divmod(num.as_slice(), den.as_slice());
        let exp_lsb: i64 = (self.exp as i64) - 65;
        let extra_sticky = !limbs_is_zero(rem.as_slice());
        proof {
            let q = limbs_value(q0@);
            let nn = n as nat;
            let rv = limbs_value(rem@);
            vstd::arithmetic::div_mod::lemma_fundamental_div_mod_converse(x as int, nn as int, q as int, rv as int);
            lemma_pow2_adds(pm, 65);
            lemma_pow2_adds(p, 64);
            lemma_pow2_adds(1, 64);
            lemma2_to64();
            lemma_limb_base();
            // 2^p <= q < 2^(p + 64)
            assert(x >= pow2(pm) * pow2(65)) by (nonlinear_arith)
                requires
                    x == ms * pow2(65),
                    ms >= pow2(pm),
            ;
            assert(pow2(pm) * pow2(65) == pow2(p) * pow2(64));
            let a = pow2(p);
            let b = pow2(64);
            if q < a {
                assert((q + 1) * nn <= a * nn) by (nonlinear_arith)
                    requires
                        q + 1 <= a,
                ;
                assert(a * nn < a * b) by (nonlinear_arith)
                    requires
                        nn < b,
                        a > 0,
                ;
                assert((q + 1) * nn == q * nn + nn) by (nonlinear_arith);
                assert(false);
            }
            if q >= pow2(p + 64) {
                assert(q * nn >= pow2(p + 64) * 2) by (nonlinear_arith)
                    requires
                        q >= pow2(p + 64),
                        nn >= 2,
                ;
                lemma_pow2_adds(p + 64, 1);
                assert(false);
            }
            lemma_bit_len(q);
            if bit_len(q) > p + 64 {
                lemma_pow2_strictly_increases(p + 64, (bit_len(q) - 1) as nat);
            }
            if bit_len(q) < p + 1 {
                lemma_pow2_strictly_increases(bit_len(q), p);
            }
        }
        match normalize_round::<N>(q0.as_slice(), exp_lsb, extra_sticky) {
            None => (Self::make_zero(self.sign), 0),
            Some((mant, exp, inexact)) => {
                let r = BigFloat { sign: self.sign, exp: exp as i32, mant, class: FpClass::Normal };
                (r, if inexact { 1 } else { 0 })
            },
        }
    }
}

// ---------------------------------------------------------------------------
// Escalation.
// ---------------------------------------------------------------------------

/// A value that can be evaluated afresh at any working width `N` (from its
/// exact input, not by widening an inexact narrower result), with a bound on
/// its error in ULPs of the returned value.
pub trait Atom {
    /// The evaluation at width `N`: a function of the atom's exact input and
    /// the width alone.
    spec fn eval_spec<const N: usize>(&self) -> Evaluated<N>;

    fn eval<const N: usize>(&self) -> (r: Evaluated<N>)
        ensures
            r == self.eval_spec::<N>(),
    ;
}

/// The rounding of an evaluation at width `N` to binary64 (`to_f64`) or
/// binary32, as [`round_to_f64`] and [`round_to_f32`] give it.
pub open spec fn rounded_spec<const N: usize>(ev: Evaluated<N>, to_f64: bool) -> RoundResult {
    let f = if to_f64 { fmt_f64() } else { fmt_f32() };
    if ev.val.class == FpClass::Normal {
        RoundResult {
            bits: rounded_bits(f, ev.val.sign, ev.val.mant_value(), ev.val.ebin_spec(), precision(N)) as u64,
            decided: round_decided(f, ev.val.mant_value(), ev.val.ebin_spec(), precision(N), ev.err_ulps as nat),
            eval_precision: EvalPrecision::WiderThanCompute,
            cert: Certificate {
                hardness_margin_bits: round_margin(f, ev.val.mant_value(), ev.val.ebin_spec(), precision(N)) as u32,
                stabilized_precision_bits: precision(N) as u32,
            },
        }
    } else {
        RoundResult {
            bits: special_encoding(f, ev.val.class, ev.val.sign) as u64,
            decided: true,
            eval_precision: EvalPrecision::WiderThanCompute,
            cert: Certificate { hardness_margin_bits: 0, stabilized_precision_bits: precision(N) as u32 },
        }
    }
}

/// An evaluation the rounding accepts: it keeps the representation invariant
/// and its most-significant-bit exponent fits an `i32`.
pub open spec fn evaluation_ok<const N: usize>(ev: Evaluated<N>) -> bool {
    ev.val.wf() && (ev.val.class == FpClass::Normal ==> ev.val.ebin_spec() <= i32::MAX)
}

/// What one width contributes to the escalation: the rounding of its
/// evaluation when that is acceptable and decided, else nothing.
pub open spec fn width_decision<const N: usize>(ev: Evaluated<N>, to_f64: bool) -> Option<RoundResult> {
    if evaluation_ok(ev) && rounded_spec(ev, to_f64).decided {
        Some(rounded_spec(ev, to_f64))
    } else {
        None
    }
}

/// The first width that decides, in the order given.
pub open spec fn first_decided(a: Option<RoundResult>, b: Option<RoundResult>, c: Option<RoundResult>) -> Option<
    RoundResult,
> {
    if a is Some {
        a
    } else if b is Some {
        b
    } else {
        c
    }
}

/// Rounds an evaluation at width `N` to binary64 (`to_f64`) or binary32;
/// `Some` exactly when the evaluation is acceptable and the rounding decided.
pub fn decide_at_width<const N: usize>(ev: &Evaluated<N>, to_f64: bool) -> (r: Option<RoundResult>)
    requires
        1 <= N <= 16,
    ensures
        r == width_decision(*ev, to_f64),
{
    if !ev.val.check_invariant() {
        return None;
    }
    if ev.val.class == FpClass::Normal && (ev.val.exp as i64) + 64 * (N as i64) - 1 > i32::MAX as i64 {
        return None;
    }
    let r = if to_f64 { round_to_f64(ev) } else { round_to_f32(ev) };
    proof {
        assert(r == rounded_spec(*ev, to_f64));
    }
    if r.decided {
        Some(r)
    } else {
        None
    }
}

/// Evaluates `atom` at width `N` and rounds it to binary64 (`to_f64`) or
/// binary32: the decision of [`decide_at_width`] on the evaluation it got.
fn try_width<const N: usize, A: Atom>(atom: &A, to_f64: bool) -> (r: Option<RoundResult>)
    requires
        1 <= N <= 16,
    ensures
        r == width_decision(atom.eval_spec::<N>(), to_f64),
{
    let ev = atom.eval::<N>();
    decide_at_width(&ev, to_f64)
}

/// The escalation: 256, then 512, then 1024 bits, the first width whose
/// evaluation decides the rounding; `None` when none does.
fn round_atom<A: Atom>(atom: &A, to_f64: bool) -> (r: Option<RoundResult>)
    ensures
        r == first_decided(
            width_decision(atom.eval_spec::<4>(), to_f64),
            width_decision(atom.eval_spec::<8>(), to_f64),
            width_decision(atom.eval_spec::<16>(), to_f64),
        ),
{
    let r4 = try_width::<4, A>(atom, to_f64);
    if r4.is_some() {
        return r4;
    }
    let r8 = try_width::<8, A>(atom, to_f64);
    if r8.is_some() {
        return r8;
    }
    try_width::<16, A>(atom, to_f64)
}

/// Rounds `atom` to binary64: the first of its 256-, 512- and 1024-bit
/// evaluations whose rounding decides; `None` when 1024 bits do not decide it.
pub fn round_atom_to_f64<A: Atom>(atom: &A) -> (r: Option<RoundResult>)
    ensures
        r == first_decided(
            width_decision(atom.eval_spec::<4>(), true),
            width_decision(atom.eval_spec::<8>(), true),
            width_decision(atom.eval_spec::<16>(), true),
        ),
        r matches Some(rr) ==> rr.decided && rr.eval_precision == EvalPrecision::WiderThanCompute && (
        rr.cert.stabilized_precision_bits == 256 || rr.cert.stabilized_precision_bits == 512
            || rr.cert.stabilized_precision_bits == 1024),
{
    round_atom(atom, true)
}

/// Rounds `atom` directly to binary32 (one rounding), escalating as
/// [`round_atom_to_f64`] does.
pub fn round_atom_to_f32<A: Atom>(atom: &A) -> (r: Option<RoundResult>)
    ensures
        r == first_decided(
            width_decision(atom.eval_spec::<4>(), false),
            width_decision(atom.eval_spec::<8>(), false),
            width_decision(atom.eval_spec::<16>(), false),
        ),
        r matches Some(rr) ==> rr.decided && rr.eval_precision == EvalPrecision::WiderThanCompute && (
        rr.cert.stabilized_precision_bits == 256 || rr.cert.stabilized_precision_bits == 512
            || rr.cert.stabilized_precision_bits == 1024),
{
    round_atom(atom, false)
}

/// An integer-valued float rounds to its integer exactly: for `x.is_int(k)`
/// with `k` an `i64` above `i64::MIN` (what `from_i64(k)` gives), the exponent is negative
/// and the rounding in [`BigFloat::round_to_i64`]'s contract is `|k|`, so
/// `round_to_i64` returns `k`.
pub proof fn round_to_i64_of_integer<const N: usize>(x: BigFloat<N>, k: int)
    requires
        N >= 1,
        x.wf(),
        x.is_int(k),
        i64::MIN < k <= i64::MAX,
    ensures
        x.exp < 0,
        rne_quotient(x.mant_value(), (-x.exp) as nat) == (if k < 0 { -k } else { k }),
{
    assert(x.exp < 0) by {
        if x.exp == 0 {
            lemma_normalized_range(x.mant@);
            assert(x.mant@.len() == N);
            vstd::arithmetic::power2::lemma2_to64_rest();
            lemma2_to64();
            assert(pow2(0) == 1);
            assert(x.mant_value() == (if k < 0 { -k } else { k }) * 1);
            assert(x.mant_value() < 0x8000_0000_0000_0000);
            if N > 1 {
                lemma_pow2_strictly_increases(64, (64 * N - 1) as nat);
            }
            assert(pow2((64 * N - 1) as nat) >= pow2(63));
            assert(x.mant_value() >= 0x8000_0000_0000_0000);
        }
    }
    let s = (-x.exp) as nat;
    let a: nat = (if k < 0 { -k } else { k }) as nat;
    let h = pow2((s - 1) as nat);
    let m = x.mant_value();
    lemma_pow2_pos((s - 1) as nat);
    lemma_pow2_pos(s);
    lemma_pow2_adds((s - 1) as nat, 1);
    lemma2_to64();
    assert(pow2(s) == h * 2);
    assert(m == pow2(s) * a) by (nonlinear_arith)
        requires
            m == a * pow2(s),
    ;
    assert(m == h * (2 * a)) by (nonlinear_arith)
        requires
            m == pow2(s) * a,
            pow2(s) == h * 2,
    ;
    vstd::arithmetic::div_mod::lemma_div_multiples_vanish(a as int, pow2(s) as int);
    vstd::arithmetic::div_mod::lemma_div_multiples_vanish((2 * a) as int, h as int);
    vstd::arithmetic::div_mod::lemma_mod_multiples_basic(a as int, 2);
    vstd::arithmetic::div_mod::lemma_mod_multiples_basic((2 * a) as int, h as int);
    assert(m % h == 0) by (nonlinear_arith)
        requires
            m == h * (2 * a),
            (((2 * a) as int) * (h as int)) % (h as int) == 0,
    ;
    assert((2 * a) % 2 == 0) by (nonlinear_arith)
        requires
            (a * 2) % 2 == 0,
    ;
}

/// The magnitude of an integer-valued Normal at a lower exponent.
proof fn lemma_int_scaled<const N: usize>(x: BigFloat<N>, a: int, base: int)
    requires
        x.is_int(a),
        base <= x.exp,
    ensures
        scaled(x.mant_value(), x.exp as int, base) == (if a < 0 { -a } else { a }) * pow2((-base) as nat),
{
    let aa: nat = (if a < 0 { -a } else { a }) as nat;
    lemma_pow2_adds((-x.exp) as nat, (x.exp - base) as nat);
    assert(scaled(x.mant_value(), x.exp as int, base) == (aa * pow2((-x.exp) as nat)) * pow2((x.exp - base) as nat));
    assert((aa * pow2((-x.exp) as nat)) * pow2((x.exp - base) as nat) == aa * (pow2((-x.exp) as nat) * pow2(
        (x.exp - base) as nat,
    ))) by (nonlinear_arith);
}

/// On integer values the order is the integers' order: for `x` and `y`
/// holding the integers `a` and `b` (as `from_i64` makes them, zero as `+0`),
/// the comparison of `x` with `y` is that of `a` with `b`.
pub proof fn order_of_integers<const N: usize>(x: BigFloat<N>, y: BigFloat<N>, a: int, b: int)
    requires
        x.wf(),
        y.wf(),
        x.is_int(a) || (a == 0 && x.class == FpClass::Zero),
        y.is_int(b) || (b == 0 && y.class == FpClass::Zero),
    ensures
        x.value_order(&y) == sign3(a - b),
{
    if x.class == FpClass::Normal {
        lemma_normalized_range(x.mant@);
        lemma_pow2_pos((64 * x.mant@.len() - 1) as nat);
        if a == 0 {
            assert(0 * pow2((-x.exp) as nat) == 0);
            assert(x.mant_value() == 0);
        }
    }
    if y.class == FpClass::Normal {
        lemma_normalized_range(y.mant@);
        lemma_pow2_pos((64 * y.mant@.len() - 1) as nat);
        if b == 0 {
            assert(0 * pow2((-y.exp) as nat) == 0);
            assert(y.mant_value() == 0);
        }
    }
    if x.class == FpClass::Normal && y.class == FpClass::Normal && x.signum() == y.signum() {
        let base: int = if x.exp <= y.exp { x.exp as int } else { y.exp as int };
        lemma_int_scaled(x, a, base);
        lemma_int_scaled(y, b, base);
        let aa: int = if a < 0 { -a } else { a };
        let bb: int = if b < 0 { -b } else { b };
        let pw = pow2((-base) as nat);
        lemma_pow2_pos((-base) as nat);
        assert(sign3(aa * pw - bb * pw) == sign3(aa - bb)) by (nonlinear_arith)
            requires
                pw > 0,
        {
            assert(aa * pw - bb * pw == (aa - bb) * pw);
            if aa - bb > 0 {
                assert((aa - bb) * pw > 0);
            } else if aa - bb < 0 {
                assert((aa - bb) * pw < 0);
            }
        }
    }
}

/// Addition commutes: what `x + y` may return is exactly what `y + x` may
/// return (the operands' order picks neither the rounding nor the sign of
/// a zero).
pub proof fn add_commutes<const N: usize>(x: BigFloat<N>, y: BigFloat<N>, r: (BigFloat<N>, u128))
    ensures
        x.add_result(&y, r) == y.add_result(&x, r),
{
    if x.class == FpClass::Normal && y.class == FpClass::Normal && x.exp == y.exp {
        assert(aligned_sum(x, y) == aligned_sum(y, x));
    }
}

/// `x < y` wherever `2^x < 2^y`.
proof fn lemma_pow2_lt_exp(x: nat, y: nat)
    requires
        pow2(x) < pow2(y),
    ensures
        x < y,
{
    if x > y {
        lemma_pow2_strictly_increases(y, x);
    }
}

/// Dividing `m * 2^t` by `2^j`, for `j <= t`, is exact.
proof fn lemma_shift_down(m: nat, t: nat, j: nat)
    requires
        j <= t,
    ensures
        (m * pow2(t)) / pow2(j) == m * pow2((t - j) as nat),
        (m * pow2(t)) % pow2(j) == 0,
{
    let k = (t - j) as nat;
    lemma_pow2_adds(k, j);
    assert(k + j == t);
    lemma_pow2_pos(j);
    let q = m * pow2(k);
    assert(m * pow2(t) == q * pow2(j)) by (nonlinear_arith)
        requires
            q == m * pow2(k),
            pow2(t) == pow2(k) * pow2(j),
    ;
    vstd::arithmetic::div_mod::lemma_div_by_multiple(q as int, pow2(j) as int);
    vstd::arithmetic::div_mod::lemma_mod_multiples_basic(q as int, pow2(j) as int);
}

/// Shifting left by `t` adds `t` to the bit length.
proof fn lemma_bit_len_shift(m: nat, t: nat)
    requires
        m > 0,
    ensures
        bit_len(m * pow2(t)) == bit_len(m) + t,
{
    lemma_bit_len(m);
    let l = bit_len(m);
    let lm1: nat = (l - 1) as nat;
    lemma_pow2_adds(l, t);
    lemma_pow2_adds(lm1, t);
    lemma_pow2_pos(t);
    assert(m * pow2(t) > 0) by (nonlinear_arith)
        requires
            m > 0,
            pow2(t) > 0,
    ;
    assert(m * pow2(t) < pow2(l + t)) by (nonlinear_arith)
        requires
            m < pow2(l),
            pow2(l + t) == pow2(l) * pow2(t),
            pow2(t) > 0,
    ;
    assert(pow2(lm1 + t) <= m * pow2(t)) by (nonlinear_arith)
        requires
            pow2(lm1) <= m,
            pow2(lm1 + t) == pow2(lm1) * pow2(t),
            pow2(t) > 0,
    ;
    assert(lm1 + t == ((l + t) - 1) as nat);
    lemma_bit_len_unique(m * pow2(t), l + t);
}

/// Rounding a magnitude that already fits the precision is exact: it is
/// only renormalized to `p` bits.
proof fn lemma_rne_exact(m: nat, t: nat, e: int, p: nat)
    requires
        m > 0,
        bit_len(m) <= p,
    ensures
        rne_round(m * pow2(t), e, false, p) == Some::<(nat, int, bool)>((
            m * pow2((p - bit_len(m)) as nat),
            e + t - (p - bit_len(m)),
            false,
        )),
{
    let bl = bit_len(m);
    lemma_pow2_pos(t);
    assert(m * pow2(t) > 0) by (nonlinear_arith)
        requires
            m > 0,
            pow2(t) > 0,
    ;
    lemma_bit_len_shift(m, t);
    let l = bl + t;
    if l <= p {
        let g = (p - l) as nat;
        lemma_pow2_adds(t, g);
        assert(t + g == (p - bl) as nat);
        assert((m * pow2(t)) * pow2(g) == m * pow2((p - bl) as nat)) by (nonlinear_arith)
            requires
                pow2((p - bl) as nat) == pow2(t) * pow2(g),
        ;
    } else {
        let d = (l - p) as nat;
        assert(1 <= d <= t);
        lemma_shift_down(m, t, d);
        lemma_shift_down(m, t, (d - 1) as nat);
        let k1 = (t - (d - 1)) as nat;
        let k0 = (k1 - 1) as nat;
        lemma_pow2_adds(k0, 1);
        lemma2_to64();
        assert(k0 + 1 == k1);
        assert(m * pow2(k1) == (m * pow2(k0)) * 2) by (nonlinear_arith)
            requires
                pow2(k1) == pow2(k0) * 2,
        ;
        vstd::arithmetic::div_mod::lemma_mod_multiples_basic((m * pow2(k0)) as int, 2);
        assert((t - d) as nat == (p - bl) as nat);
    }
}

/// The aligned sum of two integer-valued Normals below `2^62` in magnitude
/// is the integer sum at weight `2^(big.exp - 64)`, with nothing below the
/// guard.
#[verifier::spinoff_prover]
#[verifier::rlimit(40)]
proof fn lemma_aligned_ints<const N: usize>(big: BigFloat<N>, small: BigFloat<N>, a: int, b: int)
    requires
        N >= 1,
        big.wf(),
        small.wf(),
        big.is_int(a),
        small.is_int(b),
        -0x4000_0000_0000_0000 < a < 0x4000_0000_0000_0000,
        -0x4000_0000_0000_0000 < b < 0x4000_0000_0000_0000,
        big.exp >= small.exp,
    ensures
        a + b == 0 ==> aligned_sum(big, small) == AlignedSum::Cancel,
        a + b != 0 ==> aligned_sum(big, small) == AlignedSum::Mag(
            ((if a + b < 0 { -(a + b) } else { a + b }) * pow2((64 - big.exp) as nat)) as nat,
            a + b < 0,
            false,
        ),
{
    let p = precision(N);
    let kb = (-big.exp) as nat;
    let ks = (-small.exp) as nat;
    let bm: nat = (if a < 0 { -a } else { a }) as nat;
    let sm: nat = (if b < 0 { -b } else { b }) as nat;
    lemma_normalized_range(big.mant@);
    lemma_normalized_range(small.mant@);
    assert(big.mant@.len() == N && small.mant@.len() == N);
    lemma_pow2_pos(kb);
    lemma_pow2_pos(ks);
    lemma_pow2_pos((p - 1) as nat);
    assert(bm >= 1) by {
        if bm == 0 {
            assert(0 * pow2(kb) == 0);
        }
    }
    assert(sm >= 1) by {
        if sm == 0 {
            assert(0 * pow2(ks) == 0);
        }
    }
    // The smaller exponent is above `-P`, the larger below `62 - P`.
    assert(pow2(ks) <= sm * pow2(ks)) by (nonlinear_arith)
        requires
            sm >= 1,
            pow2(ks) > 0,
    ;
    lemma_pow2_lt_exp(ks, p);
    vstd::arithmetic::power2::lemma2_to64_rest();
    lemma_pow2_adds(62, kb);
    assert(bm * pow2(kb) < pow2(62) * pow2(kb)) by (nonlinear_arith)
        requires
            bm < 0x4000_0000_0000_0000,
            pow2(62) == 0x4000_0000_0000_0000,
            pow2(kb) > 0,
    ;
    lemma_pow2_lt_exp((p - 1) as nat, 62 + kb);
    let shift = big.exp - small.exp;
    assert(shift == ks - kb);
    assert(shift <= 64);
    let w = pow2(64 + kb);
    lemma_pow2_pos(64 + kb);
    lemma_pow2_adds(kb, 64);
    lemma_pow2_adds(ks, (64 - shift) as nat);
    assert(ks + (64 - shift) == 64 + kb);
    let big_val = big.mant_value() * pow2(add_guard());
    let small_val = small.mant_value() * pow2((add_guard() - shift) as nat);
    assert(big_val == bm * w) by (nonlinear_arith)
        requires
            big_val == big.mant_value() * pow2(64),
            big.mant_value() == bm * pow2(kb),
            w == pow2(kb) * pow2(64),
    ;
    assert(small_val == sm * w) by (nonlinear_arith)
        requires
            small_val == small.mant_value() * pow2((64 - shift) as nat),
            small.mant_value() == sm * pow2(ks),
            w == pow2(ks) * pow2((64 - shift) as nat),
    ;
    assert(bm * w + sm * w == (bm + sm) * w) by (nonlinear_arith);
    if bm > sm {
        assert(bm * w - sm * w == (bm - sm) * w) by (nonlinear_arith);
        assert(bm * w > sm * w) by (nonlinear_arith)
            requires
                bm > sm,
                w > 0,
        ;
    } else if bm < sm {
        assert(sm * w - bm * w == (sm - bm) * w) by (nonlinear_arith);
        assert(bm * w < sm * w) by (nonlinear_arith)
            requires
                bm < sm,
                w > 0,
        ;
    }
    assert((64 - big.exp) as nat == 64 + kb);
}

/// Adding two integers below `2^62` in magnitude is exact: the sum holds the
/// integer `a + b` with no rounding error, and an exact cancellation gives
/// `+0` (integers as `from_i64` makes them, zero as `+0`).
pub proof fn add_of_integers_is_exact<const N: usize>(
    x: BigFloat<N>,
    y: BigFloat<N>,
    a: int,
    b: int,
    r: (BigFloat<N>, u128),
)
    requires
        N >= 1,
        x.wf(),
        y.wf(),
        x.is_int(a) || (a == 0 && x.class == FpClass::Zero && !x.sign),
        y.is_int(b) || (b == 0 && y.class == FpClass::Zero && !y.sign),
        -0x4000_0000_0000_0000 < a < 0x4000_0000_0000_0000,
        -0x4000_0000_0000_0000 < b < 0x4000_0000_0000_0000,
        x.add_result(&y, r),
    ensures
        r.1 == 0,
        a + b == 0 ==> r.0.class == FpClass::Zero && !r.0.sign,
        a + b != 0 ==> r.0.is_int(a + b),
{
    lemma_pow2_pos((precision(N) - 1) as nat);
    if x.class == FpClass::Normal {
        lemma_normalized_range(x.mant@);
        assert(a != 0) by {
            if a == 0 {
                assert(0 * pow2((-x.exp) as nat) == 0);
            }
        }
    }
    if y.class == FpClass::Normal {
        lemma_normalized_range(y.mant@);
        assert(b != 0) by {
            if b == 0 {
                assert(0 * pow2((-y.exp) as nat) == 0);
            }
        }
    }
    if x.class == FpClass::Normal && y.class == FpClass::Normal {
        let (big, small, ba, sb) = if x.exp >= y.exp { (x, y, a, b) } else { (y, x, b, a) };
        assert(big == x.add_big(&y) && small == x.add_small(&y));
        lemma_aligned_ints(big, small, ba, sb);
        assert(ba + sb == a + b);
        if a + b != 0 {
            let mm: nat = (if a + b < 0 { -(a + b) } else { a + b }) as nat;
            let p = precision(N);
            lemma_bit_len(mm);
            vstd::arithmetic::power2::lemma2_to64_rest();
            assert(pow2(63) == 0x8000_0000_0000_0000);
            assert(-0x8000_0000_0000_0000 < a + b < 0x8000_0000_0000_0000);
            assert(mm < pow2(63));
            if bit_len(mm) > 63 {
                lemma_pow2_strictly_increases(63, (bit_len(mm) - 1) as nat);
                if bit_len(mm) - 1 == 63 {
                    assert(pow2((bit_len(mm) - 1) as nat) == pow2(63));
                }
            }
            assert(bit_len(mm) <= p);
            let t = (64 - big.exp) as nat;
            lemma_rne_exact(mm, t, big.exp - add_guard(), p);
            assert(big.exp - add_guard() + t == 0);
        }
    }
}

/// Dividing `x * 2^t` by `n` extends the quotient of `x` by `n` with `t`
/// more bits, below which a remainder is left exactly when one was left
/// before or the new bits are not all zero.
proof fn lemma_quotient_refines(x: nat, n: nat, t: nat)
    requires
        n > 0,
    ensures
        (x * pow2(t)) / n == (x / n) * pow2(t) + ((x % n) * pow2(t)) / n,
        ((x % n) * pow2(t)) / n < pow2(t),
        ((x * pow2(t)) % n != 0 || ((x % n) * pow2(t)) / n != 0) == (x % n != 0),
{
    let q = x / n;
    let r = x % n;
    lemma_fundamental_div_mod(x as int, n as int);
    lemma_pow2_pos(t);
    let rt = r * pow2(t);
    let l = rt / n;
    let r2 = rt % n;
    lemma_fundamental_div_mod(rt as int, n as int);
    assert(r < n && r2 < n);
    assert(x * pow2(t) == (q * pow2(t) + l) * n + r2) by (nonlinear_arith)
        requires
            x == n * q + r,
            rt == r * pow2(t),
            rt == n * l + r2,
    ;
    vstd::arithmetic::div_mod::lemma_fundamental_div_mod_converse(
        (x * pow2(t)) as int,
        n as int,
        (q * pow2(t) + l) as int,
        r2 as int,
    );
    assert(rt < n * pow2(t)) by (nonlinear_arith)
        requires
            rt == r * pow2(t),
            r < n,
            pow2(t) > 0,
    ;
    assert(l < pow2(t)) by (nonlinear_arith)
        requires
            rt == n * l + r2,
            r2 >= 0,
            rt < n * pow2(t),
            n > 0,
    ;
    if r == 0 {
        assert(0 * pow2(t) == 0);
        assert(rt == 0);
        assert(l == 0 && r2 == 0) by (nonlinear_arith)
            requires
                0 == n * l + r2,
                n > 0,
                l >= 0,
                r2 >= 0,
        ;
    } else {
        assert(rt > 0) by (nonlinear_arith)
            requires
                rt == r * pow2(t),
                r > 0,
                pow2(t) > 0,
        ;
    }
}

/// Appending `t` low bits to a positive `q` adds `t` to its bit length.
proof fn lemma_bit_len_append(q: nat, t: nat, l: nat)
    requires
        q > 0,
        l < pow2(t),
    ensures
        bit_len(q * pow2(t) + l) == bit_len(q) + t,
{
    lemma_bit_len(q);
    let b = bit_len(q);
    let bm1: nat = (b - 1) as nat;
    lemma_pow2_adds(b, t);
    lemma_pow2_adds(bm1, t);
    lemma_pow2_pos(t);
    assert(q * pow2(t) + l < pow2(b + t)) by (nonlinear_arith)
        requires
            q + 1 <= pow2(b),
            l < pow2(t),
            pow2(b + t) == pow2(b) * pow2(t),
            pow2(t) > 0,
    ;
    assert(pow2(bm1 + t) <= q * pow2(t) + l) by (nonlinear_arith)
        requires
            pow2(bm1) <= q,
            pow2(bm1 + t) == pow2(bm1) * pow2(t),
            pow2(t) > 0,
            l >= 0,
    ;
    assert(q * pow2(t) + l > 0) by (nonlinear_arith)
        requires
            q > 0,
            pow2(t) > 0,
            l >= 0,
    ;
    assert(bm1 + t == ((b + t) - 1) as nat);
    lemma_bit_len_unique(q * pow2(t) + l, b + t);
}

/// Rounding a quotient carried to more bits, with the remainder folded into
/// the sticky flag, rounds as the shorter quotient does, once that one
/// already reaches past the precision.
#[verifier::spinoff_prover]
#[verifier::rlimit(40)]
proof fn lemma_rne_refined(q: nat, l: nat, t: nat, e: int, s: bool, s2: bool, p: nat)
    requires
        p >= 1,
        bit_len(q) > p,
        l < pow2(t),
        s == (s2 || l != 0),
    ensures
        rne_round(q * pow2(t) + l, e - t, s2, p) == rne_round(q, e, s, p),
{
    let b = bit_len(q);
    assert(q != 0) by {
        if q == 0 {
            assert(bit_len(q) == 0);
        }
    }
    lemma_bit_len_append(q, t, l);
    lemma_pow2_pos(t);
    let w = q * pow2(t) + l;
    let d = (b - p) as nat;
    let d2 = ((b + t) - p) as nat;
    assert(d2 == t + d);
    assert(w > 0) by (nonlinear_arith)
        requires
            w == q * pow2(t) + l,
            q > 0,
            pow2(t) > 0,
    ;
    vstd::arithmetic::div_mod::lemma_fundamental_div_mod_converse(w as int, pow2(t) as int, q as int, l as int);
    lemma_pow2_pos(d);
    lemma_pow2_pos((d - 1) as nat);
    lemma_pow2_adds(t, d);
    lemma_pow2_adds(t, (d - 1) as nat);
    vstd::arithmetic::div_mod::lemma_div_denominator(w as int, pow2(t) as int, pow2(d) as int);
    vstd::arithmetic::div_mod::lemma_div_denominator(w as int, pow2(t) as int, pow2((d - 1) as nat) as int);
    vstd::arithmetic::div_mod::lemma_mod_breakdown(w as int, pow2(t) as int, pow2((d - 1) as nat) as int);
    assert((d2 - 1) as nat == t + (d - 1) as nat);
    assert(w / pow2(d2) == q / pow2(d));
    assert(w / pow2((d2 - 1) as nat) == q / pow2((d - 1) as nat));
    let qm = q % pow2((d - 1) as nat);
    assert(w % pow2((d2 - 1) as nat) == pow2(t) * qm + l);
    assert((pow2(t) * qm + l != 0) == (qm != 0 || l != 0)) by (nonlinear_arith)
        requires
            pow2(t) > 0,
            qm >= 0,
            l >= 0,
    ;
}

/// Dividing by a small integer rounds exactly as dividing by its wide
/// conversion: for a Normal `x` and `d` holding the integer `n >= 2` (as
/// `from_u64(n)` makes it), the rounding `div_small(n)` performs is the one
/// `div(&d)` performs, so the two quotients agree bit for bit.
#[verifier::spinoff_prover]
#[verifier::rlimit(40)]
pub proof fn div_small_agrees_with_div<const N: usize>(x: BigFloat<N>, d: BigFloat<N>, n: u64)
    requires
        N >= 1,
        x.wf(),
        d.wf(),
        x.class == FpClass::Normal,
        n >= 2,
        d.is_int(n as int),
    ensures
        rne_round(
            (x.mant_value() * pow2(65)) / (n as nat),
            x.exp - 65,
            (x.mant_value() * pow2(65)) % (n as nat) != 0,
            precision(N),
        ) == rne_round(
            (x.mant_value() * pow2(precision(N) + 1)) / d.mant_value(),
            x.exp - d.exp - precision(N) - 1,
            (x.mant_value() * pow2(precision(N) + 1)) % d.mant_value() != 0,
            precision(N),
        ),
{
    let p = precision(N);
    let m = x.mant_value();
    let nn = n as nat;
    let k = (-d.exp) as nat;
    lemma_normalized_range(x.mant@);
    lemma_normalized_range(d.mant@);
    assert(x.mant@.len() == N && d.mant@.len() == N);
    // The wide divisor is `n` shifted up to `P` bits.
    lemma_bit_len_shift(nn, k);
    lemma_bit_len_unique(d.mant_value(), p);
    let bn = bit_len(nn);
    assert(bn + k == p);
    lemma_bit_len(nn);
    lemma2_to64();
    vstd::arithmetic::power2::lemma2_to64_rest();
    assert(bn <= 64) by {
        if bn > 64 {
            lemma_pow2_strictly_increases(64, (bn - 1) as nat);
            if bn - 1 == 64 {
                assert(pow2((bn - 1) as nat) == pow2(64));
            }
        }
    }
    let j1: nat = bn + 1;
    let t: nat = (64 - bn) as nat;
    assert(p + 1 == j1 + k);
    assert(j1 + t == 65);
    // The wide division is the division of `m * 2^j1` by `n`.
    let x1 = m * pow2(j1);
    lemma_pow2_pos(k);
    lemma_pow2_pos(j1);
    lemma_pow2_adds(j1, k);
    assert(m * pow2(p + 1) == pow2(k) * x1) by (nonlinear_arith)
        requires
            x1 == m * pow2(j1),
            pow2(p + 1) == pow2(j1) * pow2(k),
    ;
    assert(d.mant_value() == pow2(k) * nn);
    vstd::arithmetic::div_mod::lemma_div_by_multiple(x1 as int, pow2(k) as int);
    assert((pow2(k) * x1) / pow2(k) == x1) by (nonlinear_arith)
        requires
            (x1 * pow2(k)) / pow2(k) == x1,
    ;
    vstd::arithmetic::div_mod::lemma_div_denominator((pow2(k) * x1) as int, pow2(k) as int, nn as int);
    vstd::arithmetic::div_mod::lemma_truncate_middle(x1 as int, pow2(k) as int, nn as int);
    let q1 = x1 / nn;
    let r1 = x1 % nn;
    assert((m * pow2(p + 1)) / d.mant_value() == q1);
    assert((m * pow2(p + 1)) % d.mant_value() == pow2(k) * r1);
    assert((pow2(k) * r1 != 0) == (r1 != 0)) by (nonlinear_arith)
        requires
            pow2(k) > 0,
            r1 >= 0,
    ;
    assert(x.exp - d.exp - p - 1 == x.exp - j1);
    // The narrow division carries `t` more bits of the same quotient.
    lemma_quotient_refines(x1, nn, t);
    lemma_pow2_adds(j1, t);
    assert(x1 * pow2(t) == m * pow2(65)) by (nonlinear_arith)
        requires
            x1 == m * pow2(j1),
            pow2(65) == pow2(j1) * pow2(t),
    ;
    // The wide quotient already reaches past the precision.
    lemma_pow2_adds((p - 1) as nat, j1);
    lemma_pow2_adds(p, bn);
    assert((p - 1) as nat + j1 == p + bn);
    assert(pow2(j1) == 2 * pow2(bn)) by {
        lemma_pow2_adds(bn, 1);
    }
    assert(x1 >= pow2(p) * nn) by (nonlinear_arith)
        requires
            x1 == m * pow2(j1),
            m >= pow2((p - 1) as nat),
            pow2(j1) == 2 * pow2(bn),
            pow2((p - 1) as nat) * pow2(j1) == pow2(p) * pow2(bn),
            nn < pow2(bn),
            pow2(p) > 0,
    ;
    lemma_pow2_pos(p);
    vstd::arithmetic::div_mod::lemma_div_is_ordered((pow2(p) * nn) as int, x1 as int, nn as int);
    vstd::arithmetic::div_mod::lemma_div_by_multiple(pow2(p) as int, nn as int);
    assert(q1 >= pow2(p));
    lemma_bit_len(q1);
    lemma_pow2_lt_exp(p, bit_len(q1));
    lemma_rne_refined(q1, ((r1 * pow2(t)) / nn) as nat, t, x.exp - j1, r1 != 0, (x1 * pow2(t)) % nn != 0, p);
}

/// The order is that of the extended reals at its ends: `+Inf` is above every
/// non-NaN value other than `+Inf` and `-Inf` below every non-NaN value other
/// than `-Inf`; two infinities of one sign are equal; and comparing the other
/// way round gives the opposite answer.
pub proof fn infinities_bound_the_order<const N: usize>(x: BigFloat<N>, y: BigFloat<N>)
    ensures
        x.class == FpClass::Inf && !x.sign && y.class != FpClass::NaN && !(y.class == FpClass::Inf
            && !y.sign) ==> x.value_order(&y) == 1,
        x.class == FpClass::Inf && x.sign && y.class != FpClass::NaN && !(y.class == FpClass::Inf
            && y.sign) ==> x.value_order(&y) == -1,
        x.class == FpClass::Inf && y.class == FpClass::Inf && x.sign == y.sign ==> x.value_order(&y) == 0,
        x.value_order(&y) == -y.value_order(&x),
{
}

} // verus!
