//! The pinned integer primitive semantics (KISS-Ops §6.4 arithmetic atoms on
//! the integer path, §6.10 bitwise atoms) as a reference oracle: two's-
//! complement wrapping at every boundary (`neg(INT_MIN) = INT_MIN`, §6.4-0005),
//! the arithmetic-versus-logical `shr` split keyed on signedness (§6.10-0003),
//! and the out-of-range shift left target-defined (`None`, §6.10-0004).
//!
//! Dtype coverage is the ordinary integer set: `s8`→`i8`, `u8`→`u8`,
//! `i32`→`i32`, `u32`→`u32`, `i64`→`i64`. Integer `div`/`rem` are excluded from
//! the op set (§6.4-0002) and deliberately absent.

use vstd::prelude::*;
use crate::differential::{SplitMix64, splitmix_output, splitmix_state};

verus! {

/// `v` reduced into the dtype: the residue modulo `m` (`2^BITS`), read as a
/// two's-complement value when `signed`.
pub open spec fn wrap(v: int, m: int, signed: bool) -> int {
    let r = v % m;
    if signed && r >= m / 2 {
        r - m
    } else {
        r
    }
}

/// The number of set bits among the low `w` bits of `p`.
pub open spec fn popcount_spec(p: nat, w: nat) -> nat
    decreases w,
{
    if w == 0 {
        0
    } else {
        p % 2 + popcount_spec(p / 2, (w - 1) as nat)
    }
}

/// The number of trailing zero bits among the low `w` bits of `p` (`w` for
/// zero).
pub open spec fn ctz_spec(p: nat, w: nat) -> nat
    decreases w,
{
    if w == 0 {
        0
    } else if p % 2 == 1 {
        0
    } else {
        1 + ctz_spec(p / 2, (w - 1) as nat)
    }
}

/// The bit length of `p`: the position of its highest set bit plus one.
pub open spec fn bit_length(p: nat) -> nat
    decreases p,
{
    if p == 0 {
        0
    } else {
        1 + bit_length(p / 2)
    }
}

/// The number of leading zero bits of `p` read in `w` bits.
pub open spec fn clz_spec(p: nat, w: nat) -> nat {
    if bit_length(p) >= w {
        0
    } else {
        (w - bit_length(p)) as nat
    }
}

proof fn lemma_euclid_mod(v: int, m: int, q: int)
    requires
        m > 0,
        v >= 0 ==> q == v % m,
        v < 0 ==> q == (if (-v) % m == 0 {
            0
        } else {
            m - (-v) % m
        }),
    ensures
        q == v % m,
        0 <= q < m,
{
    if v < 0 {
        let t = (-v) % m;
        let k = (-v) / m;
        assert((-v) == k * m + t) by (nonlinear_arith)
            requires
                m > 0,
                t == (-v) % m,
                k == (-v) / m,
        ;
        if t == 0 {
            assert(v == (-k) * m + 0) by (nonlinear_arith)
                requires
                    (-v) == k * m + t,
                    t == 0,
            ;
            vstd::arithmetic::div_mod::lemma_fundamental_div_mod_converse(v, m, -k, 0);
        } else {
            assert(v == (-k - 1) * m + (m - t)) by (nonlinear_arith)
                requires
                    (-v) == k * m + t,
            ;
            vstd::arithmetic::div_mod::lemma_fundamental_div_mod_converse(v, m, -k - 1, m - t);
        }
    }
}

proof fn lemma_mul_bound(a: int, b: int)
    requires
        -0x8000_0000_0000_0000 <= a <= 0x8000_0000_0000_0000,
        -0x8000_0000_0000_0000 <= b <= 0x8000_0000_0000_0000,
    ensures
        -0x4000_0000_0000_0000_0000_0000_0000_0000 <= a * b <= 0x4000_0000_0000_0000_0000_0000_0000_0000,
{
    assert(-0x4000_0000_0000_0000_0000_0000_0000_0000 <= a * b <= 0x4000_0000_0000_0000_0000_0000_0000_0000) by (nonlinear_arith)
        requires
            -0x8000_0000_0000_0000 <= a <= 0x8000_0000_0000_0000,
            -0x8000_0000_0000_0000 <= b <= 0x8000_0000_0000_0000,
    ;
}

/// The bit-pattern operations KISS-Ops §6.4 / §6.10 pin over an integer dtype,
/// on the pinned ordinary integer set (`i8`/`u8`/`i32`/`u32`/`i64`). A value's
/// `ival` is its integer reading; `modulus` is `2^BITS`.
pub trait IntDtype: Copy + Eq + Sized {
    spec fn ival(self) -> int;

    spec fn width() -> nat;

    spec fn modulus() -> int;

    spec fn signed() -> bool;

    spec fn token() -> Seq<char>;

    spec fn and_spec(self, rhs: Self) -> Self;

    spec fn or_spec(self, rhs: Self) -> Self;

    spec fn xor_spec(self, rhs: Self) -> Self;

    spec fn not_spec(self) -> Self;

    spec fn shl_spec(self, amt: u32) -> Self;

    spec fn shr_spec(self, amt: u32) -> Self;

    /// The dtype bit width; the pinned shift domain is `[0, BITS)`.
    fn bits() -> (b: u32)
        ensures
            b == Self::width(),
            8 <= b <= 64,
            Self::modulus() == vstd::arithmetic::power2::pow2(b as nat),
    ;

    /// The KISS-Ops dtype token: `s8`, `u8`, `i32`, `u32`, `i64`.
    fn dtype_token() -> (t: &'static str)
        ensures
            t@ == Self::token(),
    ;

    /// Whether this dtype is signed (arithmetic `shr`, wrapping `abs`).
    fn is_signed() -> (b: bool)
        ensures
            b == Self::signed(),
    ;

    /// The value `v` reduced into the dtype.
    fn from_wide(v: i128) -> (r: Self)
        requires
            v > i128::MIN,
        ensures
            r.ival() == wrap(v as int, Self::modulus(), Self::signed()),
    ;

    /// A value drawn from the low `BITS` bits of a splitmix draw.
    fn from_seed(bits: u64) -> (r: Self)
        ensures
            r.ival() == wrap(bits as int, Self::modulus(), Self::signed()),
    ;

    /// The raw bit pattern in `BITS` bits, zero-extended.
    fn to_bits_u64(self) -> (r: u64)
        ensures
            r == wrap(self.ival(), Self::modulus(), false),
    ;

    /// Wrapping `a + b` modulo `2^BITS`.
    fn add(self, rhs: Self) -> (r: Self)
        ensures
            r.ival() == wrap(self.ival() + rhs.ival(), Self::modulus(), Self::signed()),
    ;

    /// Wrapping `a - b` modulo `2^BITS`.
    fn sub(self, rhs: Self) -> (r: Self)
        ensures
            r.ival() == wrap(self.ival() - rhs.ival(), Self::modulus(), Self::signed()),
    ;

    /// Wrapping `a * b` modulo `2^BITS`, high bits discarded.
    fn mul(self, rhs: Self) -> (r: Self)
        ensures
            r.ival() == wrap(self.ival() * rhs.ival(), Self::modulus(), Self::signed()),
    ;

    /// Two's-complement wrapping negate.
    fn neg(self) -> (r: Self)
        ensures
            r.ival() == wrap(-self.ival(), Self::modulus(), Self::signed()),
    ;

    /// Wrapping absolute value on a signed dtype (`abs(INT_MIN) = INT_MIN`); the
    /// identity on an unsigned one.
    fn abs(self) -> (r: Self)
        ensures
            r.ival() == (if Self::signed() && self.ival() < 0 {
                wrap(-self.ival(), Self::modulus(), true)
            } else {
                self.ival()
            }),
    ;

    fn bit_and(self, rhs: Self) -> (r: Self)
        ensures
            r == self.and_spec(rhs),
    ;

    fn bit_or(self, rhs: Self) -> (r: Self)
        ensures
            r == self.or_spec(rhs),
    ;

    fn bit_xor(self, rhs: Self) -> (r: Self)
        ensures
            r == self.xor_spec(rhs),
    ;

    fn bit_not(self) -> (r: Self)
        ensures
            r == self.not_spec(),
    ;

    /// Left shift by `amt` in `[0, BITS)`; `None` out of range.
    fn checked_shl_n(self, amt: u32) -> (r: Option<Self>)
        ensures
            r == (if amt < Self::width() {
                Some(self.shl_spec(amt))
            } else {
                None
            }),
    ;

    /// Right shift by `amt` in `[0, BITS)` — arithmetic on a signed dtype,
    /// logical on an unsigned one; `None` out of range.
    fn checked_shr_n(self, amt: u32) -> (r: Option<Self>)
        ensures
            r == (if amt < Self::width() {
                Some(self.shr_spec(amt))
            } else {
                None
            }),
    ;

    /// Whether two values are the same value.
    fn equals(self, rhs: Self) -> (r: bool)
        ensures
            r == (self == rhs),
    ;

    /// The number of set bits of the pattern.
    fn popcount(self) -> (r: u32)
        ensures
            r == popcount_spec(wrap(self.ival(), Self::modulus(), false) as nat, Self::width()),
    {
        count_ones_n(self.to_bits_u64(), Self::bits())
    }

    /// The number of leading zeros of the pattern (`BITS` for zero).
    fn clz(self) -> (r: u32)
        ensures
            r == clz_spec(wrap(self.ival(), Self::modulus(), false) as nat, Self::width()),
    {
        leading_zeros_n(self.to_bits_u64(), Self::bits())
    }

    /// The number of trailing zeros of the pattern (`BITS` for zero).
    fn ctz(self) -> (r: u32)
        ensures
            r == ctz_spec(wrap(self.ival(), Self::modulus(), false) as nat, Self::width()),
    {
        trailing_zeros_n(self.to_bits_u64(), Self::bits())
    }
}

fn count_ones_n(p: u64, w: u32) -> (r: u32)
    requires
        w <= 64,
    ensures
        r == popcount_spec(p as nat, w as nat),
{
    let mut q = p;
    let mut k: u32 = 0;
    let mut c: u32 = 0;
    while k < w
        invariant
            k <= w <= 64,
            c <= k,
            c + popcount_spec(q as nat, (w - k) as nat) == popcount_spec(p as nat, w as nat),
        decreases w - k,
    {
        c = c + (q % 2) as u32;
        q = q / 2;
        k += 1;
    }
    c
}

fn trailing_zeros_n(p: u64, w: u32) -> (r: u32)
    requires
        w <= 64,
    ensures
        r == ctz_spec(p as nat, w as nat),
{
    let mut q = p;
    let mut k: u32 = 0;
    while k < w && q % 2 == 0
        invariant
            k <= w <= 64,
            k + ctz_spec(q as nat, (w - k) as nat) == ctz_spec(p as nat, w as nat),
        decreases w - k,
    {
        q = q / 2;
        k += 1;
    }
    k
}

proof fn lemma_bit_length_le(p: nat, k: nat)
    requires
        p < vstd::arithmetic::power2::pow2(k),
    ensures
        bit_length(p) <= k,
    decreases k,
{
    if p > 0 && k > 0 {
        vstd::arithmetic::power2::lemma_pow2_unfold(k);
        lemma_bit_length_le(p / 2, (k - 1) as nat);
    } else if p > 0 {
        vstd::arithmetic::power2::lemma2_to64();
    }
}

fn leading_zeros_n(p: u64, w: u32) -> (r: u32)
    ensures
        r == clz_spec(p as nat, w as nat),
{
    proof {
        vstd::arithmetic::power2::lemma2_to64_rest();
        lemma_bit_length_le(p as nat, 64);
    }
    let mut q = p;
    let mut len: u32 = 0;
    while q > 0
        invariant
            len + bit_length(q as nat) == bit_length(p as nat),
            bit_length(p as nat) <= 64,
        decreases q,
    {
        q = q / 2;
        len += 1;
    }
    if len >= w {
        0
    } else {
        w - len
    }
}

impl IntDtype for i8 {
    open spec fn ival(self) -> int {
        self as int
    }

    open spec fn width() -> nat {
        8
    }

    open spec fn modulus() -> int {
        0x100
    }

    open spec fn signed() -> bool {
        true
    }

    open spec fn token() -> Seq<char> {
        "s8"@
    }

    open spec fn and_spec(self, rhs: Self) -> Self {
        self & rhs
    }

    open spec fn or_spec(self, rhs: Self) -> Self {
        self | rhs
    }

    open spec fn xor_spec(self, rhs: Self) -> Self {
        self ^ rhs
    }

    open spec fn not_spec(self) -> Self {
        !self
    }

    open spec fn shl_spec(self, amt: u32) -> Self {
        self << amt
    }

    open spec fn shr_spec(self, amt: u32) -> Self {
        self >> amt
    }

    fn bits() -> (b: u32) {
        proof {
            vstd::arithmetic::power2::lemma2_to64();
            vstd::arithmetic::power2::lemma2_to64_rest();
        }
        8
    }

    fn dtype_token() -> (t: &'static str) {
        "s8"
    }

    fn is_signed() -> (b: bool) {
        true
    }

    fn from_wide(v: i128) -> (r: Self) {
        let m: i128 = 0x100;
        let q = if v >= 0 {
            v % m
        } else {
            let t = (0 - v) % m;
            if t == 0 {
                0
            } else {
                m - t
            }
        };
        proof {
            lemma_euclid_mod(v as int, m as int, q as int);
        }
        let s: i128 = if true && q >= m / 2 {
            q - m
        } else {
            q
        };
        s as i8
    }

    fn from_seed(bits: u64) -> (r: Self) {
        Self::from_wide(bits as i128)
    }

    fn to_bits_u64(self) -> (r: u64) {
        let v = self as i128;
        let r: i128 = if v < 0 {
            v + 0x100
        } else {
            v
        };
        r as u64
    }

    fn add(self, rhs: Self) -> (r: Self) {
        Self::from_wide(self as i128 + rhs as i128)
    }

    fn sub(self, rhs: Self) -> (r: Self) {
        Self::from_wide(self as i128 - rhs as i128)
    }

    fn mul(self, rhs: Self) -> (r: Self) {
        proof {
            lemma_mul_bound(self as int, rhs as int);
        }
        Self::from_wide(self as i128 * rhs as i128)
    }

    fn neg(self) -> (r: Self) {
        Self::from_wide(0 - (self as i128))
    }

    fn abs(self) -> (r: Self) {
        if self < 0 {
            Self::from_wide(0 - (self as i128))
        } else {
            self
        }
    }

    fn equals(self, rhs: Self) -> (r: bool) {
        self == rhs
    }

    fn bit_and(self, rhs: Self) -> (r: Self) {
        self & rhs
    }

    fn bit_or(self, rhs: Self) -> (r: Self) {
        self | rhs
    }

    fn bit_xor(self, rhs: Self) -> (r: Self) {
        self ^ rhs
    }

    fn bit_not(self) -> (r: Self) {
        !self
    }

    fn checked_shl_n(self, amt: u32) -> (r: Option<Self>) {
        if amt < 8 {
            Some(self << amt)
        } else {
            None
        }
    }

    fn checked_shr_n(self, amt: u32) -> (r: Option<Self>) {
        if amt < 8 {
            Some(self >> amt)
        } else {
            None
        }
    }
}

impl IntDtype for u8 {
    open spec fn ival(self) -> int {
        self as int
    }

    open spec fn width() -> nat {
        8
    }

    open spec fn modulus() -> int {
        0x100
    }

    open spec fn signed() -> bool {
        false
    }

    open spec fn token() -> Seq<char> {
        "u8"@
    }

    open spec fn and_spec(self, rhs: Self) -> Self {
        self & rhs
    }

    open spec fn or_spec(self, rhs: Self) -> Self {
        self | rhs
    }

    open spec fn xor_spec(self, rhs: Self) -> Self {
        self ^ rhs
    }

    open spec fn not_spec(self) -> Self {
        !self
    }

    open spec fn shl_spec(self, amt: u32) -> Self {
        self << amt
    }

    open spec fn shr_spec(self, amt: u32) -> Self {
        self >> amt
    }

    fn bits() -> (b: u32) {
        proof {
            vstd::arithmetic::power2::lemma2_to64();
            vstd::arithmetic::power2::lemma2_to64_rest();
        }
        8
    }

    fn dtype_token() -> (t: &'static str) {
        "u8"
    }

    fn is_signed() -> (b: bool) {
        false
    }

    fn from_wide(v: i128) -> (r: Self) {
        let m: i128 = 0x100;
        let q = if v >= 0 {
            v % m
        } else {
            let t = (0 - v) % m;
            if t == 0 {
                0
            } else {
                m - t
            }
        };
        proof {
            lemma_euclid_mod(v as int, m as int, q as int);
        }
        let s: i128 = if false && q >= m / 2 {
            q - m
        } else {
            q
        };
        s as u8
    }

    fn from_seed(bits: u64) -> (r: Self) {
        Self::from_wide(bits as i128)
    }

    fn to_bits_u64(self) -> (r: u64) {
        self as u64
    }

    fn add(self, rhs: Self) -> (r: Self) {
        Self::from_wide(self as i128 + rhs as i128)
    }

    fn sub(self, rhs: Self) -> (r: Self) {
        Self::from_wide(self as i128 - rhs as i128)
    }

    fn mul(self, rhs: Self) -> (r: Self) {
        proof {
            lemma_mul_bound(self as int, rhs as int);
        }
        Self::from_wide(self as i128 * rhs as i128)
    }

    fn neg(self) -> (r: Self) {
        Self::from_wide(0 - (self as i128))
    }

    fn abs(self) -> (r: Self) {
        self
    }

    fn equals(self, rhs: Self) -> (r: bool) {
        self == rhs
    }

    fn bit_and(self, rhs: Self) -> (r: Self) {
        self & rhs
    }

    fn bit_or(self, rhs: Self) -> (r: Self) {
        self | rhs
    }

    fn bit_xor(self, rhs: Self) -> (r: Self) {
        self ^ rhs
    }

    fn bit_not(self) -> (r: Self) {
        !self
    }

    fn checked_shl_n(self, amt: u32) -> (r: Option<Self>) {
        if amt < 8 {
            Some(self << amt)
        } else {
            None
        }
    }

    fn checked_shr_n(self, amt: u32) -> (r: Option<Self>) {
        if amt < 8 {
            Some(self >> amt)
        } else {
            None
        }
    }
}

impl IntDtype for i32 {
    open spec fn ival(self) -> int {
        self as int
    }

    open spec fn width() -> nat {
        32
    }

    open spec fn modulus() -> int {
        0x1_0000_0000
    }

    open spec fn signed() -> bool {
        true
    }

    open spec fn token() -> Seq<char> {
        "i32"@
    }

    open spec fn and_spec(self, rhs: Self) -> Self {
        self & rhs
    }

    open spec fn or_spec(self, rhs: Self) -> Self {
        self | rhs
    }

    open spec fn xor_spec(self, rhs: Self) -> Self {
        self ^ rhs
    }

    open spec fn not_spec(self) -> Self {
        !self
    }

    open spec fn shl_spec(self, amt: u32) -> Self {
        self << amt
    }

    open spec fn shr_spec(self, amt: u32) -> Self {
        self >> amt
    }

    fn bits() -> (b: u32) {
        proof {
            vstd::arithmetic::power2::lemma2_to64();
            vstd::arithmetic::power2::lemma2_to64_rest();
        }
        32
    }

    fn dtype_token() -> (t: &'static str) {
        "i32"
    }

    fn is_signed() -> (b: bool) {
        true
    }

    fn from_wide(v: i128) -> (r: Self) {
        let m: i128 = 0x1_0000_0000;
        let q = if v >= 0 {
            v % m
        } else {
            let t = (0 - v) % m;
            if t == 0 {
                0
            } else {
                m - t
            }
        };
        proof {
            lemma_euclid_mod(v as int, m as int, q as int);
        }
        let s: i128 = if true && q >= m / 2 {
            q - m
        } else {
            q
        };
        s as i32
    }

    fn from_seed(bits: u64) -> (r: Self) {
        Self::from_wide(bits as i128)
    }

    fn to_bits_u64(self) -> (r: u64) {
        let v = self as i128;
        let r: i128 = if v < 0 {
            v + 0x1_0000_0000
        } else {
            v
        };
        r as u64
    }

    fn add(self, rhs: Self) -> (r: Self) {
        Self::from_wide(self as i128 + rhs as i128)
    }

    fn sub(self, rhs: Self) -> (r: Self) {
        Self::from_wide(self as i128 - rhs as i128)
    }

    fn mul(self, rhs: Self) -> (r: Self) {
        proof {
            lemma_mul_bound(self as int, rhs as int);
        }
        Self::from_wide(self as i128 * rhs as i128)
    }

    fn neg(self) -> (r: Self) {
        Self::from_wide(0 - (self as i128))
    }

    fn abs(self) -> (r: Self) {
        if self < 0 {
            Self::from_wide(0 - (self as i128))
        } else {
            self
        }
    }

    fn equals(self, rhs: Self) -> (r: bool) {
        self == rhs
    }

    fn bit_and(self, rhs: Self) -> (r: Self) {
        self & rhs
    }

    fn bit_or(self, rhs: Self) -> (r: Self) {
        self | rhs
    }

    fn bit_xor(self, rhs: Self) -> (r: Self) {
        self ^ rhs
    }

    fn bit_not(self) -> (r: Self) {
        !self
    }

    fn checked_shl_n(self, amt: u32) -> (r: Option<Self>) {
        if amt < 32 {
            Some(self << amt)
        } else {
            None
        }
    }

    fn checked_shr_n(self, amt: u32) -> (r: Option<Self>) {
        if amt < 32 {
            Some(self >> amt)
        } else {
            None
        }
    }
}

impl IntDtype for u32 {
    open spec fn ival(self) -> int {
        self as int
    }

    open spec fn width() -> nat {
        32
    }

    open spec fn modulus() -> int {
        0x1_0000_0000
    }

    open spec fn signed() -> bool {
        false
    }

    open spec fn token() -> Seq<char> {
        "u32"@
    }

    open spec fn and_spec(self, rhs: Self) -> Self {
        self & rhs
    }

    open spec fn or_spec(self, rhs: Self) -> Self {
        self | rhs
    }

    open spec fn xor_spec(self, rhs: Self) -> Self {
        self ^ rhs
    }

    open spec fn not_spec(self) -> Self {
        !self
    }

    open spec fn shl_spec(self, amt: u32) -> Self {
        self << amt
    }

    open spec fn shr_spec(self, amt: u32) -> Self {
        self >> amt
    }

    fn bits() -> (b: u32) {
        proof {
            vstd::arithmetic::power2::lemma2_to64();
            vstd::arithmetic::power2::lemma2_to64_rest();
        }
        32
    }

    fn dtype_token() -> (t: &'static str) {
        "u32"
    }

    fn is_signed() -> (b: bool) {
        false
    }

    fn from_wide(v: i128) -> (r: Self) {
        let m: i128 = 0x1_0000_0000;
        let q = if v >= 0 {
            v % m
        } else {
            let t = (0 - v) % m;
            if t == 0 {
                0
            } else {
                m - t
            }
        };
        proof {
            lemma_euclid_mod(v as int, m as int, q as int);
        }
        let s: i128 = if false && q >= m / 2 {
            q - m
        } else {
            q
        };
        s as u32
    }

    fn from_seed(bits: u64) -> (r: Self) {
        Self::from_wide(bits as i128)
    }

    fn to_bits_u64(self) -> (r: u64) {
        self as u64
    }

    fn add(self, rhs: Self) -> (r: Self) {
        Self::from_wide(self as i128 + rhs as i128)
    }

    fn sub(self, rhs: Self) -> (r: Self) {
        Self::from_wide(self as i128 - rhs as i128)
    }

    fn mul(self, rhs: Self) -> (r: Self) {
        proof {
            lemma_mul_bound(self as int, rhs as int);
        }
        Self::from_wide(self as i128 * rhs as i128)
    }

    fn neg(self) -> (r: Self) {
        Self::from_wide(0 - (self as i128))
    }

    fn abs(self) -> (r: Self) {
        self
    }

    fn equals(self, rhs: Self) -> (r: bool) {
        self == rhs
    }

    fn bit_and(self, rhs: Self) -> (r: Self) {
        self & rhs
    }

    fn bit_or(self, rhs: Self) -> (r: Self) {
        self | rhs
    }

    fn bit_xor(self, rhs: Self) -> (r: Self) {
        self ^ rhs
    }

    fn bit_not(self) -> (r: Self) {
        !self
    }

    fn checked_shl_n(self, amt: u32) -> (r: Option<Self>) {
        if amt < 32 {
            Some(self << amt)
        } else {
            None
        }
    }

    fn checked_shr_n(self, amt: u32) -> (r: Option<Self>) {
        if amt < 32 {
            Some(self >> amt)
        } else {
            None
        }
    }
}

impl IntDtype for i64 {
    open spec fn ival(self) -> int {
        self as int
    }

    open spec fn width() -> nat {
        64
    }

    open spec fn modulus() -> int {
        0x1_0000_0000_0000_0000
    }

    open spec fn signed() -> bool {
        true
    }

    open spec fn token() -> Seq<char> {
        "i64"@
    }

    open spec fn and_spec(self, rhs: Self) -> Self {
        self & rhs
    }

    open spec fn or_spec(self, rhs: Self) -> Self {
        self | rhs
    }

    open spec fn xor_spec(self, rhs: Self) -> Self {
        self ^ rhs
    }

    open spec fn not_spec(self) -> Self {
        !self
    }

    open spec fn shl_spec(self, amt: u32) -> Self {
        self << amt
    }

    open spec fn shr_spec(self, amt: u32) -> Self {
        self >> amt
    }

    fn bits() -> (b: u32) {
        proof {
            vstd::arithmetic::power2::lemma2_to64();
            vstd::arithmetic::power2::lemma2_to64_rest();
        }
        64
    }

    fn dtype_token() -> (t: &'static str) {
        "i64"
    }

    fn is_signed() -> (b: bool) {
        true
    }

    fn from_wide(v: i128) -> (r: Self) {
        let m: i128 = 0x1_0000_0000_0000_0000;
        let q = if v >= 0 {
            v % m
        } else {
            let t = (0 - v) % m;
            if t == 0 {
                0
            } else {
                m - t
            }
        };
        proof {
            lemma_euclid_mod(v as int, m as int, q as int);
        }
        let s: i128 = if true && q >= m / 2 {
            q - m
        } else {
            q
        };
        s as i64
    }

    fn from_seed(bits: u64) -> (r: Self) {
        Self::from_wide(bits as i128)
    }

    fn to_bits_u64(self) -> (r: u64) {
        let v = self as i128;
        let r: i128 = if v < 0 {
            v + 0x1_0000_0000_0000_0000
        } else {
            v
        };
        r as u64
    }

    fn add(self, rhs: Self) -> (r: Self) {
        Self::from_wide(self as i128 + rhs as i128)
    }

    fn sub(self, rhs: Self) -> (r: Self) {
        Self::from_wide(self as i128 - rhs as i128)
    }

    fn mul(self, rhs: Self) -> (r: Self) {
        proof {
            lemma_mul_bound(self as int, rhs as int);
        }
        Self::from_wide(self as i128 * rhs as i128)
    }

    fn neg(self) -> (r: Self) {
        Self::from_wide(0 - (self as i128))
    }

    fn abs(self) -> (r: Self) {
        if self < 0 {
            Self::from_wide(0 - (self as i128))
        } else {
            self
        }
    }

    fn equals(self, rhs: Self) -> (r: bool) {
        self == rhs
    }

    fn bit_and(self, rhs: Self) -> (r: Self) {
        self & rhs
    }

    fn bit_or(self, rhs: Self) -> (r: Self) {
        self | rhs
    }

    fn bit_xor(self, rhs: Self) -> (r: Self) {
        self ^ rhs
    }

    fn bit_not(self) -> (r: Self) {
        !self
    }

    fn checked_shl_n(self, amt: u32) -> (r: Option<Self>) {
        if amt < 64 {
            Some(self << amt)
        } else {
            None
        }
    }

    fn checked_shr_n(self, amt: u32) -> (r: Option<Self>) {
        if amt < 64 {
            Some(self >> amt)
        } else {
            None
        }
    }
}


// ---------------------------------------------------------------------------
// The atoms, one generic function each.
// ---------------------------------------------------------------------------

/// `add` (integer path) — wrapping two's-complement `a + b` modulo `2^BITS`
/// (§6.4-0001, §6.2-0002): never undefined, never saturating.
pub fn add<T: IntDtype>(a: T, b: T) -> (r: T)
    ensures
        r.ival() == wrap(a.ival() + b.ival(), T::modulus(), T::signed()),
{
    a.add(b)
}

/// `sub` (integer path) — wrapping `a - b` modulo `2^BITS` (§6.4-0001).
pub fn sub<T: IntDtype>(a: T, b: T) -> (r: T)
    ensures
        r.ival() == wrap(a.ival() - b.ival(), T::modulus(), T::signed()),
{
    a.sub(b)
}

/// `mul` (integer path) — wrapping `a * b` modulo `2^BITS`, high bits
/// discarded (§6.4-0001).
pub fn mul<T: IntDtype>(a: T, b: T) -> (r: T)
    ensures
        r.ival() == wrap(a.ival() * b.ival(), T::modulus(), T::signed()),
{
    a.mul(b)
}

/// `neg` (integer path) — wrapping negate (§6.4-0003, §6.4-0005):
/// `neg(INT_MIN) = INT_MIN`.
pub fn neg<T: IntDtype>(a: T) -> (r: T)
    ensures
        r.ival() == wrap(-a.ival(), T::modulus(), T::signed()),
{
    a.neg()
}

/// `abs` (integer path) — wrapping absolute value on a signed dtype
/// (`abs(INT_MIN) = INT_MIN`, §6.4-0005); the identity on an unsigned one.
pub fn abs<T: IntDtype>(a: T) -> (r: T)
    ensures
        r.ival() == (if T::signed() && a.ival() < 0 {
            wrap(-a.ival(), T::modulus(), true)
        } else {
            a.ival()
        }),
{
    a.abs()
}

/// `bit_and` — `a & b` over the bit pattern (§6.10-0002).
pub fn bit_and<T: IntDtype>(a: T, b: T) -> (r: T)
    ensures
        r == a.and_spec(b),
{
    a.bit_and(b)
}

/// `bit_or` — `a | b` over the bit pattern (§6.10-0002).
pub fn bit_or<T: IntDtype>(a: T, b: T) -> (r: T)
    ensures
        r == a.or_spec(b),
{
    a.bit_or(b)
}

/// `bit_xor` — `a ^ b` over the bit pattern (§6.10-0002).
pub fn bit_xor<T: IntDtype>(a: T, b: T) -> (r: T)
    ensures
        r == a.xor_spec(b),
{
    a.bit_xor(b)
}

/// `bit_not` — the ones' complement of the bit pattern (§6.10-0002).
pub fn bit_not<T: IntDtype>(a: T) -> (r: T)
    ensures
        r == a.not_spec(),
{
    a.bit_not()
}

/// The pinned shift domain `[0, BITS)` (§6.10-0004): a negative or too-large
/// amount is the single "target-defined" case.
pub open spec fn shift_in_domain<T: IntDtype>(amt: i64) -> bool {
    0 <= amt < T::width()
}

fn in_domain<T: IntDtype>(amt: i64) -> (r: Option<u32>)
    ensures
        r == (if shift_in_domain::<T>(amt) {
            Some(amt as u32)
        } else {
            None
        }),
{
    if amt < 0 || amt >= T::bits() as i64 {
        None
    } else {
        Some(amt as u32)
    }
}

/// `shl` — logical left shift (§6.10-0003): `Some(a << amt)` for `amt` in
/// `[0, BITS)`, `None` (target-defined, §6.10-0004) otherwise.
pub fn shl<T: IntDtype>(a: T, amt: i64) -> (r: Option<T>)
    ensures
        r == (if shift_in_domain::<T>(amt) {
            Some(a.shl_spec(amt as u32))
        } else {
            None
        }),
{
    match in_domain::<T>(amt) {
        Some(n) => a.checked_shl_n(n),
        None => None,
    }
}

/// `shr` — arithmetic right shift on a signed dtype, logical on an unsigned one
/// (§6.10-0003): `Some(a >> amt)` for `amt` in `[0, BITS)`, `None` otherwise.
pub fn shr<T: IntDtype>(a: T, amt: i64) -> (r: Option<T>)
    ensures
        r == (if shift_in_domain::<T>(amt) {
            Some(a.shr_spec(amt as u32))
        } else {
            None
        }),
{
    match in_domain::<T>(amt) {
        Some(n) => a.checked_shr_n(n),
        None => None,
    }
}

/// `popcount` — the set-bit count of the pattern (§6.10-0005).
pub fn popcount<T: IntDtype>(a: T) -> (r: u32)
    ensures
        r == popcount_spec(wrap(a.ival(), T::modulus(), false) as nat, T::width()),
{
    a.popcount()
}

/// `clz` — leading zeros of the pattern; `clz(0) = BITS` (§6.10-0005).
pub fn clz<T: IntDtype>(a: T) -> (r: u32)
    ensures
        r == clz_spec(wrap(a.ival(), T::modulus(), false) as nat, T::width()),
{
    a.clz()
}

/// `ctz` — trailing zeros of the pattern; `ctz(0) = BITS` (§6.10-0005).
pub fn ctz<T: IntDtype>(a: T) -> (r: u32)
    ensures
        r == ctz_spec(wrap(a.ival(), T::modulus(), false) as nat, T::width()),
{
    a.ctz()
}

/// Two integer results agree iff they are equal — integers have no NaN class.
pub fn agree_int<T: IntDtype>(a: T, b: T) -> (r: bool)
    ensures
        r == (a == b),
{
    a.equals(b)
}


// ---------------------------------------------------------------------------
// Integer differential utilities (Conform §6.5).
// ---------------------------------------------------------------------------

/// `2^k`, for `k <= 64`.
fn pow2_i128(k: u32) -> (p: i128)
    requires
        k <= 64,
    ensures
        p == vstd::arithmetic::power2::pow2(k as nat),
{
    let mut p: i128 = 1;
    let mut i: u32 = 0;
    proof {
        vstd::arithmetic::power2::lemma2_to64();
    }
    while i < k
        invariant
            i <= k <= 64,
            p == vstd::arithmetic::power2::pow2(i as nat),
        decreases k - i,
    {
        proof {
            vstd::arithmetic::power2::lemma_pow2_unfold((i + 1) as nat);
            vstd::arithmetic::power2::lemma_pow2_strictly_increases(i as nat, 64);
            vstd::arithmetic::power2::lemma2_to64_rest();
        }
        p = p * 2;
        i += 1;
    }
    p
}

/// The integer reading of edge value `i` of a dtype: `0`, `1`, `MAX`, `MIN`,
/// `MIN+1`, `MAX-1`, all-ones, the sign-bit-only pattern, the `0x55…` and
/// `0xAA…` patterns, each power of two `2^k` for `k < BITS`, and (signed only)
/// `-1`.
pub open spec fn edge_ival<T: IntDtype>(i: int) -> int {
    let m = T::modulus();
    let s = T::signed();
    let w = T::width();
    let half = vstd::arithmetic::power2::pow2((w - 1) as nat);
    let max = if s {
        wrap(half - 1, m, s)
    } else {
        wrap(m - 1, m, s)
    };
    let min = if s {
        wrap(half as int, m, s)
    } else {
        wrap(0, m, s)
    };
    if i == 0 {
        wrap(0, m, s)
    } else if i == 1 {
        wrap(1, m, s)
    } else if i == 2 {
        max
    } else if i == 3 {
        min
    } else if i == 4 {
        wrap(min + 1, m, s)
    } else if i == 5 {
        wrap(max - 1, m, s)
    } else if i == 6 {
        wrap(-1, m, s)
    } else if i == 7 {
        wrap(half as int, m, s)
    } else if i == 8 {
        wrap(0x5555_5555_5555_5555, m, s)
    } else if i == 9 {
        wrap(0xAAAA_AAAA_AAAA_AAAA, m, s)
    } else if i < 10 + w {
        wrap(vstd::arithmetic::power2::pow2((i - 10) as nat) as int, m, s)
    } else {
        wrap(-1, m, s)
    }
}

/// The number of edge values of a dtype.
pub open spec fn edge_count<T: IntDtype>() -> int {
    10 + T::width() + (if T::signed() {
        1int
    } else {
        0
    })
}

/// The edge-case values every integer corpus includes: the boundaries and the
/// bit patterns where a sloppy implementation diverges.
pub fn int_edge_vec<T: IntDtype>() -> (v: Vec<T>)
    ensures
        v@.len() == edge_count::<T>(),
        forall|i: int| 0 <= i < v@.len() ==> (#[trigger] v@[i]).ival() == edge_ival::<T>(i),
{
    let w = T::bits();
    let half = pow2_i128(w - 1);
    let full = pow2_i128(w);
    let zero = T::from_seed(0);
    let one = T::from_seed(1);
    let all_ones = T::from_wide(-1);
    let sign_bit = T::from_wide(half);
    let signed = T::is_signed();
    let max = if signed {
        T::from_wide(half - 1)
    } else {
        T::from_wide(full - 1)
    };
    let min = if signed {
        sign_bit
    } else {
        zero
    };
    let mut v: Vec<T> = Vec::new();
    v.push(zero);
    v.push(one);
    v.push(max);
    v.push(min);
    v.push(min.add(one));
    v.push(max.sub(one));
    v.push(all_ones);
    v.push(sign_bit);
    v.push(T::from_seed(0x5555_5555_5555_5555));
    v.push(T::from_seed(0xAAAA_AAAA_AAAA_AAAA));
    proof {
        assert(one.ival() == wrap(1, T::modulus(), T::signed()));
        assert(T::modulus() >= 256) by {
            vstd::arithmetic::power2::lemma2_to64();
            if w > 8 {
                vstd::arithmetic::power2::lemma_pow2_strictly_increases(8, w as nat);
            }
        }
        vstd::arithmetic::div_mod::lemma_small_mod(1, T::modulus() as nat);
        assert(wrap(1, T::modulus(), T::signed()) == 1);
    }
    let mut k: u32 = 0;
    while k < w
        invariant
            w == T::width(),
            8 <= w <= 64,
            k <= w,
            v@.len() == 10 + k,
            forall|i: int| 0 <= i < v@.len() ==> (#[trigger] v@[i]).ival() == edge_ival::<T>(i),
        decreases w - k,
    {
        let p = pow2_i128(k);
        v.push(T::from_wide(p));
        k += 1;
    }
    if signed {
        v.push(one.neg());
    }
    v
}

/// The state of a generator seeded with `seed` after `j` draws.
pub open spec fn splitmix_after(seed: u64, j: nat) -> u64
    decreases j,
{
    if j == 0 {
        seed
    } else {
        splitmix_state(splitmix_after(seed, (j - 1) as nat))
    }
}

/// A reproducible integer corpus: the edges, then `n` splitmix-seeded draws
/// narrowed to `BITS` bits. The same `seed` and `n` give the same corpus.
pub fn int_corpus<T: IntDtype>(seed: u64, n: usize) -> (v: Vec<T>)
    ensures
        v@.len() == edge_count::<T>() + n,
        forall|i: int| 0 <= i < edge_count::<T>() ==> (#[trigger] v@[i]).ival() == edge_ival::<T>(i),
        forall|j: int|
            0 <= j < n ==> (#[trigger] v@[edge_count::<T>() + j]).ival() == wrap(
                splitmix_output(splitmix_after(seed, (j + 1) as nat)) as int,
                T::modulus(),
                T::signed(),
            ),
{
    let mut rng = SplitMix64::new(seed);
    let mut v = int_edge_vec::<T>();
    let ghost e = edge_count::<T>();
    let mut j: usize = 0;
    while j < n
        invariant
            j <= n,
            e == edge_count::<T>(),
            v@.len() == e + j,
            rng.0 == splitmix_after(seed, j as nat),
            forall|i: int| 0 <= i < e ==> (#[trigger] v@[i]).ival() == edge_ival::<T>(i),
            forall|q: int|
                0 <= q < j ==> (#[trigger] v@[e + q]).ival() == wrap(
                    splitmix_output(splitmix_after(seed, (q + 1) as nat)) as int,
                    T::modulus(),
                    T::signed(),
                ),
        decreases n - j,
    {
        let d = rng.next_u64();
        v.push(T::from_seed(d));
        proof {
            assert(v@[e + j as int] == v@.last());
        }
        j += 1;
    }
    v
}


/// One divergence found by the integer differential runner.
#[derive(Debug, Clone, Copy)]
pub struct IntDivergence<T: IntDtype> {
    pub a: T,
    pub b: T,
    pub oracle: T,
    pub candidate: T,
}

/// Whether `i` is one of the entries of `idx`.
pub open spec fn listed(idx: Seq<int>, i: int) -> bool {
    exists|k: int| 0 <= k < idx.len() && idx[k] == i
}

/// Whether the oracle and the candidate can give one and the same result on `a`.
pub open spec fn agreed_on<T, F: Fn(T) -> T, G: Fn(T) -> T>(f: F, g: G, a: T) -> bool {
    exists|o: T, c: T| call_ensures(f, (a,), o) && call_ensures(g, (a,), c) && o == c
}

/// Difference a unary integer candidate against the oracle over the corpus:
/// one divergence, in corpus order, for each input on which the two results
/// differ (the record's `b` repeats `a`); on every other input the results
/// agreed.
pub fn diff_int_unary<T: IntDtype>(
    oracle: impl Fn(T) -> T,
    candidate: impl Fn(T) -> T,
    corpus: &[T],
) -> (out: Vec<IntDivergence<T>>)
    requires
        forall|a: T| call_requires(oracle, (a,)) && call_requires(candidate, (a,)),
    ensures
        exists|idx: Seq<int>|
            {
                &&& idx.len() == out@.len()
                &&& forall|k1: int, k2: int| 0 <= k1 < k2 < idx.len() ==> idx[k1] < idx[k2]
                &&& forall|k: int|
                    #![trigger idx[k]]
                    0 <= k < idx.len() ==> 0 <= idx[k] < corpus@.len() && out@[k].a
                        == corpus@[idx[k]] && out@[k].b == corpus@[idx[k]] && call_ensures(
                        oracle,
                        (corpus@[idx[k]],),
                        out@[k].oracle,
                    ) && call_ensures(candidate, (corpus@[idx[k]],), out@[k].candidate)
                        && out@[k].oracle != out@[k].candidate
                &&& forall|i: int|
                    #![trigger listed(idx, i)]
                    0 <= i < corpus@.len() && !listed(idx, i) ==> agreed_on(
                        oracle,
                        candidate,
                        corpus@[i],
                    )
            },
{
    let mut out: Vec<IntDivergence<T>> = Vec::new();
    let ghost mut idx: Seq<int> = seq![];
    let mut i: usize = 0;
    while i < corpus.len()
        invariant
            i <= corpus@.len(),
            forall|a: T| call_requires(oracle, (a,)) && call_requires(candidate, (a,)),
            idx.len() == out@.len(),
            forall|k1: int, k2: int| 0 <= k1 < k2 < idx.len() ==> idx[k1] < idx[k2],
            forall|k: int|
                #![trigger idx[k]]
                0 <= k < idx.len() ==> 0 <= idx[k] < i && out@[k].a == corpus@[idx[k]] && out@[k].b
                    == corpus@[idx[k]] && call_ensures(oracle, (corpus@[idx[k]],), out@[k].oracle)
                    && call_ensures(candidate, (corpus@[idx[k]],), out@[k].candidate)
                    && out@[k].oracle != out@[k].candidate,
            forall|j: int|
                #![trigger listed(idx, j)]
                0 <= j < i && !listed(idx, j) ==> agreed_on(oracle, candidate, corpus@[j]),
        decreases corpus.len() - i,
    {
        let a = corpus[i];
        let o = oracle(a);
        let c = candidate(a);
        if !agree_int(o, c) {
            out.push(IntDivergence { a, b: a, oracle: o, candidate: c });
            proof {
                let old_idx = idx;
                idx = idx.push(i as int);
                assert forall|j: int|
                    #![trigger listed(idx, j)]
                    0 <= j < i + 1 && !listed(idx, j) implies agreed_on(
                    oracle,
                    candidate,
                    corpus@[j],
                ) by {
                    if j < i {
                        if listed(old_idx, j) {
                            let k = choose|k: int| 0 <= k < old_idx.len() && old_idx[k] == j;
                            assert(idx[k] == j);
                        }
                    } else {
                        assert(idx[idx.len() - 1] == j);
                    }
                }
            }
        } else {
            proof {
                assert forall|j: int|
                    #![trigger listed(idx, j)]
                    0 <= j < i + 1 && !listed(idx, j) implies agreed_on(
                    oracle,
                    candidate,
                    corpus@[j],
                ) by {
                    if j == i {
                        assert(call_ensures(oracle, (corpus@[j],), o) && call_ensures(
                            candidate,
                            (corpus@[j],),
                            c,
                        ) && o == c);
                    }
                }
            }
        }
        i += 1;
    }
    out
}


/// Whether `(i, j)` is one of the entries of `idx`.
pub open spec fn listed2(idx: Seq<(int, int)>, i: int, j: int) -> bool {
    exists|k: int| 0 <= k < idx.len() && idx[k] == (i, j)
}

/// Whether `p` precedes `q` in row-major order.
pub open spec fn before(p: (int, int), q: (int, int)) -> bool {
    p.0 < q.0 || (p.0 == q.0 && p.1 < q.1)
}

/// Whether the binary oracle and candidate can give one and the same result on
/// `(a, b)`.
pub open spec fn agreed_on2<T, F: Fn(T, T) -> T, G: Fn(T, T) -> T>(f: F, g: G, a: T, b: T) -> bool {
    exists|o: T, c: T| call_ensures(f, (a, b), o) && call_ensures(g, (a, b), c) && o == c
}

/// Difference a binary integer candidate against the oracle over all ordered
/// pairs of the corpus: one divergence, in row-major order, for each pair on
/// which the two results differ; on every other pair the results agreed.
pub fn diff_int_binary<T: IntDtype>(
    oracle: impl Fn(T, T) -> T,
    candidate: impl Fn(T, T) -> T,
    corpus: &[T],
) -> (out: Vec<IntDivergence<T>>)
    requires
        forall|a: T, b: T| call_requires(oracle, (a, b)) && call_requires(candidate, (a, b)),
    ensures
        exists|idx: Seq<(int, int)>|
            {
                &&& idx.len() == out@.len()
                &&& forall|k1: int, k2: int|
                    0 <= k1 < k2 < idx.len() ==> before(#[trigger] idx[k1], #[trigger] idx[k2])
                &&& forall|k: int|
                    #![trigger idx[k]]
                    0 <= k < idx.len() ==> 0 <= idx[k].0 < corpus@.len() && 0 <= idx[k].1
                        < corpus@.len() && out@[k].a == corpus@[idx[k].0] && out@[k].b
                        == corpus@[idx[k].1] && call_ensures(
                        oracle,
                        (corpus@[idx[k].0], corpus@[idx[k].1]),
                        out@[k].oracle,
                    ) && call_ensures(
                        candidate,
                        (corpus@[idx[k].0], corpus@[idx[k].1]),
                        out@[k].candidate,
                    ) && out@[k].oracle != out@[k].candidate
                &&& forall|i: int, j: int|
                    #![trigger listed2(idx, i, j)]
                    0 <= i < corpus@.len() && 0 <= j < corpus@.len() && !listed2(idx, i, j)
                        ==> agreed_on2(oracle, candidate, corpus@[i], corpus@[j])
            },
{
    let mut out: Vec<IntDivergence<T>> = Vec::new();
    let ghost mut idx: Seq<(int, int)> = seq![];
    let n = corpus.len();
    let mut i: usize = 0;
    while i < n
        invariant
            n == corpus@.len(),
            i <= n,
            forall|a: T, b: T| call_requires(oracle, (a, b)) && call_requires(candidate, (a, b)),
            idx.len() == out@.len(),
            forall|k1: int, k2: int|
                0 <= k1 < k2 < idx.len() ==> before(#[trigger] idx[k1], #[trigger] idx[k2]),
            forall|k: int| #![trigger idx[k]] 0 <= k < idx.len() ==> idx[k].0 < i,
            forall|k: int|
                #![trigger idx[k]]
                0 <= k < idx.len() ==> 0 <= idx[k].0 < n && 0 <= idx[k].1 < n && out@[k].a
                    == corpus@[idx[k].0] && out@[k].b == corpus@[idx[k].1] && call_ensures(
                    oracle,
                    (corpus@[idx[k].0], corpus@[idx[k].1]),
                    out@[k].oracle,
                ) && call_ensures(
                    candidate,
                    (corpus@[idx[k].0], corpus@[idx[k].1]),
                    out@[k].candidate,
                ) && out@[k].oracle != out@[k].candidate,
            forall|i2: int, j2: int|
                #![trigger listed2(idx, i2, j2)]
                0 <= i2 < i && 0 <= j2 < n && !listed2(idx, i2, j2) ==> agreed_on2(
                    oracle,
                    candidate,
                    corpus@[i2],
                    corpus@[j2],
                ),
        decreases n - i,
    {
        let mut j: usize = 0;
        while j < n
            invariant
                n == corpus@.len(),
                i < n,
                j <= n,
                forall|a: T, b: T| call_requires(oracle, (a, b)) && call_requires(candidate, (a, b)),
                idx.len() == out@.len(),
                forall|k1: int, k2: int|
                    0 <= k1 < k2 < idx.len() ==> before(#[trigger] idx[k1], #[trigger] idx[k2]),
                forall|k: int|
                    #![trigger idx[k]]
                    0 <= k < idx.len() ==> idx[k].0 < i || (idx[k].0 == i && idx[k].1 < j),
                forall|k: int|
                    #![trigger idx[k]]
                    0 <= k < idx.len() ==> 0 <= idx[k].0 < n && 0 <= idx[k].1 < n && out@[k].a
                        == corpus@[idx[k].0] && out@[k].b == corpus@[idx[k].1] && call_ensures(
                        oracle,
                        (corpus@[idx[k].0], corpus@[idx[k].1]),
                        out@[k].oracle,
                    ) && call_ensures(
                        candidate,
                        (corpus@[idx[k].0], corpus@[idx[k].1]),
                        out@[k].candidate,
                    ) && out@[k].oracle != out@[k].candidate,
                forall|i2: int, j2: int|
                    #![trigger listed2(idx, i2, j2)]
                    0 <= j2 < n && (0 <= i2 < i || (i2 == i && j2 < j)) && !listed2(idx, i2, j2)
                        ==> agreed_on2(oracle, candidate, corpus@[i2], corpus@[j2]),
            decreases n - j,
        {
            let a = corpus[i];
            let b = corpus[j];
            let o = oracle(a, b);
            let c = candidate(a, b);
            if !agree_int(o, c) {
                out.push(IntDivergence { a, b, oracle: o, candidate: c });
                proof {
                    let old_idx = idx;
                    idx = idx.push((i as int, j as int));
                    assert forall|i2: int, j2: int|
                        #![trigger listed2(idx, i2, j2)]
                        0 <= j2 < n && (0 <= i2 < i || (i2 == i && j2 < j + 1)) && !listed2(
                            idx,
                            i2,
                            j2,
                        ) implies agreed_on2(oracle, candidate, corpus@[i2], corpus@[j2]) by {
                        if i2 == i && j2 == j {
                            assert(idx[idx.len() - 1] == (i2, j2));
                        } else if listed2(old_idx, i2, j2) {
                            let k = choose|k: int| 0 <= k < old_idx.len() && old_idx[k] == (i2, j2);
                            assert(idx[k] == (i2, j2));
                        }
                    }
                }
            } else {
                proof {
                    assert forall|i2: int, j2: int|
                        #![trigger listed2(idx, i2, j2)]
                        0 <= j2 < n && (0 <= i2 < i || (i2 == i && j2 < j + 1)) && !listed2(
                            idx,
                            i2,
                            j2,
                        ) implies agreed_on2(oracle, candidate, corpus@[i2], corpus@[j2]) by {
                        if i2 == i && j2 == j {
                            assert(call_ensures(oracle, (corpus@[i2], corpus@[j2]), o)
                                && call_ensures(candidate, (corpus@[i2], corpus@[j2]), c) && o
                                == c);
                        }
                    }
                }
            }
            j += 1;
        }
        i += 1;
    }
    out
}

} // verus!
