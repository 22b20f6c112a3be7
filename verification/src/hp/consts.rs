//! The wide constant tables the argument reductions read: the fraction bits
//! of `2/pi` (2304 bits) and the normalized significands of `ln2`, `1/ln2`,
//! `pi/2` and `sqrt2` (1152 bits each), all most significant word first and
//! truncated toward zero. A working width of `N` limbs reads the top `N`.

use vstd::prelude::*;
use vstd::arithmetic::power2::pow2;
use crate::hp::{limbs_value, limbs_weight, precision, BigFloat, FpClass};

verus! {

/// Bits stored for `2/pi`.
pub const TWO_OVER_PI_BITS: usize = 2304;
/// Bits stored for `ln2`.
pub const LN2_BITS: usize = 1152;
/// Bits stored for `1/ln2`.
pub const INV_LN2_BITS: usize = 1152;
/// Bits stored for `pi/2`.
pub const PI_OVER_2_BITS: usize = 1152;
/// Bits stored for `sqrt2`.
pub const SQRT2_BITS: usize = 1152;
/// The widest working precision, in limbs.
pub const MAX_L: usize = 16;
/// The guard bits the trigonometric reduction keeps beyond the working precision.
pub const G_C: usize = 128;

/// MSB exponent of `ln2` (in `[0.5, 1)`).
pub const LN2_EBIN: i32 = -1;
/// MSB exponent of `1/ln2` (in `[1, 2)`).
pub const INV_LN2_EBIN: i32 = 0;
/// MSB exponent of `pi/2` (in `[1, 2)`).
pub const PI_OVER_2_EBIN: i32 = 0;
/// MSB exponent of `sqrt2` (in `[1, 2)`).
pub const SQRT2_EBIN: i32 = 0;

/// Words in a significand table.
const SIG_WORDS: usize = 18;
/// The fraction bits of `2/pi`: bit `i` (1-based) has weight `2^-i`.
pub fn two_over_pi_table() -> (t: [u64; 36])
    ensures
        t@ == two_over_pi_table_spec(),
{
    let t = [
        0xA2F9836E4E441529, 0xFC2757D1F534DDC0, 0xDB6295993C439041,
        0xFE5163ABDEBBC561, 0xB7246E3A424DD2E0, 0x06492EEA09D1921C,
        0xFE1DEB1CB129A73E, 0xE88235F52EBB4484, 0xE99C7026B45F7E41,
        0x3991D639835339F4, 0x9C845F8BBDF9283B, 0x1FF897FFDE05980F,
        0xEF2F118B5A0A6D1F, 0x6D367ECF27CB09B7, 0x4F463F669E5FEA2D,
        0x7527BAC7EBE5F17B, 0x3D0739F78A5292EA, 0x6BFB5FB11F8D5D08,
        0x56033046FC7B6BAB, 0xF0CFBC209AF4361D, 0xA9E391615EE61B08,
        0x6599855F14A06840, 0x8DFFD8804D732731, 0x06061556CA73A8C9,
        0x60E27BC08C6B47C4, 0x19C367CDDCE8092A, 0x8359C4768B961CA6,
        0xDDAF44D15719053E, 0xA5FF07053F7E33E8, 0x32C2DE4F98327DBB,
        0xC33D26EF6B1E5EF8, 0x9F3A1F35CAF27F1D, 0x87F121907C7C246A,
        0xFA6ED5772D30433B, 0x15C614B59D19C3C2, 0xC4AD414D2C5D000C,
    ];
    assert(t@ =~= two_over_pi_table_spec());
    t
}

/// The words of [`two_over_pi_table`].
pub open spec fn two_over_pi_table_spec() -> Seq<u64> {
    seq![
        0xA2F9836E4E441529u64, 0xFC2757D1F534DDC0, 0xDB6295993C439041,
        0xFE5163ABDEBBC561, 0xB7246E3A424DD2E0, 0x06492EEA09D1921C,
        0xFE1DEB1CB129A73E, 0xE88235F52EBB4484, 0xE99C7026B45F7E41,
        0x3991D639835339F4, 0x9C845F8BBDF9283B, 0x1FF897FFDE05980F,
        0xEF2F118B5A0A6D1F, 0x6D367ECF27CB09B7, 0x4F463F669E5FEA2D,
        0x7527BAC7EBE5F17B, 0x3D0739F78A5292EA, 0x6BFB5FB11F8D5D08,
        0x56033046FC7B6BAB, 0xF0CFBC209AF4361D, 0xA9E391615EE61B08,
        0x6599855F14A06840, 0x8DFFD8804D732731, 0x06061556CA73A8C9,
        0x60E27BC08C6B47C4, 0x19C367CDDCE8092A, 0x8359C4768B961CA6,
        0xDDAF44D15719053E, 0xA5FF07053F7E33E8, 0x32C2DE4F98327DBB,
        0xC33D26EF6B1E5EF8, 0x9F3A1F35CAF27F1D, 0x87F121907C7C246A,
        0xFA6ED5772D30433B, 0x15C614B59D19C3C2, 0xC4AD414D2C5D000C,
    ]
}

/// The significand of `ln2`.
pub fn ln2_table() -> (t: [u64; 18])
    ensures
        t@ == ln2_table_spec(),
{
    let t = [
        0xB17217F7D1CF79AB, 0xC9E3B39803F2F6AF, 0x40F343267298B62D,
        0x8A0D175B8BAAFA2B, 0xE7B876206DEBAC98, 0x559552FB4AFA1B10,
        0xED2EAE35C1382144, 0x27573B291169B825, 0x3E96CA16224AE8C5,
        0x1ACBDA11317C387E, 0xB9EA9BC3B136603B, 0x256FA0EC7657F74B,
        0x72CE87B19D6548CA, 0xF5DFA6BD38303248, 0x655FA1872F20E3A2,
        0xDA2D97C50F3FD5C6, 0x07F4CA11FB5BFB90, 0x610D30F88FE551A2,
    ];
    assert(t@ =~= ln2_table_spec());
    t
}

/// The words of [`ln2_table`].
pub open spec fn ln2_table_spec() -> Seq<u64> {
    seq![
        0xB17217F7D1CF79ABu64, 0xC9E3B39803F2F6AF, 0x40F343267298B62D,
        0x8A0D175B8BAAFA2B, 0xE7B876206DEBAC98, 0x559552FB4AFA1B10,
        0xED2EAE35C1382144, 0x27573B291169B825, 0x3E96CA16224AE8C5,
        0x1ACBDA11317C387E, 0xB9EA9BC3B136603B, 0x256FA0EC7657F74B,
        0x72CE87B19D6548CA, 0xF5DFA6BD38303248, 0x655FA1872F20E3A2,
        0xDA2D97C50F3FD5C6, 0x07F4CA11FB5BFB90, 0x610D30F88FE551A2,
    ]
}

/// The significand of `1/ln2`.
pub fn inv_ln2_table() -> (t: [u64; 18])
    ensures
        t@ == inv_ln2_table_spec(),
{
    let t = [
        0xB8AA3B295C17F0BB, 0xBE87FED0691D3E88, 0xEB577AA8DD695A58,
        0x8B25166CD1A13247, 0xDE1C43F755176CD6, 0x24D92F75C16BE0B3,
        0xEA90B9E60C4A909F, 0xC4BFAF0353DF39B3, 0x2FE294932617D9D5,
        0xB21B43D579D5A206, 0x0B5EBBBF3A828546, 0x8D1CF457AB63253C,
        0x199A94836F5B4967, 0x278CCF084679C940, 0xCE7E20358CD5DB8F,
        0x612F08FBAE30A173, 0x2650B6D1058EBA50, 0x9638C84C5A02065F,
    ];
    assert(t@ =~= inv_ln2_table_spec());
    t
}

/// The words of [`inv_ln2_table`].
pub open spec fn inv_ln2_table_spec() -> Seq<u64> {
    seq![
        0xB8AA3B295C17F0BBu64, 0xBE87FED0691D3E88, 0xEB577AA8DD695A58,
        0x8B25166CD1A13247, 0xDE1C43F755176CD6, 0x24D92F75C16BE0B3,
        0xEA90B9E60C4A909F, 0xC4BFAF0353DF39B3, 0x2FE294932617D9D5,
        0xB21B43D579D5A206, 0x0B5EBBBF3A828546, 0x8D1CF457AB63253C,
        0x199A94836F5B4967, 0x278CCF084679C940, 0xCE7E20358CD5DB8F,
        0x612F08FBAE30A173, 0x2650B6D1058EBA50, 0x9638C84C5A02065F,
    ]
}

/// The significand of `pi/2`.
pub fn pi_over_2_table() -> (t: [u64; 18])
    ensures
        t@ == pi_over_2_table_spec(),
{
    let t = [
        0xC90FDAA22168C234, 0xC4C6628B80DC1CD1, 0x29024E088A67CC74,
        0x020BBEA63B139B22, 0x514A08798E3404DD, 0xEF9519B3CD3A431B,
        0x302B0A6DF25F1437, 0x4FE1356D6D51C245, 0xE485B576625E7EC6,
        0xF44C42E9A637ED6B, 0x0BFF5CB6F406B7ED, 0xEE386BFB5A899FA5,
        0xAE9F24117C4B1FE6, 0x49286651ECE45B3D, 0xC2007CB8A163BF05,
        0x98DA48361C55D39A, 0x69163FA8FD24CF5F, 0x83655D23DCA3AD96,
    ];
    assert(t@ =~= pi_over_2_table_spec());
    t
}

/// The words of [`pi_over_2_table`].
pub open spec fn pi_over_2_table_spec() -> Seq<u64> {
    seq![
        0xC90FDAA22168C234u64, 0xC4C6628B80DC1CD1, 0x29024E088A67CC74,
        0x020BBEA63B139B22, 0x514A08798E3404DD, 0xEF9519B3CD3A431B,
        0x302B0A6DF25F1437, 0x4FE1356D6D51C245, 0xE485B576625E7EC6,
        0xF44C42E9A637ED6B, 0x0BFF5CB6F406B7ED, 0xEE386BFB5A899FA5,
        0xAE9F24117C4B1FE6, 0x49286651ECE45B3D, 0xC2007CB8A163BF05,
        0x98DA48361C55D39A, 0x69163FA8FD24CF5F, 0x83655D23DCA3AD96,
    ]
}

/// The significand of `sqrt2`.
pub fn sqrt2_table() -> (t: [u64; 18])
    ensures
        t@ == sqrt2_table_spec(),
{
    let t = [
        0xB504F333F9DE6484, 0x597D89B3754ABE9F, 0x1D6F60BA893BA84C,
        0xED17AC8583339915, 0x4AFC83043AB8A2C3, 0xA8B1FE6FDC83DB39,
        0x0F74A85E439C7B4A, 0x780487363DFA2768, 0xD2202E8742AF1F4E,
        0x53059C6011BC337B, 0xCAB1BC911688458A, 0x460ABC722F7C4E33,
        0xC6D5A8A38BB7E9DC, 0xCB2A634331F3C84D, 0xF52F120F836E582E,
        0xEAA4A0899040CA4A, 0x81394AB6D8FD0EFD, 0xF4D3A02CEBC93E0C,
    ];
    assert(t@ =~= sqrt2_table_spec());
    t
}

/// The words of [`sqrt2_table`].
pub open spec fn sqrt2_table_spec() -> Seq<u64> {
    seq![
        0xB504F333F9DE6484u64, 0x597D89B3754ABE9F, 0x1D6F60BA893BA84C,
        0xED17AC8583339915, 0x4AFC83043AB8A2C3, 0xA8B1FE6FDC83DB39,
        0x0F74A85E439C7B4A, 0x780487363DFA2768, 0xD2202E8742AF1F4E,
        0x53059C6011BC337B, 0xCAB1BC911688458A, 0x460ABC722F7C4E33,
        0xC6D5A8A38BB7E9DC, 0xCB2A634331F3C84D, 0xF52F120F836E582E,
        0xEAA4A0899040CA4A, 0x81394AB6D8FD0EFD, 0xF4D3A02CEBC93E0C,
    ]
}

/// A significand table narrowed to `N` limbs, with the truncation flag.
fn read_sig<const N: usize>(table: [u64; 18], ebin: i32) -> (r: (BigFloat<N>, u128))
    requires
        1 <= N <= 18,
        -2 <= ebin <= 2,
    ensures
        r.0.class == FpClass::Normal,
        !r.0.sign,
        r.0.mant@ == table@.subrange(0, N as int),
        r.0.exp == ebin - (precision(N) - 1),
        r.0.mant_value() == limbs_value(table@) / limbs_weight((18 - N) as nat),
        r.1 == (if limbs_value(table@) % limbs_weight((18 - N) as nat) != 0 { 1u128 } else { 0u128 }),
{
    let wide = BigFloat::<18>::from_limbs_ebin(false, ebin, table, FpClass::Normal);
    wide.narrow::<N>()
}

/// `ln2` at `N` limbs, with 1 iff the dropped tail was nonzero.
pub fn ln2<const N: usize>() -> (r: (BigFloat<N>, u128))
    requires
        1 <= N <= 18,
    ensures
        r.0.class == FpClass::Normal,
        !r.0.sign,
        r.0.mant@ == ln2_table_spec().subrange(0, N as int),
        r.0.exp == LN2_EBIN - (precision(N) - 1),
        r.1 == (if limbs_value(ln2_table_spec()) % limbs_weight((18 - N) as nat) != 0 { 1u128 } else { 0u128 }),
{
    read_sig::<N>(ln2_table(), LN2_EBIN)
}

/// `1/ln2` at `N` limbs, with 1 iff the dropped tail was nonzero.
pub fn inv_ln2<const N: usize>() -> (r: (BigFloat<N>, u128))
    requires
        1 <= N <= 18,
    ensures
        r.0.class == FpClass::Normal,
        !r.0.sign,
        r.0.mant@ == inv_ln2_table_spec().subrange(0, N as int),
        r.0.exp == INV_LN2_EBIN - (precision(N) - 1),
        r.1 == (if limbs_value(inv_ln2_table_spec()) % limbs_weight((18 - N) as nat) != 0 { 1u128 } else { 0u128 }),
{
    read_sig::<N>(inv_ln2_table(), INV_LN2_EBIN)
}

/// `pi/2` at `N` limbs, with 1 iff the dropped tail was nonzero.
pub fn pi_over_2<const N: usize>() -> (r: (BigFloat<N>, u128))
    requires
        1 <= N <= 18,
    ensures
        r.0.class == FpClass::Normal,
        !r.0.sign,
        r.0.mant@ == pi_over_2_table_spec().subrange(0, N as int),
        r.0.exp == PI_OVER_2_EBIN - (precision(N) - 1),
        r.1 == (if limbs_value(pi_over_2_table_spec()) % limbs_weight((18 - N) as nat) != 0 { 1u128 } else { 0u128 }),
{
    read_sig::<N>(pi_over_2_table(), PI_OVER_2_EBIN)
}

/// `sqrt2` at `N` limbs, with 1 iff the dropped tail was nonzero.
pub fn sqrt2<const N: usize>() -> (r: (BigFloat<N>, u128))
    requires
        1 <= N <= 18,
    ensures
        r.0.class == FpClass::Normal,
        !r.0.sign,
        r.0.mant@ == sqrt2_table_spec().subrange(0, N as int),
        r.0.exp == SQRT2_EBIN - (precision(N) - 1),
        r.1 == (if limbs_value(sqrt2_table_spec()) % limbs_weight((18 - N) as nat) != 0 { 1u128 } else { 0u128 }),
{
    read_sig::<N>(sqrt2_table(), SQRT2_EBIN)
}

/// Bit `i` (1-based, weight `2^-i`) of the stored `2/pi` fraction; 0 past the table.
pub open spec fn two_over_pi_bit_spec(i: nat) -> nat {
    if i <= TWO_OVER_PI_BITS {
        (limbs_value(two_over_pi_table_spec()) / pow2((TWO_OVER_PI_BITS - i) as nat)) % 2
    } else {
        0
    }
}

/// Bit `i` (1-based) of the stored `2/pi` fraction; 0 past the table.
pub fn two_over_pi_bit(i: usize) -> (r: u64)
    requires
        i >= 1,
    ensures
        r == two_over_pi_bit_spec(i as nat),
{
    if i > TWO_OVER_PI_BITS {
        return 0;
    }
    let t = two_over_pi_table();
    let w = crate::hp::window64(t.as_slice(), (TWO_OVER_PI_BITS - i) as u64);
    proof {
        let x = limbs_value(t@) / pow2((TWO_OVER_PI_BITS - i) as nat);
        vstd::arithmetic::power2::lemma2_to64();
        vstd::arithmetic::power2::lemma_pow2_adds(1, 63);
        vstd::arithmetic::div_mod::lemma_mod_mod(x as int, 2, pow2(63) as int);
        crate::hp::lemma_limb_base();
    }
    w % 2
}

/// The bits `i0..=i1` of the stored `2/pi` fraction read most significant
/// first: `sum p_i * 2^(i1 - i)`.
pub open spec fn two_over_pi_window_value(i0: nat, i1: nat) -> nat {
    (limbs_value(two_over_pi_table_spec()) / pow2((TWO_OVER_PI_BITS - i1) as nat)) % pow2((i1 - i0 + 1) as nat)
}

/// The `2/pi` bits `i0..=i1` as an integer, most significant limb first.
pub(crate) fn two_over_pi_window_msw(i0: usize, i1: usize) -> (r: Vec<u64>)
    requires
        1 <= i0 <= i1 <= TWO_OVER_PI_BITS,
    ensures
        r@.len() == (i1 - i0 + 1 + 63) / 64,
        limbs_value(r@) == two_over_pi_window_value(i0 as nat, i1 as nat),
{
    let nbits = i1 - i0 + 1;
    let len = (nbits + 63) / 64;
    let t = two_over_pi_table();
    let sh: i64 = 0 - ((TWO_OVER_PI_BITS - i1) as i64);
    let shifted = crate::hp::scaled_limbs(t.as_slice(), len, sh);
    let masked = crate::hp::mask_low(shifted.as_slice(), nbits as u64);
    proof {
        let x = limbs_value(t@) / pow2((TWO_OVER_PI_BITS - i1) as nat);
        vstd::arithmetic::power2::lemma2_to64();
        if sh == 0 {
            assert(limbs_value(t@) / 1 == limbs_value(t@));
            assert(limbs_value(t@) * 1 == limbs_value(t@));
        }
        assert(crate::hp::scaled_value(limbs_value(t@), sh as int) == x);
        vstd::arithmetic::power2::lemma_pow2_adds(nbits as nat, (64 * len - nbits) as nat);
        vstd::arithmetic::power2::lemma_pow2_pos(nbits as nat);
        vstd::arithmetic::power2::lemma_pow2_pos((64 * len - nbits) as nat);
        vstd::arithmetic::div_mod::lemma_mod_mod(x as int, pow2(nbits as nat) as int,
            pow2((64 * len - nbits) as nat) as int);
        assert(limbs_weight(len as nat) == pow2(nbits as nat) * pow2((64 * len - nbits) as nat));
    }
    masked
}

/// The `2/pi` bits `i0..=i1` as an integer, least significant limb first,
/// with the bit count.
pub fn two_over_pi_window(i0: usize, i1: usize) -> (r: (Vec<u64>, usize))
    requires
        1 <= i0 <= i1 <= TWO_OVER_PI_BITS,
    ensures
        r.1 == i1 - i0 + 1,
        r.0@.len() == (r.1 + 63) / 64,
        limbs_value(r.0@.reverse()) == two_over_pi_window_value(i0 as nat, i1 as nat),
{
    let nbits = i1 - i0 + 1;
    let len = (nbits + 63) / 64;
    let masked = two_over_pi_window_msw(i0, i1);
    let mut out: Vec<u64> = Vec::new();
    let mut k: usize = len;
    while k > 0
        invariant
            k <= len == masked@.len(),
            out@.len() == len - k,
            forall|z: int| 0 <= z < out@.len() ==> out@[z] == masked@[len - 1 - z],
        decreases k,
    {
        k -= 1;
        out.push(masked[k]);
    }
    proof {
        assert(out@.reverse() =~= masked@);
    }
    (out, nbits)
}

} // verus!
