use kiss_conformance::hp::consts::{ln2, pi_over_2, two_over_pi_bit, two_over_pi_window};
use kiss_conformance::hp::reduction::{reduce_trig_core, rescale_ulps};
use kiss_conformance::hp::{
    decide_at_width, round_atom_to_f32, round_atom_to_f64, round_to_f32, round_to_f64, Atom, BigFloat, EvalPrecision, Evaluated,
    FpClass,
};
use std::cmp::Ordering;

fn exact<const N: usize>(val: BigFloat<N>) -> Evaluated<N> {
    Evaluated { val, err_ulps: 0 }
}

#[test]
fn integers_are_normalized_with_the_lsb_weight_convention() {
    let one = BigFloat::<4>::one();
    assert_eq!(one.class, FpClass::Normal);
    assert_eq!(one.mant, [0x8000_0000_0000_0000, 0, 0, 0]);
    assert_eq!(one.exp, -255);
    assert_eq!(one.ebin(), 0);
    let minus_three = BigFloat::<4>::from_i64(-3);
    assert!(minus_three.sign);
    assert_eq!(minus_three.mant[0], 0xC000_0000_0000_0000);
    assert_eq!(minus_three.ebin(), 1);
    assert!(BigFloat::<4>::from_u64(0).is_zero());
    assert!(minus_three.check_invariant());
    let bad = BigFloat::<4>::from_limbs(false, 0, [1, 0, 0, 0], FpClass::Normal);
    assert!(!bad.check_invariant());
}

#[test]
fn small_integers_round_to_their_ieee_patterns() {
    let r = round_to_f64(&exact(BigFloat::<4>::one()));
    assert_eq!(r.bits, 0x3FF0_0000_0000_0000);
    assert!(r.decided);
    assert_eq!(r.eval_precision, EvalPrecision::WiderThanCompute);
    assert_eq!(r.cert.stabilized_precision_bits, 256);
    assert_eq!(round_to_f64(&exact(BigFloat::<4>::from_u64(3))).bits, 0x4008_0000_0000_0000);
    assert_eq!(round_to_f64(&exact(BigFloat::<4>::from_i64(-2))).bits, 0xC000_0000_0000_0000);
    assert_eq!(round_to_f32(&exact(BigFloat::<4>::one())).bits, 0x3F80_0000);
    assert_eq!(round_to_f32(&exact(BigFloat::<8>::from_u64(3))).bits, 0x4040_0000);
}

#[test]
fn specials_round_to_their_encodings() {
    assert_eq!(round_to_f64(&exact(BigFloat::<4>::zero(true))).bits, 0x8000_0000_0000_0000);
    let inf = BigFloat::<4>::from_limbs(false, 0, [0; 4], FpClass::Inf);
    assert_eq!(round_to_f64(&exact(inf)).bits, 0x7FF0_0000_0000_0000);
    let nan = BigFloat::<4>::from_limbs(true, 0, [0; 4], FpClass::NaN);
    assert_eq!(round_to_f64(&exact(nan)).bits, 0x7FF8_0000_0000_0000);
    assert_eq!(round_to_f32(&exact(nan)).bits, 0x7FC0_0000);
}

#[test]
fn rounding_is_to_nearest_ties_to_even() {
    // 2^53 + 1 is a tie between 2^53 and 2^53 + 2: the even neighbour wins.
    let tie = BigFloat::<4>::from_u64((1u64 << 53) + 1);
    assert_eq!(round_to_f64(&exact(tie)).bits, 0x4340_0000_0000_0000);
    // 2^53 + 3 ties between 2^53 + 2 and 2^53 + 4: 2^53 + 4 has the even significand.
    let tie_up = BigFloat::<4>::from_u64((1u64 << 53) + 3);
    assert_eq!(round_to_f64(&exact(tie_up)).bits, 0x4340_0000_0000_0002);
    // Far below the subnormal range the result is a signed zero.
    let tiny = BigFloat::<4>::one().ldexp(-2000);
    assert_eq!(round_to_f64(&exact(tiny)).bits, 0);
    // Far above the normal range the result is infinity.
    let huge = BigFloat::<4>::one().ldexp(2000);
    assert_eq!(round_to_f64(&exact(huge)).bits, 0x7FF0_0000_0000_0000);
}

#[test]
fn an_error_bound_wider_than_the_boundary_distance_is_undecided() {
    let tie = BigFloat::<4>::from_u64((1u64 << 53) + 1);
    let r = round_to_f64(&Evaluated { val: tie, err_ulps: 1 });
    assert!(!r.decided);
}

#[test]
fn ordering_is_sign_aware_and_zeros_compare_equal() {
    let one = BigFloat::<4>::one();
    let two = BigFloat::<4>::from_u64(2);
    let minus_two = BigFloat::<4>::from_i64(-2);
    assert_eq!(one.cmp(&two), Ordering::Less);
    assert_eq!(minus_two.cmp(&one), Ordering::Less);
    assert_eq!(two.cmp(&one), Ordering::Greater);
    assert_eq!(BigFloat::<4>::zero(true).cmp(&BigFloat::<4>::zero(false)), Ordering::Equal);
    let nan = BigFloat::<4>::from_limbs(false, 0, [0; 4], FpClass::NaN);
    assert_eq!(nan.cmp(&two), Ordering::Greater);
    assert_eq!(one.neg().cmp(&one.abs()), Ordering::Less);
}

#[test]
fn integer_rounding_breaks_ties_to_even() {
    let five = BigFloat::<4>::from_u64(5);
    assert_eq!(five.ldexp(-1).round_to_i64(), 2);
    assert_eq!(BigFloat::<4>::from_u64(7).ldexp(-1).round_to_i64(), 4);
    assert_eq!(BigFloat::<4>::from_i64(-5).ldexp(-1).round_to_i64(), -2);
    assert_eq!(BigFloat::<4>::from_u64(11).ldexp(-2).round_to_i64(), 3);
    assert_eq!(BigFloat::<4>::zero(false).round_to_i64(), 0);
}

#[test]
fn width_changes_keep_or_flag_the_value() {
    let x = BigFloat::<4>::from_limbs(false, -255, [0x8000_0000_0000_0000, 0, 0, 7], FpClass::Normal);
    let wide: BigFloat<8> = x.widen::<8>();
    assert_eq!(wide.exp, -255 - 256);
    assert_eq!(wide.mant[3], 7);
    let (narrow, err) = x.narrow::<2>();
    assert_eq!(narrow.exp, -255 + 128);
    assert_eq!(err, 1);
    let (exact_narrow, none) = BigFloat::<4>::one().narrow::<1>();
    assert_eq!(exact_narrow.mant, [0x8000_0000_0000_0000]);
    assert_eq!(none, 0);
}

#[test]
fn distances_compare_against_u128_bounds() {
    let a = BigFloat::<4>::from_limbs(false, 0, [0, 0, 0, 9], FpClass::Normal);
    let b = BigFloat::<4>::from_limbs(false, 0, [0, 0, 0, 4], FpClass::Normal);
    let d = a.abs_diff_limbs(&b);
    assert_eq!(d, [0, 0, 0, 5]);
    assert_eq!(b.abs_diff_limbs(&a), [0, 0, 0, 5]);
    assert!(BigFloat::<4>::dist_gt_err(&d, 4));
    assert!(!BigFloat::<4>::dist_gt_err(&d, 5));
    assert!(BigFloat::<4>::dist_gt_err(&[0, 1, 0, 0], u128::MAX));
}

#[test]
fn constant_tables_read_at_working_width() {
    let (l, err) = ln2::<4>();
    assert_eq!(l.mant[0], 0xB17217F7D1CF79AB);
    assert_eq!(l.exp, -1 - 255);
    assert_eq!(err, 1);
    let (p, _) = pi_over_2::<2>();
    assert_eq!(p.mant, [0xC90FDAA22168C234, 0xC4C6628B80DC1CD1]);
    // 2/pi = 0.1010 0010 ... in binary.
    assert_eq!(two_over_pi_bit(1), 1);
    assert_eq!(two_over_pi_bit(2), 0);
    assert_eq!(two_over_pi_bit(3), 1);
    assert_eq!(two_over_pi_bit(2305), 0);
}

#[test]
fn error_bounds_rescale_between_ulp_scales() {
    assert_eq!(rescale_ulps(3, 2, 0), 12);
    assert_eq!(rescale_ulps(5, 0, 2), 2);
    assert_eq!(rescale_ulps(4, 0, 2), 1);
    assert_eq!(rescale_ulps(0, 9, 0), 0);
    assert_eq!(rescale_ulps(1, 200, 0), u128::MAX);
    assert_eq!(rescale_ulps(1, 0, 200), 1);
    assert_eq!(rescale_ulps(u128::MAX, 1, 0), u128::MAX);
}

#[test]
fn arithmetic_results_are_correctly_rounded() {
    let one = BigFloat::<4>::one();
    let three = BigFloat::<4>::from_u64(3);
    let (nine, err) = three.mul(&three);
    assert_eq!(err, 0);
    assert_eq!(round_to_f64(&exact(nine)).bits, 0x4022_0000_0000_0000);
    let (two, err) = one.add(&one);
    assert_eq!(err, 0);
    assert_eq!(round_to_f64(&exact(two)).bits, 0x4000_0000_0000_0000);
    let (two_again, err) = three.sub(&one);
    assert_eq!(err, 0);
    assert_eq!(two_again.cmp(&two), Ordering::Equal);
    let (zero, err) = one.sub(&one);
    assert_eq!(err, 0);
    assert_eq!(zero.class, FpClass::Zero);
    assert!(!zero.sign);
    let (minus_six, err) = three.mul_small_int(-2);
    assert_eq!(err, 0);
    assert_eq!(round_to_f64(&exact(minus_six)).bits, 0xC018_0000_0000_0000);
    // 2^300 + 1 needs 301 bits: at 256 bits the 1 is rounded away.
    let (sum, err) = one.ldexp(300).add(&one);
    assert_eq!(err, 1);
    assert_eq!(sum.cmp(&one.ldexp(300)), Ordering::Equal);
}

#[test]
fn division_rounds_once_and_both_forms_agree() {
    let one = BigFloat::<4>::one();
    let three = BigFloat::<4>::from_u64(3);
    let (third, err) = one.div(&three);
    assert_eq!(err, 1);
    assert_eq!(round_to_f64(&exact(third)).bits, 0x3FD5_5555_5555_5555);
    let (third_small, err_small) = one.div_small(3);
    assert_eq!(err_small, 1);
    assert_eq!(third_small.mant, third.mant);
    assert_eq!(third_small.exp, third.exp);
    let (half, err) = one.div_small(2);
    assert_eq!(err, 0);
    assert_eq!(round_to_f64(&exact(half)).bits, 0x3FE0_0000_0000_0000);
    let (same, err) = three.div_small(1);
    assert_eq!(err, 0);
    assert_eq!(same.mant, three.mant);
    let (inf, _) = one.div_small(0);
    assert_eq!(inf.class, FpClass::Inf);
    let (nan, _) = BigFloat::<4>::zero(false).div(&BigFloat::<4>::zero(true));
    assert_eq!(nan.class, FpClass::NaN);
    let (signed_inf, _) = BigFloat::<4>::from_i64(-1).div(&BigFloat::<4>::zero(false));
    assert_eq!(signed_inf.class, FpClass::Inf);
    assert!(signed_inf.sign);
}

#[test]
fn two_over_pi_windows_read_msb_first() {
    assert_eq!(two_over_pi_window(1, 4), (vec![0b1010], 4));
    assert_eq!(two_over_pi_window(1, 8), (vec![0xA2], 8));
    assert_eq!(two_over_pi_window(1, 64), (vec![0xA2F9_836E_4E44_1529], 64));
    // 65 bits: the low limb comes first.
    assert_eq!(two_over_pi_window(1, 65), (vec![0x45F3_06DC_9C88_2A53, 1], 65));
    assert_eq!(two_over_pi_window(2305 - 4, 2304).1, 4);
}

#[test]
fn payne_hanek_reduces_to_the_nearest_octant() {
    // 1.0 = 2^52 * 2^-52: 2/pi ~ 0.64 rounds up to 1, so r = 1 - pi/2 < 0.
    let red = reduce_trig_core::<4>(1u64 << 52, -52);
    assert_eq!(red.octant, 1);
    assert!(red.r.sign);
    let r = round_to_f64(&Evaluated { val: red.r, err_ulps: red.err_ulps });
    assert!(r.decided);
    assert_eq!(r.bits, 0xBFE2_43F6_A888_5A31);
    // 2.0: 4/pi ~ 1.27 rounds down to 1, so r = 2 - pi/2 > 0.
    let red2 = reduce_trig_core::<4>(1u64 << 52, -51);
    assert_eq!(red2.octant, 1);
    assert!(!red2.r.sign);
    let r2 = round_to_f64(&Evaluated { val: red2.r, err_ulps: red2.err_ulps });
    assert_eq!(r2.bits, 0x3FDB_7812_AEEF_4B9F);
    assert!(red2.err_ulps >= 1);
}

struct Third;

impl Atom for Third {
    fn eval_spec<const N: usize>(&self) -> Evaluated<N> {
        self.eval::<N>()
    }

    fn eval<const N: usize>(&self) -> Evaluated<N> {
        let (val, err_ulps) = BigFloat::<N>::one().div_small(3);
        Evaluated { val, err_ulps }
    }
}

/// A value sitting exactly on a binary64 tie with a nonzero error bound:
/// no width can decide it.
struct Straddle;

impl Atom for Straddle {
    fn eval_spec<const N: usize>(&self) -> Evaluated<N> {
        self.eval::<N>()
    }

    fn eval<const N: usize>(&self) -> Evaluated<N> {
        Evaluated { val: BigFloat::<N>::from_u64((1u64 << 53) + 1), err_ulps: 1 }
    }
}

#[test]
fn escalation_stops_at_the_first_deciding_width() {
    let r = round_atom_to_f64(&Third).expect("1/3 decides at 256 bits");
    assert_eq!(r.bits, 0x3FD5_5555_5555_5555);
    assert_eq!(r.cert.stabilized_precision_bits, 256);
    let r32 = round_atom_to_f32(&Third).expect("1/3 decides at 256 bits");
    assert_eq!(r32.bits, 0x3EAA_AAAB);
    assert!(round_atom_to_f64(&Straddle).is_none());
}

#[test]
fn one_width_decides_only_an_acceptable_decided_rounding() {
    let one = decide_at_width(&exact(BigFloat::<4>::one()), true).expect("1 decides");
    assert_eq!(one.bits, 0x3FF0_0000_0000_0000);
    assert_eq!(one.cert.stabilized_precision_bits, 256);
    let one32 = decide_at_width(&exact(BigFloat::<4>::one()), false).expect("1 decides");
    assert_eq!(one32.bits, 0x3F80_0000);
    let tie = Evaluated { val: BigFloat::<4>::from_u64((1u64 << 53) + 1), err_ulps: 1 };
    assert!(decide_at_width(&tie, true).is_none());
    let bad = BigFloat::<4>::from_limbs(false, 0, [1, 0, 0, 0], FpClass::Normal);
    assert!(decide_at_width(&exact(bad), true).is_none());
}

#[test]
fn sums_of_small_integers_are_exact() {
    let cases: [(i64, i64); 5] = [(5, -7), (1 << 61, (1 << 61) - 1), (-3, -4), (12, -12), (0, 9)];
    for (a, b) in cases {
        let (sum, err) = BigFloat::<4>::from_i64(a).add(&BigFloat::<4>::from_i64(b));
        let want = BigFloat::<4>::from_i64(a + b);
        assert_eq!(err, 0);
        assert_eq!((sum.sign, sum.exp, sum.mant, sum.class), (want.sign, want.exp, want.mant, want.class));
    }
    let (cancel, _) = BigFloat::<4>::from_i64(-12).add(&BigFloat::<4>::from_i64(12));
    assert_eq!(cancel.class, FpClass::Zero);
    assert!(!cancel.sign);
}

#[test]
fn dividing_by_a_small_integer_matches_wide_division() {
    let xs: [i64; 4] = [1, -7, 1 << 40, 123_456_789];
    let ns: [u64; 5] = [2, 3, 10, 255, u64::MAX];
    for a in xs {
        for n in ns {
            let x = BigFloat::<4>::from_i64(a);
            let (q, e) = x.div_small(n);
            let (q2, e2) = x.div(&BigFloat::<4>::from_u64(n));
            assert_eq!((q.sign, q.exp, q.mant, q.class, e), (q2.sign, q2.exp, q2.mant, q2.class, e2));
        }
    }
}

#[test]
fn integers_round_back_to_themselves_and_halves_to_even() {
    for k in [1i64, -1, 42, -(1 << 61), (1 << 61) + 12345, (1 << 62) - 1] {
        assert_eq!(BigFloat::<4>::from_i64(k).round_to_i64(), k);
    }
    assert_eq!(BigFloat::<4>::from_i64(5).div_small(2).0.round_to_i64(), 2);
    assert_eq!(BigFloat::<4>::from_i64(7).div_small(2).0.round_to_i64(), 4);
    assert_eq!(BigFloat::<4>::from_i64(-5).div_small(2).0.round_to_i64(), -2);
    assert_eq!(BigFloat::<4>::zero(false).round_to_i64(), 0);
}
