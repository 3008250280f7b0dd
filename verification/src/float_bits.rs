//! Floating-point numbers as their bits.
//!
//! A single-precision number is a `u32` here: one sign bit, eight of exponent,
//! 23 of fraction. Nothing in this module rounds.
use vstd::arithmetic::power2::*;
use vstd::prelude::*;

verus! {

/// The bits of positive infinity.
pub const INFINITY: u32 = 0x7F80_0000;

/// The bits of a number that is not one.
pub const NOT_A_NUMBER: u32 = 0x7FC0_0000;

/// The fields of a half-precision number: sign, exponent, fraction.
pub open spec fn half_fields(h: u16) -> (int, int, int) {
    (h as int / 0x8000, h as int / 0x400 % 0x20, h as int % 0x400)
}

/// The fields of a single-precision number: sign, exponent, fraction.
pub open spec fn single_fields(x: u32) -> (int, int, int) {
    (x as int / 0x8000_0000, x as int / 0x80_0000 % 0x100, x as int % 0x80_0000)
}

/// The single-precision number with the given fields.
pub open spec fn single_of(sign: int, exp: int, frac: int) -> int {
    sign * 0x8000_0000 + exp * 0x80_0000 + frac
}

/// The size of a finite half-precision number, in units of `2^-24`.
pub open spec fn half_magnitude(h: u16) -> nat {
    let (_, exp, frac) = half_fields(h);
    if exp == 0 {
        frac as nat
    } else {
        ((0x400 + frac) * pow2((exp - 1) as nat)) as nat
    }
}

/// The size of a finite single-precision number, in units of `2^-149`.
pub open spec fn single_magnitude(x: u32) -> nat {
    let (_, exp, frac) = single_fields(x);
    if exp == 0 {
        frac as nat
    } else {
        ((0x80_0000 + frac) * pow2((exp - 1) as nat)) as nat
    }
}

/// How often a fraction has to be doubled for its leading bit to reach the place
/// of the hidden one.
pub open spec fn leading_shift(frac: int) -> nat
    decreases 0x800 - frac,
{
    if frac <= 0 || frac >= 0x400 {
        0
    } else {
        1 + leading_shift(2 * frac)
    }
}

/// The single-precision number that a half-precision one widens to.
pub open spec fn widened_half(h: u16) -> u32 {
    let (sign, exp, frac) = half_fields(h);
    if exp == 0 && frac == 0 {
        single_of(sign, 0, 0) as u32
    } else if exp == 0 {
        let k = leading_shift(frac);
        single_of(sign, 113 - k, (frac * pow2(k) - 0x400) * 0x2000) as u32
    } else if exp == 0x1f {
        single_of(sign, 0xff, frac * 0x2000) as u32
    } else {
        single_of(sign, exp + 112, frac * 0x2000) as u32
    }
}

proof fn leading_shift_normalises(frac: int)
    requires
        0 < frac < 0x800,
    ensures
        leading_shift(frac) <= 10,
        frac < 0x400 ==> 0x400 <= frac * pow2(leading_shift(frac)) < 0x800,
        frac >= 0x400 ==> leading_shift(frac) == 0,
        frac >= 1 ==> leading_shift(frac) <= 10,
        frac >= 2 ==> leading_shift(frac) <= 9,
        frac >= 4 ==> leading_shift(frac) <= 8,
        frac >= 8 ==> leading_shift(frac) <= 7,
        frac >= 16 ==> leading_shift(frac) <= 6,
        frac >= 32 ==> leading_shift(frac) <= 5,
        frac >= 64 ==> leading_shift(frac) <= 4,
        frac >= 128 ==> leading_shift(frac) <= 3,
        frac >= 256 ==> leading_shift(frac) <= 2,
        frac >= 512 ==> leading_shift(frac) <= 1,
    decreases 0x800 - frac,
{
    if frac < 0x400 {
        leading_shift_normalises(2 * frac);
        let k = leading_shift(2 * frac);
        lemma_pow2_unfold(k + 1);
        assert(frac * pow2(k + 1) == (2 * frac) * pow2(k)) by (nonlinear_arith)
            requires
                pow2(k + 1) == 2 * pow2(k),
        ;
        lemma2_to64();
        if 2 * frac >= 0x400 {
            assert(k == 0);
            assert((2 * frac) * pow2(k) == 2 * frac) by (nonlinear_arith)
                requires
                    pow2(k) == 1,
            ;
        }
    }
}

proof fn fields_of_single(sign: int, exp: int, frac: int)
    requires
        0 <= sign <= 1,
        0 <= exp <= 0xff,
        0 <= frac < 0x80_0000,
    ensures
        0 <= single_of(sign, exp, frac) <= u32::MAX,
        single_fields(single_of(sign, exp, frac) as u32) == (sign, exp, frac),
{
    let x = single_of(sign, exp, frac);
    assert(x / 0x80_0000 == sign * 0x100 + exp);
    assert(x / 0x8000_0000 == sign);
    assert(x % 0x80_0000 == frac);
}

/// Widening keeps the sign, keeps infinities and not-a-numbers what they are, and
/// keeps the value of every finite number, subnormal ones too.
pub proof fn widening_half_is_exact(h: u16)
    ensures
        ({
            let (sign, exp, frac) = half_fields(h);
            let (wide_sign, wide_exp, wide_frac) = single_fields(widened_half(h));
            &&& wide_sign == sign
            &&& exp == 0x1f <==> wide_exp == 0xff
            &&& exp == 0x1f ==> wide_frac == frac * 0x2000
            &&& exp < 0x1f ==> single_magnitude(widened_half(h)) == half_magnitude(h) * pow2(125)
        }),
{
    let (sign, exp, frac) = half_fields(h);
    if exp == 0 && frac == 0 {
        fields_of_single(sign, 0, 0);
        assert(half_magnitude(h) * pow2(125) == 0) by (nonlinear_arith)
            requires
                half_magnitude(h) == 0,
        ;
    } else if exp == 0 {
        let k = leading_shift(frac);
        leading_shift_normalises(frac);
        let f = frac * pow2(k) - 0x400;
        fields_of_single(sign, 113 - k, f * 0x2000);
        lemma_pow2_adds(13, (112 - k) as nat);
        lemma_pow2_adds(k, (125 - k) as nat);
        lemma2_to64();
        assert((0x80_0000 + f * 0x2000) * pow2((112 - k) as nat) == frac * pow2(125))
            by (nonlinear_arith)
            requires
                f == frac * pow2(k) - 0x400,
                pow2(13) == 0x2000,
                pow2(13) * pow2((112 - k) as nat) == pow2((125 - k) as nat),
                pow2(k) * pow2((125 - k) as nat) == pow2(125),
        ;
    } else if exp == 0x1f {
        fields_of_single(sign, 0xff, frac * 0x2000);
    } else {
        fields_of_single(sign, exp + 112, frac * 0x2000);
        lemma_pow2_adds(13, (exp + 111) as nat);
        lemma_pow2_adds((exp - 1) as nat, 125);
        lemma2_to64();
        assert((0x80_0000 + frac * 0x2000) * pow2((exp + 111) as nat) == (0x400 + frac) * pow2(
            (exp - 1) as nat,
        ) * pow2(125)) by (nonlinear_arith)
            requires
                pow2(13) == 0x2000,
                pow2(13) * pow2((exp + 111) as nat) == pow2((exp + 124) as nat),
                pow2((exp - 1) as nat) * pow2(125) == pow2((exp + 124) as nat),
        ;
    }
}

/// Half precision widened to single precision.
pub fn f16_to_f32(h: u16) -> (r: u32)
    ensures
        r == widened_half(h),
{
    let sign: u32 = (h / 0x8000) as u32;
    let exp: u32 = (h / 0x400 % 0x20) as u32;
    let frac: u32 = (h % 0x400) as u32;
    let top: u32 = sign * 0x8000_0000;
    if exp == 0 {
        if frac == 0 {
            return top;
        }
        proof {
            leading_shift_normalises(frac as int);
            lemma2_to64();
            assert(frac == frac * pow2(0)) by (nonlinear_arith)
                requires
                    pow2(0) == 1,
            ;
        }
        let mut e: u32 = 113;
        let mut f: u32 = frac;
        while f < 0x400
            invariant
                0 < frac < 0x400,
                0 < f < 0x800,
                e <= 113,
                e + leading_shift(frac as int) == 113 + leading_shift(f as int),
                leading_shift(frac as int) <= 10,
                f == frac * pow2((113 - e) as nat),
            decreases 0x800 - f,
        {
            proof {
                lemma_pow2_unfold((114 - e) as nat);
                assert(2 * f == frac * pow2((114 - e) as nat)) by (nonlinear_arith)
                    requires
                        f == frac * pow2((113 - e) as nat),
                        pow2((114 - e) as nat) == 2 * pow2((113 - e) as nat),
                ;
            }
            f = f * 2;
            e = e - 1;
        }
        assert(leading_shift(f as int) == 0);
        return top + e * 0x80_0000 + (f - 0x400) * 0x2000;
    }
    if exp == 0x1f {
        return top + 0xff * 0x80_0000 + frac * 0x2000;
    }
    top + (exp + 112) * 0x80_0000 + frac * 0x2000
}

/// A `bfloat16` widened to single precision: it is the upper half of one.
pub open spec fn widened_brain(h: u16) -> u32 {
    (h as int * 0x1_0000) as u32
}

/// Widening a `bfloat16` loses nothing: its bits are the upper half of the result,
/// and the lower half is zero.
pub proof fn widening_brain_is_exact(h: u16)
    ensures
        widened_brain(h) / 0x1_0000 == h,
        widened_brain(h) % 0x1_0000 == 0,
{
}

/// A `bfloat16` widened to single precision.
pub fn bf16_to_f32(h: u16) -> (r: u32)
    ensures
        r == widened_brain(h),
{
    h as u32 * 0x1_0000
}

/// Neither an infinity nor a not-a-number.
pub open spec fn is_finite_bits(x: u32) -> bool {
    single_fields(x).1 != 0xff
}

/// Whether the number is neither an infinity nor a not-a-number.
pub fn is_finite(x: u32) -> (r: bool)
    ensures
        r == is_finite_bits(x),
{
    x / 0x80_0000 % 0x100 != 0xff
}

pub open spec fn is_nan_bits(x: u32) -> bool {
    single_fields(x).1 == 0xff && single_fields(x).2 != 0
}

/// A place on the line of numbers: ascends with the number, and both zeros are 0.
pub open spec fn line_place(x: u32) -> int {
    let magnitude = x as int % 0x8000_0000;
    if x as int / 0x8000_0000 == 0 {
        magnitude
    } else {
        -magnitude
    }
}

/// `x > y` as floating-point numbers compare: false when either is not a number.
pub open spec fn exceeds(x: u32, y: u32) -> bool {
    !is_nan_bits(x) && !is_nan_bits(y) && line_place(x) > line_place(y)
}

/// Whether `x > y`, as floating-point numbers compare.
pub fn greater_than(x: u32, y: u32) -> (r: bool)
    ensures
        r == exceeds(x, y),
{
    let x_nan: bool = x / 0x80_0000 % 0x100 == 0xff && x % 0x80_0000 != 0;
    let y_nan: bool = y / 0x80_0000 % 0x100 == 0xff && y % 0x80_0000 != 0;
    if x_nan || y_nan {
        return false;
    }
    let a: i64 = (x % 0x8000_0000) as i64;
    let b: i64 = (y % 0x8000_0000) as i64;
    let pa: i64 = if x / 0x8000_0000 == 0 {
        a
    } else {
        -a
    };
    let pb: i64 = if y / 0x8000_0000 == 0 {
        b
    } else {
        -b
    };
    pa > pb
}

/// `x <= y` as floating-point numbers compare: false when either is not a number.
pub open spec fn at_most(x: u32, y: u32) -> bool {
    !is_nan_bits(x) && !is_nan_bits(y) && line_place(x) <= line_place(y)
}

/// Whether `x <= y`, as floating-point numbers compare.
pub fn no_more_than(x: u32, y: u32) -> (r: bool)
    ensures
        r == at_most(x, y),
{
    let x_nan: bool = x / 0x80_0000 % 0x100 == 0xff && x % 0x80_0000 != 0;
    let y_nan: bool = y / 0x80_0000 % 0x100 == 0xff && y % 0x80_0000 != 0;
    if x_nan || y_nan {
        return false;
    }
    !greater_than(x, y)
}

/// The value of a finite single-precision number, in units of `2^-149`.
pub open spec fn single_value(x: u32) -> int {
    if x < 0x8000_0000 {
        single_magnitude(x) as int
    } else {
        -(single_magnitude(x) as int)
    }
}

/// What the fields of a number say of it: without its sign, it is finite below the
/// bits of infinity, infinite at them, and not a number above.
pub proof fn bits_tell_the_kind(x: u32)
    ensures
        is_finite_bits(x) <==> x % 0x8000_0000 < 0x7F80_0000,
        is_nan_bits(x) <==> x % 0x8000_0000 > 0x7F80_0000,
{
}

/// The sign bit does not change how large a number is, and the bits of larger numbers
/// are larger.
proof fn magnitude_ascends(x: u32, y: u32)
    requires
        x % 0x8000_0000 < y % 0x8000_0000,
        y % 0x8000_0000 < 0x7F80_0000,
    ensures
        single_magnitude(x) < single_magnitude(y),
{
    let (_, ex, fx) = single_fields(x);
    let (_, ey, fy) = single_fields(y);
    assert(x % 0x8000_0000 == ex * 0x80_0000 + fx);
    assert(y % 0x8000_0000 == ey * 0x80_0000 + fy);
    if ex == ey {
        if ex > 0 {
            let p = pow2((ex - 1) as nat);
            lemma_pow2_pos((ex - 1) as nat);
            assert((0x80_0000 + fx) * p < (0x80_0000 + fy) * p) by (nonlinear_arith)
                requires
                    fx < fy,
                    p > 0,
            ;
        }
    } else {
        let q = pow2((ey - 1) as nat);
        lemma_pow2_pos((ey - 1) as nat);
        if ex == 0 {
            assert((0x80_0000 + fy) * q >= 0x80_0000) by (nonlinear_arith)
                requires
                    fy >= 0,
                    q >= 1,
            ;
        } else {
            let p = pow2((ex - 1) as nat);
            lemma_pow2_pos((ex - 1) as nat);
            lemma_pow2_unfold(ex as nat);
            if ex < ey - 1 {
                lemma_pow2_strictly_increases(ex as nat, (ey - 1) as nat);
            }
            assert((0x80_0000 + fx) * p < (0x80_0000 + fy) * q) by (nonlinear_arith)
                requires
                    0 <= fx < 0x80_0000,
                    fy >= 0,
                    p > 0,
                    q >= 2 * p,
            ;
        }
    }
}

proof fn magnitude_ignores_the_sign(x: u32, y: u32)
    requires
        x % 0x8000_0000 == y % 0x8000_0000,
    ensures
        single_magnitude(x) == single_magnitude(y),
{
    let n = (x % 0x8000_0000) as int;
    assert(single_fields(x).1 == n / 0x80_0000 && single_fields(x).2 == n % 0x80_0000);
    assert(single_fields(y).1 == n / 0x80_0000 && single_fields(y).2 == n % 0x80_0000);
}

proof fn only_zero_has_no_size(x: u32)
    ensures
        single_magnitude(x) == 0 <==> x % 0x8000_0000 == 0,
{
    if x % 0x8000_0000 == 0 {
        assert(single_fields(x).1 == 0 && single_fields(x).2 == 0);
    } else if single_fields(x).1 == 0 {
        assert(single_fields(x).2 == x % 0x8000_0000);
    } else {
        let (_, e, f) = single_fields(x);
        let p = pow2((e - 1) as nat);
        lemma_pow2_pos((e - 1) as nat);
        assert((0x80_0000 + f) * p > 0) by (nonlinear_arith)
            requires
                f >= 0,
                p > 0,
        ;
    }
}

/// Comparing finite numbers compares their values; comparing with a not-a-number holds
/// never, and an infinity is beyond every finite number.
pub proof fn comparing_is_by_value(x: u32, y: u32)
    ensures
        is_finite_bits(x) && is_finite_bits(y) ==> (exceeds(x, y) <==> single_value(x)
            > single_value(y)),
        is_finite_bits(x) && is_finite_bits(y) ==> (at_most(x, y) <==> single_value(x)
            <= single_value(y)),
        is_nan_bits(x) || is_nan_bits(y) ==> !exceeds(x, y) && !at_most(x, y),
        is_finite_bits(y) ==> exceeds(0x7F80_0000, y) && exceeds(y, 0xFF80_0000),
        exceeds(0x7F80_0000, 0xFF80_0000) && at_most(0x7F80_0000, 0x7F80_0000),
        at_most(0xFF80_0000, 0xFF80_0000),
{
    bits_tell_the_kind(x);
    bits_tell_the_kind(y);
    let m = x % 0x8000_0000;
    let n = y % 0x8000_0000;
    only_zero_has_no_size(x);
    only_zero_has_no_size(y);
    if m < n && is_finite_bits(y) {
        magnitude_ascends(x, y);
    } else if n < m && is_finite_bits(x) {
        magnitude_ascends(y, x);
    } else if m == n {
        magnitude_ignores_the_sign(x, y);
    }
}

/// The bits of numbers that are neither negative nor a not-a-number order as the
/// numbers do, and those of negative ones the other way round.
pub proof fn bits_order_as_numbers(x: u32, y: u32)
    ensures
        x <= 0x7F80_0000 && y <= 0x7F80_0000 ==> (exceeds(x, y) <==> x > y),
        0x8000_0000 <= x <= 0xFF80_0000 && 0x8000_0000 <= y <= 0xFF80_0000 ==> (exceeds(x, y)
            <==> x < y),
        x <= 0x7F80_0000 && 0x8000_0000 <= y <= 0xFF80_0000 ==> (exceeds(x, y) <==> !(x == 0 && y
            == 0x8000_0000)) && !exceeds(y, x),
{
}

/// Widening half precision, by the bits: the sign stays, a number of size `n` units of
/// `2^-24` becomes one of as many units, infinity becomes infinity, and a not-a-number
/// stays one.
pub proof fn widening_half_by_bits(h: u16)
    ensures
        (widened_half(h) < 0x8000_0000) == (h < 0x8000),
        h % 0x8000 < 0x400 ==> single_magnitude(widened_half(h)) == (h % 0x8000) as nat * pow2(125),
        0x400 <= h % 0x8000 < 0x7c00 ==> single_magnitude(widened_half(h)) == (0x400 + h % 0x400)
            as nat * pow2((h % 0x8000 / 0x400 - 1) as nat) * pow2(125),
        h % 0x8000 == 0x7c00 ==> widened_half(h) % 0x8000_0000 == 0x7F80_0000,
        h % 0x8000 > 0x7c00 ==> is_nan_bits(widened_half(h)),
{
    widening_half_is_exact(h);
    let (sign, exp, frac) = half_fields(h);
    assert(h % 0x8000 == exp * 0x400 + frac);
    let w = widened_half(h);
    assert(w % 0x8000_0000 == single_fields(w).1 * 0x80_0000 + single_fields(w).2);
}

} // verus!
