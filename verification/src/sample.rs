//! Channel and index values, and the scaling between their ranges.

use vstd::prelude::*;

verus! {

/// The luminance of a colour, as the `image` crate computes it: the three
/// channels weighted by 2126, 7152 and 722 parts in 10000, rounded down.
pub open spec fn srgb_luma(r: nat, g: nat, b: nat) -> nat {
    (2126 * r + 7152 * g + 722 * b) / 10000
}

/// The luminance of a colour lies between its channels: it is no more than
/// the largest of them, and a gray colour has its own value as luminance.
pub proof fn lemma_srgb_luma_bounds(r: nat, g: nat, b: nat, max: nat)
    requires
        r <= max,
        g <= max,
        b <= max,
    ensures
        srgb_luma(r, g, b) <= max,
        r == g && g == b ==> srgb_luma(r, g, b) == r,
{
    assert(2126 * r + 7152 * g + 722 * b <= 10000 * max);
    assert((10000 * max) / 10000 == max);
    if r == g && g == b {
        assert(2126 * r + 7152 * g + 722 * b == 10000 * r);
    }
}

/// Calls `image::Pixel::to_luma_alpha` on an `image::Rgba<u8>` and hands
/// back the two channels of the result, luminance first. The crate weighs
/// the three colour channels by 2126, 7152 and 722, divides the sum by
/// 10000 in whole numbers, and hands the alpha channel through as it is.
#[verifier::external_body]
fn rgba_to_luma_alpha_u8(r: u8, g: u8, b: u8, a: u8) -> (la: (u8, u8))
    ensures
        la.0 == srgb_luma(r as nat, g as nat, b as nat),
        la.1 == a,
{
    let la = image::Pixel::to_luma_alpha(&image::Rgba([r, g, b, a]));
    (la.0[0], la.0[1])
}

/// Calls `image::Pixel::to_luma_alpha` on an `image::Rgba<u16>` and hands
/// back the two channels of the result, luminance first. The crate weighs
/// the three colour channels by 2126, 7152 and 722, divides the sum by
/// 10000 in whole numbers, and hands the alpha channel through as it is.
#[verifier::external_body]
fn rgba_to_luma_alpha_u16(r: u16, g: u16, b: u16, a: u16) -> (la: (u16, u16))
    ensures
        la.0 == srgb_luma(r as nat, g as nat, b as nat),
        la.1 == a,
{
    let la = image::Pixel::to_luma_alpha(&image::Rgba([r, g, b, a]));
    (la.0[0], la.0[1])
}

/// Calls `image::Pixel::to_luma_alpha` on an `image::Rgba<u32>` and hands
/// back the two channels of the result, luminance first. The crate weighs
/// the three colour channels by 2126, 7152 and 722, divides the sum by
/// 10000 in whole numbers, and hands the alpha channel through as it is.
#[verifier::external_body]
fn rgba_to_luma_alpha_u32(r: u32, g: u32, b: u32, a: u32) -> (la: (u32, u32))
    ensures
        la.0 == srgb_luma(r as nat, g as nat, b as nat),
        la.1 == a,
{
    let la = image::Pixel::to_luma_alpha(&image::Rgba([r, g, b, a]));
    (la.0[0], la.0[1])
}

/// A channel or index value of an unsigned, bounded integer type.
///
/// Every value lies between zero and the maximum of its type, and every
/// conversion between formats scales through that maximum. The samples of
/// 8, 16 and 32 bits are at hand.
pub trait Sample: Copy {
    /// The largest value of the type.
    spec fn max_spec() -> nat;

    /// The number that a value stands for.
    spec fn value(self) -> nat;

    /// The luminance of a colour with these three channels.
    spec fn luma_of_rgb_spec(r: Self, g: Self, b: Self) -> Self;

    /// The luminance of a colour stands for the weighted sum of the numbers
    /// of its channels.
    proof fn lemma_luma_of_rgb(r: Self, g: Self, b: Self)
        ensures
            Self::luma_of_rgb_spec(r, g, b).value() == srgb_luma(r.value(), g.value(), b.value()),
    ;

    /// The maximum is positive and fits in 32 bits, and no value exceeds it.
    proof fn lemma_value_bounds(v: Self)
        ensures
            0 < Self::max_spec() <= u32::MAX,
            v.value() <= Self::max_spec(),
    ;

    /// A value is determined by the number it stands for, so that the
    /// numbers of a series of samples determine the series.
    proof fn lemma_value_injective(a: Self, b: Self)
        requires
            a.value() == b.value(),
        ensures
            a == b,
    ;

    /// The largest value of the type.
    fn max_value() -> (m: u32)
        ensures
            m == Self::max_spec(),
    ;

    /// The number that the value stands for.
    fn to_u32(self) -> (v: u32)
        ensures
            v == self.value(),
    ;

    /// The value that stands for `v`.
    fn from_u32(v: u32) -> (s: Self)
        requires
            v <= Self::max_spec(),
        ensures
            s.value() == v,
    ;

    /// A colour with alpha read as luminance with alpha, luminance first.
    fn rgba_to_luma_alpha(r: Self, g: Self, b: Self, a: Self) -> (la: (Self, Self))
        ensures
            la.0 == Self::luma_of_rgb_spec(r, g, b),
            la.1 == a,
    ;
}

impl Sample for u8 {
    open spec fn max_spec() -> nat {
        0xFF
    }

    open spec fn value(self) -> nat {
        self as nat
    }

    open spec fn luma_of_rgb_spec(r: u8, g: u8, b: u8) -> u8 {
        srgb_luma(r as nat, g as nat, b as nat) as u8
    }

    proof fn lemma_luma_of_rgb(r: u8, g: u8, b: u8) {
        lemma_srgb_luma_bounds(r as nat, g as nat, b as nat, u8::MAX as nat);
    }

    proof fn lemma_value_bounds(v: u8) {
    }

    proof fn lemma_value_injective(a: u8, b: u8) {
    }

    /// The largest value of the type.
    fn max_value() -> (m: u32) {
        0xFF
    }

    /// The number that the value stands for.
    fn to_u32(self) -> (v: u32) {
        self as u32
    }

    fn from_u32(v: u32) -> (s: u8) {
        v as u8
    }

    fn rgba_to_luma_alpha(r: u8, g: u8, b: u8, a: u8) -> (la: (u8, u8)) {
        rgba_to_luma_alpha_u8(r, g, b, a)
    }
}

impl Sample for u16 {
    open spec fn max_spec() -> nat {
        0xFFFF
    }

    open spec fn value(self) -> nat {
        self as nat
    }

    open spec fn luma_of_rgb_spec(r: u16, g: u16, b: u16) -> u16 {
        srgb_luma(r as nat, g as nat, b as nat) as u16
    }

    proof fn lemma_luma_of_rgb(r: u16, g: u16, b: u16) {
        lemma_srgb_luma_bounds(r as nat, g as nat, b as nat, u16::MAX as nat);
    }

    proof fn lemma_value_bounds(v: u16) {
    }

    proof fn lemma_value_injective(a: u16, b: u16) {
    }

    /// The largest value of the type.
    fn max_value() -> (m: u32) {
        0xFFFF
    }

    /// The number that the value stands for.
    fn to_u32(self) -> (v: u32) {
        self as u32
    }

    fn from_u32(v: u32) -> (s: u16) {
        v as u16
    }

    fn rgba_to_luma_alpha(r: u16, g: u16, b: u16, a: u16) -> (la: (u16, u16)) {
        rgba_to_luma_alpha_u16(r, g, b, a)
    }
}

impl Sample for u32 {
    open spec fn max_spec() -> nat {
        0xFFFF_FFFF
    }

    open spec fn value(self) -> nat {
        self as nat
    }

    open spec fn luma_of_rgb_spec(r: u32, g: u32, b: u32) -> u32 {
        srgb_luma(r as nat, g as nat, b as nat) as u32
    }

    proof fn lemma_luma_of_rgb(r: u32, g: u32, b: u32) {
        lemma_srgb_luma_bounds(r as nat, g as nat, b as nat, u32::MAX as nat);
    }

    proof fn lemma_value_bounds(v: u32) {
    }

    proof fn lemma_value_injective(a: u32, b: u32) {
    }

    /// The largest value of the type.
    fn max_value() -> (m: u32) {
        0xFFFF_FFFF
    }

    /// The number that the value stands for.
    fn to_u32(self) -> (v: u32) {
        self
    }

    fn from_u32(v: u32) -> (s: u32) {
        v
    }

    fn rgba_to_luma_alpha(r: u32, g: u32, b: u32, a: u32) -> (la: (u32, u32)) {
        rgba_to_luma_alpha_u32(r, g, b, a)
    }
}

/// The numbers that a series of samples stands for.
pub open spec fn sample_values<S: Sample>(samples: Seq<S>) -> Seq<nat> {
    Seq::new(samples.len(), |i: int| samples[i].value())
}

/// A value `v` of a range that ends at `from_max`, carried over to the range
/// that ends at `to_max`: `v * to_max / from_max`, rounded down.
pub open spec fn rescale(v: nat, from_max: nat, to_max: nat) -> nat {
    (v * to_max) / from_max
}

/// A rescaled value never leaves the target range.
pub proof fn lemma_rescale_bounded(v: nat, from_max: nat, to_max: nat)
    requires
        0 < from_max,
        v <= from_max,
    ensures
        rescale(v, from_max, to_max) <= to_max,
{
    assert(v * to_max <= from_max * to_max) by (nonlinear_arith)
        requires
            v <= from_max,
    ;
    assert((from_max * to_max) / from_max == to_max) by (nonlinear_arith)
        requires
            0 < from_max,
    ;
    assert((v * to_max) / from_max <= (from_max * to_max) / from_max) by (nonlinear_arith)
        requires
            0 < from_max,
            v * to_max <= from_max * to_max,
    ;
}

/// A value `v` of a range that ends at `from_max`, carried over to the range
/// that ends at `to_max` and rounded to the nearest number, a half rounded
/// up: `v * to_max / from_max + 1/2`, rounded down.
pub open spec fn rescale_nearest(v: nat, from_max: nat, to_max: nat) -> nat {
    (2 * v * to_max + from_max) / (2 * from_max)
}

/// A value rounded to the nearest never leaves the target range, and lies
/// no more than one above the value rounded down.
pub proof fn lemma_rescale_nearest_bounded(v: nat, from_max: nat, to_max: nat)
    requires
        0 < from_max,
        v <= from_max,
    ensures
        rescale(v, from_max, to_max) <= rescale_nearest(v, from_max, to_max) <= rescale(
            v,
            from_max,
            to_max,
        ) + 1,
        rescale_nearest(v, from_max, to_max) <= to_max,
{
    let n = v * to_max;
    let d = from_max;
    let q = n / d;
    let r = n % d;
    assert(n == q * d + r && 0 <= r < d) by (nonlinear_arith)
        requires
            q == n / d,
            r == n % d,
            0 < d,
            0 <= n,
    ;
    assert(2 * v * to_max == 2 * n) by (nonlinear_arith)
        requires
            n == v * to_max,
    ;
    let m = 2 * n + d;
    // m lies in [2qd, 2(q+2)d), so the quotient by 2d is q or q + 1
    assert(q * (2 * d) <= m < (q + 2) * (2 * d)) by (nonlinear_arith)
        requires
            m == 2 * n + d,
            n == q * d + r,
            0 <= r < d,
    ;
    assert(q <= m / (2 * d) <= q + 1) by (nonlinear_arith)
        requires
            q * (2 * d) <= m < (q + 2) * (2 * d),
            0 < d,
    ;
    assert(n <= d * to_max) by (nonlinear_arith)
        requires
            n == v * to_max,
            v <= d,
    ;
    assert(m / (2 * d) <= to_max) by (nonlinear_arith)
        requires
            m == 2 * n + d,
            n <= d * to_max,
            0 < d,
    ;
}

/// Rounding to the nearest between equal ranges changes nothing.
pub proof fn lemma_rescale_nearest_same_range(v: nat, max: nat)
    requires
        0 < max,
    ensures
        rescale_nearest(v, max, max) == v,
{
    assert((2 * v * max + max) / (2 * max) == v) by (nonlinear_arith)
        requires
            0 < max,
            0 <= v,
    ;
}

/// Rescaling between equal ranges changes nothing.
pub proof fn lemma_rescale_same_range(v: nat, max: nat)
    requires
        0 < max,
    ensures
        rescale(v, max, max) == v,
{
    assert((v * max) / max == v) by (nonlinear_arith)
        requires
            0 < max,
    ;
}

/// Carries `v` from the range `0..=from_max` over to `0..=to_max`, rounded
/// to the nearest number.
pub fn scale_nearest(v: u32, from_max: u32, to_max: u32) -> (r: u32)
    requires
        0 < from_max,
        v <= from_max,
    ensures
        r == rescale_nearest(v as nat, from_max as nat, to_max as nat),
        r <= to_max,
{
    proof {
        lemma_rescale_nearest_bounded(v as nat, from_max as nat, to_max as nat);
        assert(2 * v * to_max + from_max <= 2 * 0xFFFF_FFFF * 0xFFFF_FFFF + 0xFFFF_FFFF)
            by (nonlinear_arith)
            requires
                v <= 0xFFFF_FFFF,
                to_max <= 0xFFFF_FFFF,
                from_max <= 0xFFFF_FFFF,
        ;
        assert(0 <= 2 * v && 2 * v * to_max >= 0) by (nonlinear_arith)
            requires
                0 <= v,
                0 <= to_max,
        ;
    }
    let wide: u128 = 2 * (v as u128) * (to_max as u128) + (from_max as u128);
    (wide / (2 * (from_max as u128))) as u32
}

/// Carries `v` from the range `0..=from_max` over to `0..=to_max`, rounded
/// down.
pub fn scale(v: u32, from_max: u32, to_max: u32) -> (r: u32)
    requires
        0 < from_max,
        v <= from_max,
    ensures
        r == rescale(v as nat, from_max as nat, to_max as nat),
        r <= to_max,
{
    proof {
        lemma_rescale_bounded(v as nat, from_max as nat, to_max as nat);
        assert(v as u64 * to_max as u64 <= 0xFFFF_FFFF * 0xFFFF_FFFF) by (nonlinear_arith)
            requires
                v <= 0xFFFF_FFFF,
                to_max <= 0xFFFF_FFFF,
        ;
    }
    let wide: u64 = (v as u64) * (to_max as u64);
    (wide / (from_max as u64)) as u32
}

} // verus!
