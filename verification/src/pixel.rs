//! Pixels: colour with alpha, and luminance with alpha.

use vstd::prelude::*;
use crate::sample::{lemma_srgb_luma_bounds, Sample};

verus! {

/// A colour of red, green, blue and alpha channels.
#[derive(Debug, PartialEq, Eq)]
pub struct Rgba<T> {
    pub r: T,
    pub g: T,
    pub b: T,
    pub a: T,
}

impl<T: Copy> Clone for Rgba<T> {
    fn clone(&self) -> (c: Self)
        ensures
            c == *self,
    {
        *self
    }
}

impl<T: Copy> Copy for Rgba<T> {
}

/// A luminance with an alpha channel.
#[derive(Debug, PartialEq, Eq)]
pub struct LumaA<T> {
    pub luma: T,
    pub alpha: T,
}

impl<T: Copy> Clone for LumaA<T> {
    fn clone(&self) -> (c: Self)
        ensures
            c == *self,
    {
        *self
    }
}

impl<T: Copy> Copy for LumaA<T> {
}

/// A pixel that can be read as a colour and as a luminance, each with alpha.
///
/// Going from one reading to the other keeps the alpha channel; going from
/// colour to luminance loses information.
pub trait Pixel: Copy {
    /// The type of each channel.
    type Subpixel: Sample;

    /// The pixel as a colour with alpha.
    spec fn rgba(self) -> Rgba<Self::Subpixel>;

    /// The pixel as a luminance with alpha.
    spec fn luma_alpha(self) -> LumaA<Self::Subpixel>;

    /// The pixel as a colour with alpha.
    fn to_rgba(&self) -> (c: Rgba<Self::Subpixel>)
        ensures
            c == self.rgba(),
    ;

    /// The pixel as a luminance with alpha.
    fn to_luma_alpha(&self) -> (la: LumaA<Self::Subpixel>)
        ensures
            la == self.luma_alpha(),
    ;
}

impl<T: Sample> Pixel for Rgba<T> {
    type Subpixel = T;

    open spec fn rgba(self) -> Rgba<T> {
        self
    }

    open spec fn luma_alpha(self) -> LumaA<T> {
        LumaA { luma: T::luma_of_rgb_spec(self.r, self.g, self.b), alpha: self.a }
    }

    fn to_rgba(&self) -> (c: Rgba<T>) {
        *self
    }

    fn to_luma_alpha(&self) -> (la: LumaA<T>) {
        let la = T::rgba_to_luma_alpha(self.r, self.g, self.b, self.a);
        LumaA { luma: la.0, alpha: la.1 }
    }
}

impl<T: Sample> Pixel for LumaA<T> {
    type Subpixel = T;

    open spec fn rgba(self) -> Rgba<T> {
        Rgba { r: self.luma, g: self.luma, b: self.luma, a: self.alpha }
    }

    open spec fn luma_alpha(self) -> LumaA<T> {
        self
    }

    fn to_rgba(&self) -> (c: Rgba<T>) {
        Rgba { r: self.luma, g: self.luma, b: self.luma, a: self.alpha }
    }

    fn to_luma_alpha(&self) -> (la: LumaA<T>) {
        *self
    }
}

/// A colour whose three channels are equal has that value as luminance:
/// read as luminance with alpha, a gray colour keeps what it holds.
pub proof fn lemma_gray_color_keeps_luma<T: Sample>(v: T, a: T)
    ensures
        (Rgba { r: v, g: v, b: v, a: a }).luma_alpha() == (LumaA { luma: v, alpha: a }),
{
    T::lemma_value_bounds(v);
    T::lemma_luma_of_rgb(v, v, v);
    lemma_srgb_luma_bounds(v.value(), v.value(), v.value(), T::max_spec());
    T::lemma_value_injective(T::luma_of_rgb_spec(v, v, v), v);
}

} // verus!
