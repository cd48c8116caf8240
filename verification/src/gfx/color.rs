//! RGBA colors and the stencil blend rule.
//!
//! Blending here is a binary replace-or-keep decision keyed on the source
//! alpha being zero, not a linear interpolation: with `BlendMode::Blend` a
//! zero-alpha source keeps the destination, any other source fully replaces
//! it, alpha channel included.

use vstd::prelude::*;

verus! {

/// How a written color composites with what a pixel already holds.
#[derive(Copy, Clone, Debug, PartialEq, Eq, Structural)]
pub enum BlendMode {
    /// Always overwrite the destination with the source.
    Overwrite,
    /// Hard cutout: keep the destination when the source alpha is zero,
    /// otherwise fully replace it with the source.
    Blend,
}

/// The result a pixel holds after writing `src` over `dst` with mode `m`.
pub open spec fn spec_blend(m: BlendMode, src: Color, dst: Color) -> Color {
    match m {
        BlendMode::Overwrite => src,
        BlendMode::Blend => if src.alpha == 0 {
            dst
        } else {
            src
        },
    }
}

/// The same rule restricted to one 8-bit channel, keyed on the source alpha.
pub open spec fn spec_blend_channel(m: BlendMode, src: u8, src_alpha: u8, dst: u8) -> u8 {
    match m {
        BlendMode::Overwrite => src,
        BlendMode::Blend => if src_alpha == 0 {
            dst
        } else {
            src
        },
    }
}

impl BlendMode {
    pub(crate) fn blend(&self, src: Color, dst: Color) -> (r: Color)
        ensures
            r == spec_blend(*self, src, dst),
    {
        match self {
            Self::Overwrite => src,
            Self::Blend => {
                if src.alpha == 0 {
                    dst
                } else {
                    src
                }
            },
        }
    }

    pub(crate) fn blend_channel(&self, src: u8, src_alpha: u8, dst: u8) -> (r: u8)
        ensures
            r == spec_blend_channel(*self, src, src_alpha, dst),
    {
        match self {
            Self::Overwrite => src,
            Self::Blend => {
                if src_alpha == 0 {
                    dst
                } else {
                    src
                }
            },
        }
    }
}

/// An immutable 8-bit-per-channel RGBA color value.
#[derive(Copy, Clone, Debug, PartialEq, Eq, Structural)]
pub struct Color {
    pub red: u8,
    pub green: u8,
    pub blue: u8,
    pub alpha: u8,
}

impl Color {
    /// Opaque black.
    pub open spec fn spec_black() -> Color {
        Color { red: 0, green: 0, blue: 0, alpha: 255 }
    }

    #[verifier::when_used_as_spec(spec_black)]
    pub fn black() -> (r: Color)
        ensures
            r == Color::spec_black(),
    {
        Color { red: 0, green: 0, blue: 0, alpha: 255 }
    }

    /// Opaque white.
    pub open spec fn spec_white() -> Color {
        Color { red: 255, green: 255, blue: 255, alpha: 255 }
    }

    #[verifier::when_used_as_spec(spec_white)]
    pub fn white() -> (r: Color)
        ensures
            r == Color::spec_white(),
    {
        Color { red: 255, green: 255, blue: 255, alpha: 255 }
    }

    pub fn new(red: u8, green: u8, blue: u8, alpha: u8) -> (r: Color)
        ensures
            r == (Color { red, green, blue, alpha }),
    {
        Color { red, green, blue, alpha }
    }

    /// A fully opaque color (alpha 255).
    pub fn opaque(red: u8, green: u8, blue: u8) -> (r: Color)
        ensures
            r == (Color { red, green, blue, alpha: 255u8 }),
    {
        Color { red, green, blue, alpha: 255 }
    }

    pub fn red(&self) -> (r: u8)
        ensures
            r == self.red,
    {
        self.red
    }

    pub fn green(&self) -> (r: u8)
        ensures
            r == self.green,
    {
        self.green
    }

    pub fn blue(&self) -> (r: u8)
        ensures
            r == self.blue,
    {
        self.blue
    }

    pub fn alpha(&self) -> (r: u8)
        ensures
            r == self.alpha,
    {
        self.alpha
    }
}

/// With `BlendMode::Overwrite` the written color always lands exactly.
pub proof fn lemma_blend_overwrite_lands(src: Color, dst: Color)
    ensures
        spec_blend(BlendMode::Overwrite, src, dst) == src,
{
}

/// With `BlendMode::Blend` a zero-alpha source keeps the destination
/// unchanged, and any other source fully replaces it, alpha included.
pub proof fn lemma_blend_stencil(src: Color, dst: Color)
    ensures
        src.alpha == 0 ==> spec_blend(BlendMode::Blend, src, dst) == dst,
        src.alpha != 0 ==> spec_blend(BlendMode::Blend, src, dst) == src,
{
}

/// Writing the same color twice through the same mode lands on the same
/// result as writing it once.
pub proof fn lemma_blend_idempotent(m: BlendMode, src: Color, dst: Color)
    ensures
        spec_blend(m, src, spec_blend(m, src, dst)) == spec_blend(m, src, dst),
{
}

/// Blending a whole color agrees with blending each channel separately
/// under the source's alpha.
pub proof fn lemma_blend_channelwise(m: BlendMode, src: Color, dst: Color)
    ensures
        spec_blend(m, src, dst) == (Color {
            red: spec_blend_channel(m, src.red, src.alpha, dst.red),
            green: spec_blend_channel(m, src.green, src.alpha, dst.green),
            blue: spec_blend_channel(m, src.blue, src.alpha, dst.blue),
            alpha: spec_blend_channel(m, src.alpha, src.alpha, dst.alpha),
        }),
{
}

} // verus!
