//! Which conversions to try on an image, and in which order.
//!
//! The conversions themselves are made elsewhere: whoever makes one says whether it succeeded and
//! which colour type the image has now, and is told what comes next.

use vstd::prelude::*;
use crate::colors::ColorType;
use crate::png::PngData;

verus! {

/// A conversion to be tried on an image.
#[derive(Clone, Copy, Debug, PartialEq, Eq, Structural)]
pub enum ColorStep {
    /// RGBA to grayscale with alpha
    RgbaToGrayscaleAlpha,
    /// RGBA to RGB
    RgbaToRgb,
    /// RGBA to a palette
    RgbaToPalette,
    /// Grayscale with alpha to grayscale
    GrayscaleAlphaToGrayscale,
    /// RGB to grayscale
    RgbToGrayscale,
    /// RGB to a palette
    RgbToPalette,
    /// A bit depth of 8 to a lower one
    BitDepthEightOrLess,
}

/// How far an attempt to reduce the colour type has come.
#[derive(Clone, Copy, Debug, PartialEq, Eq, Structural)]
pub struct ColorReduction {
    /// The color type was reduced
    pub changed: bool,
    /// A conversion was made that may allow a lower bit depth
    pub should_reduce_bit_depth: bool,
    /// The conversion to be tried next, or `None` at the end
    pub next: Option<ColorStep>,
}

impl ColorReduction {
    /// The end: a lower bit depth is tried if a conversion may have allowed one.
    pub open spec fn ending(changed: bool, should_reduce_bit_depth: bool) -> ColorReduction {
        ColorReduction {
            changed,
            should_reduce_bit_depth,
            next: if should_reduce_bit_depth {
                Some(ColorStep::BitDepthEightOrLess)
            } else {
                None
            },
        }
    }

    /// An RGB image is to be converted, any other one is at the end.
    pub open spec fn from_rgb(
        color_type: ColorType,
        changed: bool,
        should_reduce_bit_depth: bool,
    ) -> ColorReduction {
        if color_type == ColorType::RGB {
            ColorReduction {
                changed,
                should_reduce_bit_depth,
                next: Some(ColorStep::RgbToGrayscale),
            }
        } else {
            ColorReduction::ending(changed, should_reduce_bit_depth)
        }
    }

    /// A grayscale image with alpha is to be converted first.
    pub open spec fn from_grayscale_alpha(
        color_type: ColorType,
        changed: bool,
        should_reduce_bit_depth: bool,
    ) -> ColorReduction {
        if color_type == ColorType::GrayscaleAlpha {
            ColorReduction {
                changed,
                should_reduce_bit_depth,
                next: Some(ColorStep::GrayscaleAlphaToGrayscale),
            }
        } else {
            ColorReduction::from_rgb(color_type, changed, should_reduce_bit_depth)
        }
    }

    /// The start with an image of the given colour type.
    pub open spec fn started(color_type: ColorType) -> ColorReduction {
        if color_type == ColorType::RGBA {
            ColorReduction {
                changed: false,
                should_reduce_bit_depth: false,
                next: Some(ColorStep::RgbaToGrayscaleAlpha),
            }
        } else {
            ColorReduction::from_grayscale_alpha(color_type, false, false)
        }
    }

    /// What comes after the next conversion, which did or did not succeed and left an image of the
    /// given colour type.
    pub open spec fn advanced(self, succeeded: bool, color_type: ColorType) -> ColorReduction {
        let (changed, should) = (self.changed, self.should_reduce_bit_depth);
        match self.next {
            None => self,
            Some(ColorStep::RgbaToGrayscaleAlpha) => if succeeded {
                ColorReduction::from_grayscale_alpha(color_type, true, should)
            } else {
                ColorReduction { next: Some(ColorStep::RgbaToRgb), ..self }
            },
            Some(ColorStep::RgbaToRgb) => if succeeded {
                ColorReduction::from_grayscale_alpha(color_type, true, should)
            } else {
                ColorReduction { next: Some(ColorStep::RgbaToPalette), ..self }
            },
            Some(ColorStep::RgbaToPalette) => ColorReduction::from_grayscale_alpha(
                color_type,
                changed || succeeded,
                should || succeeded,
            ),
            Some(ColorStep::GrayscaleAlphaToGrayscale) => ColorReduction::from_rgb(
                color_type,
                changed || succeeded,
                should || succeeded,
            ),
            Some(ColorStep::RgbToGrayscale) => if succeeded {
                ColorReduction::ending(true, true)
            } else {
                ColorReduction { next: Some(ColorStep::RgbToPalette), ..self }
            },
            Some(ColorStep::RgbToPalette) => ColorReduction::ending(
                changed || succeeded,
                should || succeeded,
            ),
            Some(ColorStep::BitDepthEightOrLess) => ColorReduction { next: None, ..self },
        }
    }

    /// At most so many conversions are still to be tried.
    pub open spec fn steps_left(self) -> nat {
        match self.next {
            None => 0,
            Some(ColorStep::BitDepthEightOrLess) => 1,
            Some(ColorStep::RgbToPalette) => 2,
            Some(ColorStep::RgbToGrayscale) => 3,
            Some(ColorStep::GrayscaleAlphaToGrayscale) => 4,
            Some(ColorStep::RgbaToPalette) => 5,
            Some(ColorStep::RgbaToRgb) => 6,
            Some(ColorStep::RgbaToGrayscaleAlpha) => 7,
        }
    }

    fn end(changed: bool, should_reduce_bit_depth: bool) -> (state: ColorReduction)
        ensures
            state == ColorReduction::ending(changed, should_reduce_bit_depth),
    {
        // Some conversions will allow us to perform bit depth reduction that
        // wasn't possible before
        let next: Option<ColorStep> = if should_reduce_bit_depth {
            Some(ColorStep::BitDepthEightOrLess)
        } else {
            None
        };
        ColorReduction { changed, should_reduce_bit_depth, next }
    }

    fn try_rgb(color_type: ColorType, changed: bool, should_reduce_bit_depth: bool) -> (state:
        ColorReduction)
        ensures
            state == ColorReduction::from_rgb(color_type, changed, should_reduce_bit_depth),
    {
        if color_type == ColorType::RGB {
            ColorReduction {
                changed,
                should_reduce_bit_depth,
                next: Some(ColorStep::RgbToGrayscale),
            }
        } else {
            ColorReduction::end(changed, should_reduce_bit_depth)
        }
    }

    fn try_grayscale_alpha(
        color_type: ColorType,
        changed: bool,
        should_reduce_bit_depth: bool,
    ) -> (state: ColorReduction)
        ensures
            state == ColorReduction::from_grayscale_alpha(
                color_type,
                changed,
                should_reduce_bit_depth,
            ),
    {
        if color_type == ColorType::GrayscaleAlpha {
            ColorReduction {
                changed,
                should_reduce_bit_depth,
                next: Some(ColorStep::GrayscaleAlphaToGrayscale),
            }
        } else {
            ColorReduction::try_rgb(color_type, changed, should_reduce_bit_depth)
        }
    }

    /// Take note of the outcome of the next conversion
    /// `color_type` is the colour type that the image has after it
    pub fn advance(&mut self, succeeded: bool, color_type: ColorType)
        ensures
            *final(self) == old(self).advanced(succeeded, color_type),
            old(self).next is Some ==> final(self).steps_left() < old(self).steps_left(),
    {
        let (changed, should): (bool, bool) = (self.changed, self.should_reduce_bit_depth);
        let state: ColorReduction = match self.next {
            None => *self,
            Some(ColorStep::RgbaToGrayscaleAlpha) => if succeeded {
                ColorReduction::try_grayscale_alpha(color_type, true, should)
            } else {
                ColorReduction {
                    changed,
                    should_reduce_bit_depth: should,
                    next: Some(ColorStep::RgbaToRgb),
                }
            },
            Some(ColorStep::RgbaToRgb) => if succeeded {
                ColorReduction::try_grayscale_alpha(color_type, true, should)
            } else {
                ColorReduction {
                    changed,
                    should_reduce_bit_depth: should,
                    next: Some(ColorStep::RgbaToPalette),
                }
            },
            Some(ColorStep::RgbaToPalette) => ColorReduction::try_grayscale_alpha(
                color_type,
                changed || succeeded,
                should || succeeded,
            ),
            Some(ColorStep::GrayscaleAlphaToGrayscale) => ColorReduction::try_rgb(
                color_type,
                changed || succeeded,
                should || succeeded,
            ),
            Some(ColorStep::RgbToGrayscale) => if succeeded {
                ColorReduction::end(true, true)
            } else {
                ColorReduction {
                    changed,
                    should_reduce_bit_depth: should,
                    next: Some(ColorStep::RgbToPalette),
                }
            },
            Some(ColorStep::RgbToPalette) => ColorReduction::end(
                changed || succeeded,
                should || succeeded,
            ),
            Some(ColorStep::BitDepthEightOrLess) => ColorReduction {
                changed,
                should_reduce_bit_depth: should,
                next: None,
            },
        };
        *self = state;
    }
}

/// What is to be done to get an image into another interlacing mode.
#[derive(Clone, Copy, Debug, PartialEq, Eq, Structural)]
pub enum InterlaceStep {
    /// Nothing, it is in that mode
    Keep,
    /// Convert progressive to interlaced data
    Interlace,
    /// Convert interlaced to progressive data
    Deinterlace,
}

/// What is to be done to get from one interlacing mode to another.
pub open spec fn interlace_step(current: u8, wanted: u8) -> InterlaceStep {
    if wanted == current {
        InterlaceStep::Keep
    } else if wanted == 1 {
        InterlaceStep::Interlace
    } else {
        InterlaceStep::Deinterlace
    }
}

impl PngData {
    /// Start an attempt to reduce the color type of the image
    /// The result says which conversion is to be tried first
    pub fn reduce_color_type(&self) -> (state: ColorReduction)
        ensures
            state == ColorReduction::started(self@.ihdr.color_type),
    {
        // Go down one step at a time
        // Maybe not the most efficient, but it's safe
        if self.ihdr_data.color_type == ColorType::RGBA {
            ColorReduction {
                changed: false,
                should_reduce_bit_depth: false,
                next: Some(ColorStep::RgbaToGrayscaleAlpha),
            }
        } else {
            ColorReduction::try_grayscale_alpha(self.ihdr_data.color_type, false, false)
        }
    }

    /// What is to be done to convert the image to the specified interlacing type
    /// The `interlace` parameter specifies the *new* interlacing mode
    #[inline]
    pub fn change_interlacing(&self, interlace: u8) -> (step: InterlaceStep)
        ensures
            step == interlace_step(self@.ihdr.interlaced, interlace),
    {
        if interlace == self.ihdr_data.interlaced {
            InterlaceStep::Keep
        } else if interlace == 1 {
            InterlaceStep::Interlace
        } else {
            InterlaceStep::Deinterlace
        }
    }
}

/// What is made of an image by a host that converts it step by step, until nothing is left to be
/// tried. The host says what a conversion makes of an image and whether it succeeded.
pub open spec fn all_steps<S>(
    state: ColorReduction,
    image: S,
    convert: spec_fn(S, ColorStep) -> (S, bool),
    color_type: spec_fn(S) -> ColorType,
) -> (S, bool)
    decreases state.steps_left(),
{
    match state.next {
        None => (image, state.changed),
        Some(step) => {
            let (after, succeeded) = convert(image, step);
            all_steps(
                state.advanced(succeeded, color_type(after)),
                after,
                convert,
                color_type,
            )
        },
    }
}

/// An RGBA image that becomes grayscale with alpha, or else RGB, or else gets a palette. The
/// second part says whether it changed, the third whether it got a palette.
pub open spec fn rgba_reduced<S>(
    image: S,
    convert: spec_fn(S, ColorStep) -> (S, bool),
    color_type: spec_fn(S) -> ColorType,
) -> (S, bool, bool) {
    if color_type(image) != ColorType::RGBA {
        (image, false, false)
    } else {
        let (gray, is_gray) = convert(image, ColorStep::RgbaToGrayscaleAlpha);
        let (rgb, is_rgb) = convert(gray, ColorStep::RgbaToRgb);
        let (indexed, is_indexed) = convert(rgb, ColorStep::RgbaToPalette);
        if is_gray {
            (gray, true, false)
        } else if is_rgb {
            (rgb, true, false)
        } else {
            (indexed, is_indexed, is_indexed)
        }
    }
}

/// A grayscale image with alpha that becomes grayscale, and whether it did.
pub open spec fn grayscale_alpha_reduced<S>(
    image: S,
    convert: spec_fn(S, ColorStep) -> (S, bool),
    color_type: spec_fn(S) -> ColorType,
) -> (S, bool) {
    if color_type(image) != ColorType::GrayscaleAlpha {
        (image, false)
    } else {
        convert(image, ColorStep::GrayscaleAlphaToGrayscale)
    }
}

/// An RGB image that becomes grayscale, or else gets a palette, and whether it did either.
pub open spec fn rgb_reduced<S>(
    image: S,
    convert: spec_fn(S, ColorStep) -> (S, bool),
    color_type: spec_fn(S) -> ColorType,
) -> (S, bool) {
    if color_type(image) != ColorType::RGB {
        (image, false)
    } else {
        let (gray, is_gray) = convert(image, ColorStep::RgbToGrayscale);
        if is_gray {
            (gray, true)
        } else {
            convert(gray, ColorStep::RgbToPalette)
        }
    }
}

/// Step by step, an image goes through the reductions of RGBA, of grayscale with alpha and of RGB
/// images in this order, each applied to what the one before left, and then through a reduction of
/// the bit depth if one of the later conversions or the one to a palette succeeded. It is reported
/// as changed if any of the three reductions succeeded.
pub proof fn color_steps_are_the_reductions<S>(
    image: S,
    convert: spec_fn(S, ColorStep) -> (S, bool),
    color_type: spec_fn(S) -> ColorType,
)
    ensures
        ({
            let (one, changed_one, indexed) = rgba_reduced(image, convert, color_type);
            let (two, changed_two) = grayscale_alpha_reduced(one, convert, color_type);
            let (three, changed_three) = rgb_reduced(two, convert, color_type);
            all_steps(ColorReduction::started(color_type(image)), image, convert, color_type) == (
                if indexed || changed_two || changed_three {
                    convert(three, ColorStep::BitDepthEightOrLess).0
                } else {
                    three
                },
                changed_one || changed_two || changed_three,
            )
        }),
{
    reveal_with_fuel(all_steps, 8);
}

/// Whatever the state, what was noted before stays noted. A conversion that succeeded is noted as a
/// change, unless it is the last one, and as a reason to try a lower bit depth, unless it only took
/// RGBA to grayscale with alpha or to RGB. Nothing else is noted, and after the end nothing
/// changes.
pub proof fn outcomes_are_noted(state: ColorReduction, succeeded: bool, color_type: ColorType)
    ensures
        ({
            let after = state.advanced(succeeded, color_type);
            &&& state.next is None ==> after == state
            &&& after.changed <==> state.changed || succeeded && state.next is Some && state.next
                != Some(ColorStep::BitDepthEightOrLess)
            &&& after.should_reduce_bit_depth <==> state.should_reduce_bit_depth || succeeded && (
            state.next == Some(ColorStep::RgbaToPalette) || state.next == Some(
                ColorStep::GrayscaleAlphaToGrayscale,
            ) || state.next == Some(ColorStep::RgbToGrayscale) || state.next == Some(
                ColorStep::RgbToPalette,
            ))
        }),
{
}

/// An image is interlaced exactly if that is asked for and it is in another mode, deinterlaced if
/// any other mode is asked for that it is not in, and kept in the mode that it is in.
pub proof fn interlacing_changes_where_the_modes_differ(current: u8, wanted: u8)
    ensures
        interlace_step(current, wanted) == InterlaceStep::Keep <==> wanted == current,
        interlace_step(current, wanted) == InterlaceStep::Interlace <==> wanted == 1 && current != 1,
        interlace_step(current, wanted) == InterlaceStep::Deinterlace <==> wanted != 1 && current
            != wanted,
{
}

} // verus!
