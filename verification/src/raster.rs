//! The decoded image as plain values, and the pixels of it that count.
use crate::color::RGB;
use vstd::prelude::*;

verus! {

/// How the samples of a decoded image are laid out.
#[derive(Debug, Clone, Copy, PartialEq, Eq, Structural)]
pub enum ColorType {
    L8,
    La8,
    Rgb8,
    Rgba8,
    L16,
    La16,
    Rgb16,
    Rgba16,
    Rgb32F,
    Rgba32F,
}

/// Why no palette could be made.
#[derive(Debug, Clone, Copy, PartialEq, Eq, Structural)]
pub enum ImageError {
    /// The image has a colour type other than 8-bit RGB and 8-bit RGBA.
    UnsupportedType(ColorType),
    /// The colour budget is zero.
    InvalidConfiguration,
}

/// A decoded image: its colour type, its size, and for the 8-bit colour
/// types its samples, pixel after pixel, the channels of a pixel in turn.
pub struct Raster {
    pub color: ColorType,
    pub width: u32,
    pub height: u32,
    pub samples: Vec<u8>,
}

/// The pixels of an image that count, with the size of the image.
pub struct ImageData {
    pub data: Vec<RGB>,
    pub width: u32,
    pub height: u32,
}

/// The first `n` pixels of samples with three channels.
pub open spec fn rgb_pixels(samples: Seq<u8>, n: nat) -> Seq<RGB>
    decreases n,
{
    if n == 0 {
        Seq::empty()
    } else {
        rgb_pixels(samples, (n - 1) as nat).push(
            RGB { r: samples[3 * (n - 1)], g: samples[3 * (n - 1) + 1], b: samples[3 * (n - 1) + 2] },
        )
    }
}

/// Those of the first `n` pixels of samples with four channels that are
/// not fully transparent, without their alpha channel.
pub open spec fn opaque_pixels(samples: Seq<u8>, n: nat) -> Seq<RGB>
    decreases n,
{
    if n == 0 {
        Seq::empty()
    } else {
        let rest = opaque_pixels(samples, (n - 1) as nat);
        if samples[4 * (n - 1) + 3] > 0 {
            rest.push(
                RGB {
                    r: samples[4 * (n - 1)],
                    g: samples[4 * (n - 1) + 1],
                    b: samples[4 * (n - 1) + 2],
                },
            )
        } else {
            rest
        }
    }
}

impl Raster {
    /// The pixels that reach the octree: all pixels of an 8-bit RGB image,
    /// and the pixels of an 8-bit RGBA image whose alpha is not zero.
    pub open spec fn pixels(&self) -> Seq<RGB> {
        match self.color {
            ColorType::Rgb8 => rgb_pixels(self.samples@, self.samples@.len() / 3),
            ColorType::Rgba8 => opaque_pixels(self.samples@, self.samples@.len() / 4),
            _ => Seq::empty(),
        }
    }

    /// Whether the image has a colour type that a palette can be made of.
    pub open spec fn supported(&self) -> bool {
        self.color == ColorType::Rgb8 || self.color == ColorType::Rgba8
    }
}

impl ImageData {
    /// The pixels of an image with three 8-bit channels.
    pub fn from_rgb(image: &Raster) -> (out: ImageData)
        ensures
            out.data@ == rgb_pixels(image.samples@, image.samples@.len() / 3),
            out.width == image.width,
            out.height == image.height,
    {
        let n = image.samples.len() / 3;
        let mut data: Vec<RGB> = Vec::new();
        let mut i: usize = 0;
        while i < n
            invariant
                i <= n,
                n == image.samples@.len() / 3,
                3 * n <= image.samples@.len() <= usize::MAX,
                data@ == rgb_pixels(image.samples@, i as nat),
            decreases n - i,
        {
            let at = 3 * i;
            data.push(RGB::from(&[image.samples[at], image.samples[at + 1], image.samples[at + 2]]));
            i = i + 1;
        }
        ImageData { data, width: image.width, height: image.height }
    }

    /// The pixels of an image with four 8-bit channels that are not fully
    /// transparent.
    pub fn from_rgba(image: &Raster) -> (out: ImageData)
        ensures
            out.data@ == opaque_pixels(image.samples@, image.samples@.len() / 4),
            out.width == image.width,
            out.height == image.height,
    {
        let n = image.samples.len() / 4;
        let mut data: Vec<RGB> = Vec::new();
        let mut i: usize = 0;
        while i < n
            invariant
                i <= n,
                n == image.samples@.len() / 4,
                4 * n <= image.samples@.len() <= usize::MAX,
                data@ == opaque_pixels(image.samples@, i as nat),
            decreases n - i,
        {
            let at = 4 * i;
            if image.samples[at + 3] > 0 {
                data.push(
                    RGB::from(&[image.samples[at], image.samples[at + 1], image.samples[at + 2]]),
                );
            }
            i = i + 1;
        }
        ImageData { data, width: image.width, height: image.height }
    }

    /// The pixels of an image that count, or the colour type of the image
    /// if it is neither 8-bit RGB nor 8-bit RGBA.
    pub fn try_from(image: &Raster) -> (out: Result<ImageData, ImageError>)
        ensures
            image.supported() ==> (out matches Ok(found) && found.data@ == image.pixels()
                && found.width == image.width && found.height == image.height),
            !image.supported() ==> out == Err::<ImageData, ImageError>(
                ImageError::UnsupportedType(image.color),
            ),
    {
        match image.color {
            ColorType::Rgb8 => Ok(ImageData::from_rgb(image)),
            ColorType::Rgba8 => Ok(ImageData::from_rgba(image)),
            _ => Err(ImageError::UnsupportedType(image.color)),
        }
    }
}

} // verus!
