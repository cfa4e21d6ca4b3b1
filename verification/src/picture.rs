//! Handing a rendered image to the `image` crate.
//!
//! A [`Picture`] holds an 8-bit RGB image buffer of that crate. What the
//! buffer holds is known to the verifier only through the contracts of the
//! few calls below, which are believed, not proved; the loop that fills a
//! picture from a [`Framebuffer`] is proved against them.
use crate::framebuffer::{lemma_pixel_fits, Framebuffer};
use image::{ImageBuffer, ImageError, ImageFormat, Rgb};
use vstd::prelude::*;

verus! {

/// An 8-bit RGB image buffer of the `image` crate, an
/// `ImageBuffer<Rgb<u8>, Vec<u8>>`. The verifier does not look into it: what
/// it holds is named by [`picture_channels`] and [`picture_size`].
#[verifier::external_body]
pub struct Picture {
    inner: ImageBuffer<Rgb<u8>, Vec<u8>>,
}

/// The channel values that a picture holds, row after row, three for each
/// pixel.
pub uninterp spec fn picture_channels(picture: Picture) -> Seq<u8>;

/// The width and the height of a picture in pixels.
pub uninterp spec fn picture_size(picture: Picture) -> (nat, nat);

/// `image::ImageError`: the error of the `image` crate, which is carried
/// through and not looked into.
#[verifier::external_type_specification]
#[verifier::external_body]
pub struct ExImageError(ImageError);

/// The `image` crate could not encode a picture.
#[derive(Clone, Copy, Debug, PartialEq, Eq, Structural)]
pub struct EncodeError;

/// `channels` with the pixel in column `x` of row `row` set to `color`.
pub open spec fn with_pixel(
    channels: Seq<u8>,
    width: nat,
    x: nat,
    row: nat,
    color: (u8, u8, u8),
) -> Seq<u8> {
    let index = 3 * (row * width + x) as int;
    channels.update(index, color.0).update(index + 1, color.1).update(index + 2, color.2)
}

/// `ImageBuffer::new`: a picture of the given sizes with every channel zero.
/// The call panics where the buffer would be longer than a vector can be,
/// which the precondition leaves out.
#[verifier::external_body]
fn blank(width: u32, height: u32) -> (picture: Picture)
    requires
        3 * width * height <= isize::MAX,
    ensures
        picture_size(picture) == (width as nat, height as nat),
        picture_channels(picture) == Seq::new((3 * width * height) as nat, |i: int| 0u8),
{
    Picture { inner: ImageBuffer::new(width, height) }
}

/// `ImageBuffer::put_pixel`: sets the three channels of one pixel and leaves
/// the rest of the picture as it was. The call panics for a pixel outside the
/// picture, which the precondition leaves out.
#[verifier::external_body]
fn put(picture: &mut Picture, x: u32, y: u32, color: (u8, u8, u8))
    requires
        x < picture_size(*old(picture)).0,
        y < picture_size(*old(picture)).1,
    ensures
        picture_size(*final(picture)) == picture_size(*old(picture)),
        picture_channels(*final(picture)) == with_pixel(
            picture_channels(*old(picture)),
            picture_size(*old(picture)).0,
            x as nat,
            y as nat,
            color,
        ),
{
    picture.inner.put_pixel(x, y, Rgb([color.0, color.1, color.2]));
}

/// `ImageBuffer::dimensions`: the width and the height of the picture.
#[verifier::external_body]
fn dimensions(picture: &Picture) -> (size: (u32, u32))
    ensures
        picture_size(*picture) == (size.0 as nat, size.1 as nat),
{
    picture.inner.dimensions()
}

/// `ImageBuffer::into_raw`: the channel values that the picture holds.
#[verifier::external_body]
fn into_raw(picture: Picture) -> (channels: Vec<u8>)
    ensures
        channels@ == picture_channels(picture),
{
    picture.inner.into_raw()
}

/// `ImageBuffer::write_to` with the PNG format, into a buffer in memory:
/// the bytes of the encoded picture, or the crate's error. Nothing is claimed
/// of the bytes.
#[verifier::external_body]
fn write_png(picture: &Picture) -> (r: Result<Vec<u8>, ImageError>) {
    let mut bytes: Vec<u8> = Vec::new();
    match picture.inner.write_to(&mut std::io::Cursor::new(&mut bytes), ImageFormat::Png) {
        Ok(()) => Ok(bytes),
        Err(error) => Err(error),
    }
}

impl Picture {
    /// The width of the picture in pixels.
    pub fn width(&self) -> (r: u32)
        ensures
            r == picture_size(*self).0,
    {
        dimensions(self).0
    }

    /// The height of the picture in pixels.
    pub fn height(&self) -> (r: u32)
        ensures
            r == picture_size(*self).1,
    {
        dimensions(self).1
    }

    /// Gives up the picture for its channel values.
    pub fn into_vec(self) -> (r: Vec<u8>)
        ensures
            r@ == picture_channels(self),
    {
        into_raw(self)
    }

    /// Encodes the picture as a PNG file in memory: the result is what
    /// [`encoded`] makes of the outcome, which is up to the `image` crate.
    pub fn to_png(&self) -> (r: Result<Vec<u8>, EncodeError>) {
        encoded(write_png(self))
    }
}

/// What an encoding comes to, for each outcome that the `image` crate may
/// give: the bytes where it gave bytes, and [`EncodeError`] where it gave an
/// error of its own.
pub fn encoded(outcome: Result<Vec<u8>, ImageError>) -> (r: Result<Vec<u8>, EncodeError>)
    ensures
        match outcome {
            Ok(bytes) => r == Ok::<Vec<u8>, EncodeError>(bytes),
            Err(_) => r == Err::<Vec<u8>, EncodeError>(EncodeError),
        },
{
    match outcome {
        Ok(bytes) => Ok(bytes),
        Err(_) => Err(EncodeError),
    }
}

/// Makes the picture of an image of display values: it has the sizes of the
/// image and holds its channel values.
pub fn to_picture(image: &Framebuffer<u8>) -> (picture: Picture)
    ensures
        picture_size(picture) == (image.spec_width(), image.spec_height()),
        picture_channels(picture) == image@,
{
    proof {
        use_type_invariant(image);
    }
    let width = image.width();
    let height = image.height();
    assert(3 * (width as u32) * (height as u32) == 3 * width * height) by (nonlinear_arith)
        requires
            width <= u32::MAX,
            height <= u32::MAX,
    ;
    let mut picture = blank(width as u32, height as u32);
    let mut row: usize = 0;
    while row < height
        invariant
            image.wf(),
            width == image.spec_width(),
            height == image.spec_height(),
            row <= height,
            picture_size(picture) == (width as nat, height as nat),
            picture_channels(picture).len() == image@.len(),
            forall|i: int|
                0 <= i < 3 * (row * width) ==> picture_channels(picture)[i] == image@[i],
        decreases height - row,
    {
        let mut x: usize = 0;
        while x < width
            invariant
                image.wf(),
                width == image.spec_width(),
                height == image.spec_height(),
                row < height,
                x <= width,
                picture_size(picture) == (width as nat, height as nat),
                picture_channels(picture).len() == image@.len(),
                forall|i: int|
                    0 <= i < 3 * (row * width + x) ==> picture_channels(picture)[i] == image@[i],
            decreases width - x,
        {
            proof {
                lemma_pixel_fits(width as nat, height as nat, x as nat, row as nat);
            }
            let color = image.pixel(x, row);
            put(&mut picture, x as u32, row as u32, color);
            x = x + 1;
        }
        proof {
            assert(3 * (row * width + width) == 3 * ((row + 1) * width)) by (nonlinear_arith);
        }
        row = row + 1;
    }
    proof {
        assert(3 * (height * width) == 3 * width * height) by (nonlinear_arith);
        assert(picture_channels(picture) =~= image@);
    }
    picture
}

} // verus!
