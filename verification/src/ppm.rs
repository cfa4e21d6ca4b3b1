//! The plain-text image format.
//!
//! An image of display values is written as the line `P3`, a line with its
//! width and height, the line `255`, and then one line for each image row,
//! in which every pixel is its three channels in decimal, each followed by
//! one space.
//!
//! A text is the text of at most one image, so reading back what was written
//! gives the image that was written: [`lemma_round_trip`]. The reader takes
//! the texts of images and no others.
pub mod layout;
pub mod read;

pub use crate::ppm::read::{parse_ppm, read_color, read_header};

use crate::bands::fits;
use crate::decimal::{decimal, write_number};
use crate::framebuffer::{pixel_of, Framebuffer};
use crate::ppm::layout::{lemma_header_unique, lemma_progress_prefix, lemma_same_text_agree};
use vstd::prelude::*;
use vstd::string::StringExecFns;

verus! {

/// The text of one pixel: each channel in decimal, followed by a space.
pub open spec fn color_text(color: (u8, u8, u8)) -> Seq<char> {
    decimal(color.0 as nat) + seq![' '] + decimal(color.1 as nat) + seq![' '] + decimal(
        color.2 as nat,
    ) + seq![' ']
}

/// The three lines that begin the text of an image of `width` by `height`
/// pixels.
pub open spec fn header_text(width: nat, height: nat) -> Seq<char> {
    seq!['P', '3', '\n'] + decimal(width) + seq![' '] + decimal(height) + seq![
        '\n',
        '2',
        '5',
        '5',
        '\n',
    ]
}

/// The text of the first `count` pixels of row `row`.
pub open spec fn row_start_text(channels: Seq<u8>, width: nat, row: nat, count: nat) -> Seq<char>
    decreases count,
{
    if count == 0 {
        Seq::empty()
    } else {
        row_start_text(channels, width, row, (count - 1) as nat) + color_text(
            pixel_of(channels, width, (count - 1) as nat, row),
        )
    }
}

/// The line for row `row`: its pixels and a line feed.
pub open spec fn row_text(channels: Seq<u8>, width: nat, row: nat) -> Seq<char> {
    row_start_text(channels, width, row, width) + seq!['\n']
}

/// The lines for the first `rows` rows.
pub open spec fn rows_text(channels: Seq<u8>, width: nat, rows: nat) -> Seq<char>
    decreases rows,
{
    if rows == 0 {
        Seq::empty()
    } else {
        rows_text(channels, width, (rows - 1) as nat) + row_text(
            channels,
            width,
            (rows - 1) as nat,
        )
    }
}

/// The text of the image of `width` by `height` pixels with the channel
/// values `channels`.
pub open spec fn ppm_text(width: nat, height: nat, channels: Seq<u8>) -> Seq<char> {
    header_text(width, height) + rows_text(channels, width, height)
}

/// Whether `channels` are the channel values of an image of `width` by
/// `height` pixels that can be addressed.
pub open spec fn is_image(width: nat, height: nat, channels: Seq<u8>) -> bool {
    fits(width as int, height as int) && channels.len() == 3 * width * height
}

/// `text` is the text of the image `image`, given as its width, its height
/// and its channel values.
pub open spec fn is_text_of(text: Seq<char>, image: (nat, nat, Seq<u8>)) -> bool {
    is_image(image.0, image.1, image.2) && text == ppm_text(image.0, image.1, image.2)
}

/// The image that `text` is the text of, as its width, its height and its
/// channel values; `None` where `text` is the text of no image.
pub open spec fn ppm_image(text: Seq<char>) -> Option<(nat, nat, Seq<u8>)> {
    if exists|image: (nat, nat, Seq<u8>)| is_text_of(text, image) {
        Some(choose|image: (nat, nat, Seq<u8>)| is_text_of(text, image))
    } else {
        None
    }
}

/// Appends the text of one pixel: each channel in decimal, followed by a
/// space.
pub fn write_color(buf: &mut String, color: (u8, u8, u8))
    ensures
        final(buf)@ == old(buf)@ + color_text(color),
{
    proof {
        reveal_strlit(" ");
    }
    let ghost before = buf@;
    write_number(buf, color.0 as usize);
    buf.append(" ");
    write_number(buf, color.1 as usize);
    buf.append(" ");
    write_number(buf, color.2 as usize);
    buf.append(" ");
    assert(buf@ =~= before + color_text(color));
}

/// Ends a line: appends a line feed.
pub fn write_new_line(buf: &mut String)
    ensures
        final(buf)@ == old(buf)@ + seq!['\n'],
{
    proof {
        reveal_strlit("\n");
    }
    let ghost before = buf@;
    buf.append("\n");
    assert(buf@ =~= before + seq!['\n']);
}

/// Appends the three lines that begin the text of an image.
pub fn write_header(buf: &mut String, width: usize, height: usize)
    ensures
        final(buf)@ == old(buf)@ + header_text(width as nat, height as nat),
{
    proof {
        reveal_strlit("P3\n");
        reveal_strlit(" ");
        reveal_strlit("\n255\n");
    }
    let ghost before = buf@;
    buf.append("P3\n");
    write_number(buf, width);
    buf.append(" ");
    write_number(buf, height);
    buf.append("\n255\n");
    assert(buf@ =~= before + header_text(width as nat, height as nat));
}

/// Writes an image of display values as text.
pub fn to_ppm(image: &Framebuffer<u8>) -> (text: String)
    ensures
        text@ == ppm_text(image.spec_width(), image.spec_height(), image@),
{
    proof {
        use_type_invariant(image);
    }
    let width = image.width();
    let height = image.height();
    let mut text = String::new();
    write_header(&mut text, width, height);
    let ghost header = text@;
    let mut row: usize = 0;
    while row < height
        invariant
            image.wf(),
            width == image.spec_width(),
            height == image.spec_height(),
            row <= height,
            header == header_text(width as nat, height as nat),
            text@ == header + rows_text(image@, width as nat, row as nat),
        decreases height - row,
    {
        let ghost lines = text@;
        let mut x: usize = 0;
        while x < width
            invariant
                image.wf(),
                width == image.spec_width(),
                height == image.spec_height(),
                row < height,
                x <= width,
                text@ == lines + row_start_text(image@, width as nat, row as nat, x as nat),
            decreases width - x,
        {
            write_color(&mut text, image.pixel(x, row));
            x = x + 1;
            assert(text@ =~= lines + row_start_text(image@, width as nat, row as nat, x as nat));
        }
        write_new_line(&mut text);
        row = row + 1;
        assert(text@ =~= header + rows_text(image@, width as nat, row as nat));
    }
    text
}

/// Two images with the same text are the same image.
pub proof fn lemma_one_image_of_text(
    text: Seq<char>,
    first: (nat, nat, Seq<u8>),
    second: (nat, nat, Seq<u8>),
)
    requires
        is_text_of(text, first),
        is_text_of(text, second),
    ensures
        first == second,
{
    lemma_progress_prefix(first.0, first.1, first.2, 0, 0);
    lemma_progress_prefix(second.0, second.1, second.2, 0, 0);
    lemma_header_unique(text, first.0, first.1, second.0, second.1);
    lemma_same_text_agree(first.0, first.1, first.2, second.2, first.1, 0);
    assert(3 * (first.1 * first.0 + 0) == 3 * first.0 * first.1) by (nonlinear_arith);
    assert(first.2 =~= second.2);
}

/// Reading back what was written gives the image that was written: the text
/// of an image is the text of that image only.
pub proof fn lemma_round_trip(width: nat, height: nat, channels: Seq<u8>)
    requires
        is_image(width, height, channels),
    ensures
        ppm_image(ppm_text(width, height, channels)) == Some((width, height, channels)),
{
    let text = ppm_text(width, height, channels);
    assert(is_text_of(text, (width, height, channels)));
    let found = choose|image: (nat, nat, Seq<u8>)| is_text_of(text, image);
    lemma_one_image_of_text(text, found, (width, height, channels));
}

} // verus!
