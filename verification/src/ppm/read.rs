//! Reading an image back from its text.
use crate::bands::{can_address, fits};
use crate::decimal::{byte_text, decimal, lemma_number_unique, number_at, read_number};
use crate::framebuffer::{pixel_of, Framebuffer};
use crate::ppm::layout::{
    agree, color_at, header_at, lemma_color_in_text, lemma_color_numbers, lemma_color_unique,
    lemma_header_numbers, lemma_header_unique, lemma_line_end_in_text, lemma_numbers_color,
    lemma_numbers_header, lemma_progress_prefix, lemma_progress_same, lemma_text_ascii,
    progress_text,
};
use crate::ppm::{
    color_text, header_text, is_text_of, lemma_one_image_of_text, ppm_image, ppm_text,
};
use vstd::prelude::*;

verus! {

/// Whether the byte `byte` stands at `pos`.
fn holds(bytes: &[u8], pos: usize, byte: u8) -> (r: bool)
    ensures
        r == (pos < bytes@.len() && byte_text(bytes@)[pos as int] == byte as char),
{
    pos < bytes.len() && bytes[pos] == byte
}

/// Reads the text of a pixel that `bytes` hold at `pos` as text: there is a
/// result where they hold one there, and it is the pixel's colour and the
/// place where its text ends.
pub fn read_color(bytes: &[u8], pos: usize) -> (r: Option<((u8, u8, u8), usize)>)
    ensures
        match r {
            Some((color, end)) => color_at(byte_text(bytes@), pos as int, color) && end == pos
                + color_text(color).len(),
            None => forall|color: (u8, u8, u8)| !color_at(byte_text(bytes@), pos as int, color),
        },
{
    let ghost text = byte_text(bytes@);
    let n = bytes.len();
    proof {
        assert forall|color: (u8, u8, u8)| color_at(text, pos as int, color) implies number_at(
            text,
            pos as int,
            color.0 as nat,
            pos + decimal(color.0 as nat).len(),
        ) by {
            lemma_color_numbers(text, pos as int, color);
        }
    }
    let (red, a) = match read_number(bytes, pos, 255) {
        Some(found) => found,
        None => {
            return None;
        },
    };
    proof {
        assert forall|color: (u8, u8, u8)| color_at(text, pos as int, color) implies color.0
            == red && text[a as int] == ' ' && number_at(
            text,
            a + 1,
            color.1 as nat,
            a + 1 + decimal(color.1 as nat).len(),
        ) by {
            lemma_color_numbers(text, pos as int, color);
            lemma_number_unique(
                text,
                pos as int,
                color.0 as nat,
                pos + decimal(color.0 as nat).len(),
                red as nat,
                a as int,
            );
        }
    }
    if !holds(bytes, a, 32) {
        return None;
    }
    let (green, b) = match read_number(bytes, a + 1, 255) {
        Some(found) => found,
        None => {
            return None;
        },
    };
    proof {
        assert forall|color: (u8, u8, u8)| color_at(text, pos as int, color) implies color.1
            == green && text[b as int] == ' ' && number_at(
            text,
            b + 1,
            color.2 as nat,
            b + 1 + decimal(color.2 as nat).len(),
        ) by {
            lemma_color_numbers(text, pos as int, color);
            lemma_number_unique(
                text,
                a + 1,
                color.1 as nat,
                a + 1 + decimal(color.1 as nat).len(),
                green as nat,
                b as int,
            );
        }
    }
    if !holds(bytes, b, 32) {
        return None;
    }
    let (blue, c) = match read_number(bytes, b + 1, 255) {
        Some(found) => found,
        None => {
            return None;
        },
    };
    proof {
        assert forall|color: (u8, u8, u8)| color_at(text, pos as int, color) implies color.2
            == blue && text[c as int] == ' ' by {
            lemma_color_numbers(text, pos as int, color);
            lemma_number_unique(
                text,
                b + 1,
                color.2 as nat,
                b + 1 + decimal(color.2 as nat).len(),
                blue as nat,
                c as int,
            );
        }
    }
    if !holds(bytes, c, 32) {
        return None;
    }
    let color = (red as u8, green as u8, blue as u8);
    proof {
        lemma_numbers_color(text, pos as int, color, a as int, b as int, c as int);
    }
    Some((color, c + 1))
}

/// Reads the header that `bytes` begin with as text: there is a result where
/// they begin with one whose width and height are at most `u32::MAX`, and it
/// is the width, the height and the place where the header ends.
pub fn read_header(bytes: &[u8]) -> (r: Option<(u32, u32, usize)>)
    ensures
        match r {
            Some((width, height, end)) => header_at(
                byte_text(bytes@),
                width as nat,
                height as nat,
            ) && end == header_text(width as nat, height as nat).len(),
            None => forall|width: nat, height: nat|
                width <= u32::MAX && height <= u32::MAX ==> !header_at(
                    byte_text(bytes@),
                    width,
                    height,
                ),
        },
{
    let ghost text = byte_text(bytes@);
    let n = bytes.len();
    proof {
        assert forall|width: nat, height: nat| header_at(text, width, height) implies text[0]
            == 'P' && text[1] == '3' && text[2] == '\n' && 3 <= text.len() && number_at(
            text,
            3,
            width,
            3 + decimal(width).len() as int,
        ) by {
            lemma_header_numbers(text, width, height);
        }
    }
    if !holds(bytes, 0, 80) || !holds(bytes, 1, 51) || !holds(bytes, 2, 10) {
        return None;
    }
    let (width, a) = match read_number(bytes, 3, u32::MAX) {
        Some(found) => found,
        None => {
            return None;
        },
    };
    proof {
        assert forall|w: nat, h: nat| header_at(text, w, h) implies w == width && text[a as int]
            == ' ' && number_at(text, a + 1, h, a + 1 + decimal(h).len()) by {
            lemma_header_numbers(text, w, h);
            lemma_number_unique(text, 3, w, 3 + decimal(w).len() as int, width as nat, a as int);
        }
    }
    if !holds(bytes, a, 32) {
        return None;
    }
    let (height, b) = match read_number(bytes, a + 1, u32::MAX) {
        Some(found) => found,
        None => {
            return None;
        },
    };
    proof {
        assert forall|w: nat, h: nat| header_at(text, w, h) implies h == height && b + 5
            <= text.len() && text[b as int] == '\n' && text[b + 1] == '2' && text[b + 2] == '5'
            && text[b + 3] == '5' && text[b + 4] == '\n' by {
            lemma_header_numbers(text, w, h);
            lemma_number_unique(
                text,
                a + 1,
                h,
                a + 1 + decimal(h).len(),
                height as nat,
                b as int,
            );
        }
    }
    if b > usize::MAX - 5 {
        return None;
    }
    if !holds(bytes, b, 10) || !holds(bytes, b + 1, 50) || !holds(bytes, b + 2, 53) || !holds(
        bytes,
        b + 3,
        53,
    ) || !holds(bytes, b + 4, 10) {
        return None;
    }
    proof {
        lemma_numbers_header(text, width as nat, height as nat, a as int, b as int);
    }
    Some((width, height, b + 5))
}

/// Reads the image that `bytes` are the text of.
fn read_image(bytes: &[u8]) -> (r: Option<Framebuffer<u8>>)
    ensures
        match r {
            Some(image) => image.wf() && ppm_image(byte_text(bytes@)) == Some(
                (image.spec_width(), image.spec_height(), image@),
            ),
            None => ppm_image(byte_text(bytes@)) is None,
        },
{
    // Two things are kept up while the text is read. What was read so far is
    // the text of the image up to the pixel that comes next; and where the
    // whole text is the text of an image at all, `meant`, that image has the
    // sizes and the channel values that were read so far. So the reader can
    // only fail on a text that no image has.
    let ghost text = byte_text(bytes@);
    let ghost written = ppm_image(text) is Some;
    let ghost meant = ppm_image(text)->0;
    let n = bytes.len();
    proof {
        if written {
            assert(is_text_of(text, meant));
            lemma_progress_prefix(meant.0, meant.1, meant.2, 0, 0);
            assert(header_at(text, meant.0, meant.1));
        }
    }
    let (w, h, start) = match read_header(bytes) {
        Some(found) => found,
        None => {
            return None;
        },
    };
    proof {
        if written {
            lemma_header_unique(text, w as nat, h as nat, meant.0, meant.1);
        }
    }
    if !can_address(w as u64, h as u64) {
        return None;
    }
    let width = w as usize;
    let height = h as usize;
    let mut data: Vec<u8> = Vec::new();
    let mut pos = start;
    let mut row: usize = 0;
    proof {
        lemma_progress_prefix(width as nat, height as nat, data@, 0, 0);
        assert(0 * width == 0) by (nonlinear_arith);
    }
    while row < height
        invariant
            text == byte_text(bytes@),
            n == text.len(),
            written == (ppm_image(text) is Some),
            written ==> is_text_of(text, meant),
            written ==> meant.0 == width && meant.1 == height && agree(meant.2, data@, data@.len()),
            fits(width as int, height as int),
            row <= height,
            pos <= n,
            data@.len() == 3 * (row * width),
            text.subrange(0, pos as int) == progress_text(
                width as nat,
                height as nat,
                data@,
                row as nat,
                0,
            ),
        decreases height - row,
    {
        let mut x: usize = 0;
        while x < width
            invariant
                text == byte_text(bytes@),
                n == text.len(),
                written == (ppm_image(text) is Some),
                written ==> is_text_of(text, meant),
                written ==> meant.0 == width && meant.1 == height && agree(
                    meant.2,
                    data@,
                    data@.len(),
                ),
                fits(width as int, height as int),
                row < height,
                x <= width,
                pos <= n,
                data@.len() == 3 * (row * width + x),
                text.subrange(0, pos as int) == progress_text(
                    width as nat,
                    height as nat,
                    data@,
                    row as nat,
                    x as nat,
                ),
            decreases width - x,
        {
            proof {
                if written {
                    lemma_progress_same(
                        width as nat,
                        height as nat,
                        meant.2,
                        data@,
                        row as nat,
                        x as nat,
                    );
                    lemma_color_in_text(width as nat, height as nat, meant.2, row as nat, x as nat);
                }
            }
            let (color, end) = match read_color(bytes, pos) {
                Some(found) => found,
                None => {
                    return None;
                },
            };
            let ghost earlier = data@;
            data.push(color.0);
            data.push(color.1);
            data.push(color.2);
            proof {
                if written {
                    lemma_color_unique(
                        text,
                        pos as int,
                        color,
                        pixel_of(meant.2, width as nat, x as nat, row as nat),
                    );
                }
                lemma_progress_same(
                    width as nat,
                    height as nat,
                    data@,
                    earlier,
                    row as nat,
                    x as nat,
                );
                assert(pixel_of(data@, width as nat, x as nat, row as nat) == color);
                lemma_color_in_text(width as nat, height as nat, data@, row as nat, x as nat);
                assert(text.subrange(0, end as int) =~= text.subrange(0, pos as int)
                    + text.subrange(pos as int, end as int));
            }
            pos = end;
            x = x + 1;
        }
        proof {
            if written {
                lemma_progress_same(
                    width as nat,
                    height as nat,
                    meant.2,
                    data@,
                    row as nat,
                    width as nat,
                );
                lemma_line_end_in_text(width as nat, height as nat, meant.2, row as nat);
            }
        }
        if !holds(bytes, pos, 10) {
            return None;
        }
        proof {
            lemma_line_end_in_text(width as nat, height as nat, data@, row as nat);
            assert(text.subrange(0, pos + 1) =~= text.subrange(0, pos as int) + seq!['\n']);
            assert(row * width + width == (row + 1) * width) by (nonlinear_arith);
        }
        pos = pos + 1;
        row = row + 1;
    }
    proof {
        lemma_progress_prefix(width as nat, height as nat, data@, height as nat, 0);
        if written {
            lemma_progress_same(width as nat, height as nat, meant.2, data@, height as nat, 0);
            lemma_progress_prefix(width as nat, height as nat, meant.2, height as nat, 0);
            assert(text.subrange(0, pos as int).len() == text.len());
        }
    }
    if pos != n {
        return None;
    }
    proof {
        assert(text.subrange(0, pos as int) =~= text);
        assert(3 * (height * width) == 3 * width * height) by (nonlinear_arith);
    }
    let ghost channels = data@;
    match Framebuffer::from_vec(width, height, data) {
        Some(image) => {
            proof {
                assert(is_text_of(text, (width as nat, height as nat, channels)));
                lemma_one_image_of_text(text, meant, (width as nat, height as nat, channels));
            }
            Some(image)
        },
        None => None,
    }
}

/// Reads an image of display values back from its text. There is an image
/// where `text` is the text of one, to the last character, and it is that
/// image.
pub fn parse_ppm(text: &str) -> (r: Option<Framebuffer<u8>>)
    ensures
        match r {
            Some(image) => image.wf() && ppm_image(text@) == Some(
                (image.spec_width(), image.spec_height(), image@),
            ),
            None => ppm_image(text@) is None,
        },
{
    if !text.is_ascii() {
        proof {
            if ppm_image(text@) is Some {
                let found = ppm_image(text@).unwrap();
                assert(is_text_of(text@, found));
                lemma_text_ascii(found.0, found.1, found.2);
            }
        }
        return None;
    }
    let bytes = text.as_bytes();
    proof {
        vstd::string::is_ascii_spec_bytes(text);
        assert(byte_text(bytes@) =~= text@);
    }
    read_image(bytes)
}

} // verus!
