//! Where the parts of an image's text stand.
//!
//! The text of an image is the text up to any of its pixels, followed by the
//! text of that pixel; and a text holds at most one number, one pixel, and
//! one header at a place. The reader and the uniqueness of an image's text
//! rest on these facts.
use crate::decimal::{decimal, is_digit, lemma_decimal, lemma_number_unique, number_at};
use crate::framebuffer::pixel_of;
use crate::ppm::{color_text, header_text, ppm_text, row_start_text, rows_text};
use vstd::prelude::*;
use vstd::utf8::is_ascii_chars;

verus! {

/// The text of an image up to pixel `x` of row `row`: the header, the lines
/// of the rows before, and the pixels before in the row.
pub open spec fn progress_text(
    width: nat,
    height: nat,
    channels: Seq<u8>,
    row: nat,
    x: nat,
) -> Seq<char> {
    header_text(width, height) + rows_text(channels, width, row) + row_start_text(
        channels,
        width,
        row,
        x,
    )
}

/// `text` holds at `pos` the text of a pixel of the colour `color`.
pub open spec fn color_at(text: Seq<char>, pos: int, color: (u8, u8, u8)) -> bool {
    &&& 0 <= pos
    &&& pos + color_text(color).len() <= text.len()
    &&& text.subrange(pos, pos + color_text(color).len()) == color_text(color)
}

/// `text` begins with the header of an image of `width` by `height` pixels.
pub open spec fn header_at(text: Seq<char>, width: nat, height: nat) -> bool {
    header_text(width, height).is_prefix_of(text)
}

/// The first `n` values of `a` are those of `b`.
pub open spec fn agree(a: Seq<u8>, b: Seq<u8>, n: nat) -> bool {
    forall|j: int| 0 <= j < n ==> a[j] == b[j]
}

/// Where the text of a pixel stands, its three numbers stand, each followed
/// by a space.
pub proof fn lemma_color_numbers(text: Seq<char>, pos: int, color: (u8, u8, u8))
    requires
        color_at(text, pos, color),
    ensures
        ({
            let a = pos + decimal(color.0 as nat).len();
            let b = a + 1 + decimal(color.1 as nat).len();
            let c = b + 1 + decimal(color.2 as nat).len();
            &&& number_at(text, pos, color.0 as nat, a)
            &&& text[a] == ' '
            &&& number_at(text, a + 1, color.1 as nat, b)
            &&& text[b] == ' '
            &&& number_at(text, b + 1, color.2 as nat, c)
            &&& text[c] == ' '
            &&& c + 1 == pos + color_text(color).len()
        }),
{
    let whole = color_text(color);
    let a = pos + decimal(color.0 as nat).len();
    let b = a + 1 + decimal(color.1 as nat).len();
    let c = b + 1 + decimal(color.2 as nat).len();
    lemma_decimal(color.0 as nat);
    lemma_decimal(color.1 as nat);
    lemma_decimal(color.2 as nat);
    let part = text.subrange(pos, pos + whole.len());
    assert(text.subrange(pos, a) =~= decimal(color.0 as nat)) by {
        assert forall|i: int| 0 <= i < a - pos implies text.subrange(pos, a)[i] == decimal(
            color.0 as nat,
        )[i] by {
            assert(text[pos + i] == part[i]);
        }
    }
    assert(text[a] == part[a - pos]);
    assert(text.subrange(a + 1, b) =~= decimal(color.1 as nat)) by {
        assert forall|i: int| 0 <= i < b - a - 1 implies text.subrange(a + 1, b)[i] == decimal(
            color.1 as nat,
        )[i] by {
            assert(text[a + 1 + i] == part[a + 1 + i - pos]);
        }
    }
    assert(text[b] == part[b - pos]);
    assert(text.subrange(b + 1, c) =~= decimal(color.2 as nat)) by {
        assert forall|i: int| 0 <= i < c - b - 1 implies text.subrange(b + 1, c)[i] == decimal(
            color.2 as nat,
        )[i] by {
            assert(text[b + 1 + i] == part[b + 1 + i - pos]);
        }
    }
    assert(text[c] == part[c - pos]);
}

/// Where three numbers stand, each followed by a space, the text of a pixel
/// stands.
pub proof fn lemma_numbers_color(text: Seq<char>, pos: int, color: (u8, u8, u8), a: int, b: int, c: int)
    requires
        number_at(text, pos, color.0 as nat, a),
        a < text.len() && text[a] == ' ',
        number_at(text, a + 1, color.1 as nat, b),
        b < text.len() && text[b] == ' ',
        number_at(text, b + 1, color.2 as nat, c),
        c < text.len() && text[c] == ' ',
    ensures
        color_at(text, pos, color),
        c + 1 == pos + color_text(color).len(),
{
    let whole = color_text(color);
    assert(decimal(color.0 as nat).len() == a - pos);
    assert(decimal(color.1 as nat).len() == b - a - 1);
    assert(decimal(color.2 as nat).len() == c - b - 1);
    assert(text.subrange(pos, c + 1) =~= whole) by {
        assert forall|i: int| 0 <= i < c + 1 - pos implies text.subrange(pos, c + 1)[i]
            == whole[i] by {
            if i < a - pos {
                assert(text.subrange(pos, a)[i] == text[pos + i]);
            } else if i == a - pos {
            } else if i < b - pos {
                assert(text.subrange(a + 1, b)[i - (a + 1 - pos)] == text[pos + i]);
            } else if i == b - pos {
            } else if i < c - pos {
                assert(text.subrange(b + 1, c)[i - (b + 1 - pos)] == text[pos + i]);
            } else {
            }
        }
    }
}

/// A text holds the text of at most one pixel at a place.
pub proof fn lemma_color_unique(text: Seq<char>, pos: int, a: (u8, u8, u8), b: (u8, u8, u8))
    requires
        color_at(text, pos, a),
        color_at(text, pos, b),
    ensures
        a == b,
{
    lemma_color_numbers(text, pos, a);
    lemma_color_numbers(text, pos, b);
    let a1 = pos + decimal(a.0 as nat).len();
    let b1 = pos + decimal(b.0 as nat).len();
    lemma_number_unique(text, pos, a.0 as nat, a1, b.0 as nat, b1);
    let a2 = a1 + 1 + decimal(a.1 as nat).len();
    let b2 = b1 + 1 + decimal(b.1 as nat).len();
    lemma_number_unique(text, a1 + 1, a.1 as nat, a2, b.1 as nat, b2);
    let a3 = a2 + 1 + decimal(a.2 as nat).len();
    let b3 = b2 + 1 + decimal(b.2 as nat).len();
    lemma_number_unique(text, a2 + 1, a.2 as nat, a3, b.2 as nat, b3);
}

/// Where a header stands, its two numbers stand, the width followed by a
/// space and the height by the line `255`.
pub proof fn lemma_header_numbers(text: Seq<char>, width: nat, height: nat)
    requires
        header_at(text, width, height),
    ensures
        ({
            let a = 3 + decimal(width).len() as int;
            let b = a + 1 + decimal(height).len();
            &&& text[0] == 'P' && text[1] == '3' && text[2] == '\n'
            &&& number_at(text, 3, width, a)
            &&& text[a] == ' '
            &&& number_at(text, a + 1, height, b)
            &&& text[b] == '\n' && text[b + 1] == '2' && text[b + 2] == '5' && text[b + 3] == '5'
                && text[b + 4] == '\n'
            &&& b + 5 == header_text(width, height).len()
            &&& b + 5 <= text.len()
        }),
{
    let whole = header_text(width, height);
    let a = 3 + decimal(width).len() as int;
    let b = a + 1 + decimal(height).len();
    lemma_decimal(width);
    lemma_decimal(height);
    let part = text.subrange(0, whole.len() as int);
    assert(part == whole);
    assert(text[0] == part[0] && text[1] == part[1] && text[2] == part[2]);
    assert(text.subrange(3, a) =~= decimal(width)) by {
        assert forall|i: int| 0 <= i < a - 3 implies text.subrange(3, a)[i] == decimal(width)[i] by {
            assert(text[3 + i] == part[3 + i]);
        }
    }
    assert(text[a] == part[a]);
    assert(text.subrange(a + 1, b) =~= decimal(height)) by {
        assert forall|i: int| 0 <= i < b - a - 1 implies text.subrange(a + 1, b)[i] == decimal(
            height,
        )[i] by {
            assert(text[a + 1 + i] == part[a + 1 + i]);
        }
    }
    assert(text[b] == part[b] && text[b + 1] == part[b + 1] && text[b + 2] == part[b + 2] && text[b
        + 3] == part[b + 3] && text[b + 4] == part[b + 4]);
}

/// Where the two numbers of a header stand in their places between its fixed
/// parts, the header stands.
pub proof fn lemma_numbers_header(text: Seq<char>, width: nat, height: nat, a: int, b: int)
    requires
        3 <= text.len(),
        text[0] == 'P' && text[1] == '3' && text[2] == '\n',
        number_at(text, 3, width, a),
        a < text.len() && text[a] == ' ',
        number_at(text, a + 1, height, b),
        b + 5 <= text.len(),
        text[b] == '\n' && text[b + 1] == '2' && text[b + 2] == '5' && text[b + 3] == '5' && text[b
            + 4] == '\n',
    ensures
        header_at(text, width, height),
        b + 5 == header_text(width, height).len(),
{
    let whole = header_text(width, height);
    assert(decimal(width).len() == a - 3);
    assert(decimal(height).len() == b - a - 1);
    assert(text.subrange(0, b + 5) =~= whole) by {
        assert forall|i: int| 0 <= i < b + 5 implies text.subrange(0, b + 5)[i] == whole[i] by {
            if 3 <= i < a {
                assert(text.subrange(3, a)[i - 3] == text[i]);
            } else if a < i < b {
                assert(text.subrange(a + 1, b)[i - a - 1] == text[i]);
            } else {
            }
        }
    }
}

/// A text begins with at most one header.
pub proof fn lemma_header_unique(text: Seq<char>, w1: nat, h1: nat, w2: nat, h2: nat)
    requires
        header_at(text, w1, h1),
        header_at(text, w2, h2),
    ensures
        w1 == w2,
        h1 == h2,
{
    lemma_header_numbers(text, w1, h1);
    lemma_header_numbers(text, w2, h2);
    let a1 = 3 + decimal(w1).len() as int;
    let a2 = 3 + decimal(w2).len() as int;
    lemma_number_unique(text, 3, w1, a1, w2, a2);
    lemma_number_unique(
        text,
        a1 + 1,
        h1,
        a1 + 1 + decimal(h1).len(),
        h2,
        a2 + 1 + decimal(h2).len(),
    );
}

/// The start of a row depends only on the channel values before its end.
proof fn lemma_row_start_same(a: Seq<u8>, b: Seq<u8>, width: nat, row: nat, x: nat)
    requires
        agree(a, b, 3 * (row * width + x)),
    ensures
        row_start_text(a, width, row, x) == row_start_text(b, width, row, x),
    decreases x,
{
    if x > 0 {
        lemma_row_start_same(a, b, width, row, (x - 1) as nat);
        let i = 3 * (row * width + (x - 1));
        assert(a[i] == b[i] && a[i + 1] == b[i + 1] && a[i + 2] == b[i + 2]);
        assert(pixel_of(a, width, (x - 1) as nat, row) == pixel_of(b, width, (x - 1) as nat, row));
    }
}

/// The lines of the first rows depend only on the channel values of those
/// rows.
proof fn lemma_rows_same(a: Seq<u8>, b: Seq<u8>, width: nat, rows: nat)
    requires
        agree(a, b, 3 * (rows * width)),
    ensures
        rows_text(a, width, rows) == rows_text(b, width, rows),
    decreases rows,
{
    if rows > 0 {
        let before = (rows - 1) as nat;
        assert(before * width + width == rows * width) by (nonlinear_arith)
            requires
                before + 1 == rows,
        ;
        lemma_rows_same(a, b, width, before);
        lemma_row_start_same(a, b, width, before, width);
    }
}

/// The text up to a pixel depends only on the channel values before the
/// pixel.
pub proof fn lemma_progress_same(
    width: nat,
    height: nat,
    a: Seq<u8>,
    b: Seq<u8>,
    row: nat,
    x: nat,
)
    requires
        agree(a, b, 3 * (row * width + x)),
    ensures
        progress_text(width, height, a, row, x) == progress_text(width, height, b, row, x),
{
    lemma_rows_same(a, b, width, row);
    lemma_row_start_same(a, b, width, row, x);
}

/// The lines of the first rows begin the lines of any more rows.
proof fn lemma_rows_prefix(channels: Seq<u8>, width: nat, few: nat, many: nat)
    requires
        few <= many,
    ensures
        rows_text(channels, width, few).is_prefix_of(rows_text(channels, width, many)),
    decreases many,
{
    if few < many {
        lemma_rows_prefix(channels, width, few, (many - 1) as nat);
    }
}

/// The first pixels of a row begin the text of any more of its pixels.
proof fn lemma_row_start_prefix(channels: Seq<u8>, width: nat, row: nat, few: nat, many: nat)
    requires
        few <= many,
    ensures
        row_start_text(channels, width, row, few).is_prefix_of(
            row_start_text(channels, width, row, many),
        ),
    decreases many,
{
    if few < many {
        lemma_row_start_prefix(channels, width, row, few, (many - 1) as nat);
    }
}

/// The text up to a pixel of the image begins the text of the image, and so
/// does the whole text, which is the text up to the row after the last.
pub proof fn lemma_progress_prefix(width: nat, height: nat, channels: Seq<u8>, row: nat, x: nat)
    requires
        (row < height && x <= width) || (row == height && x == 0),
    ensures
        progress_text(width, height, channels, row, x).is_prefix_of(
            ppm_text(width, height, channels),
        ),
        progress_text(width, height, channels, height, 0) == ppm_text(width, height, channels),
        progress_text(width, height, channels, 0, 0) == header_text(width, height),
{
    let header = header_text(width, height);
    let whole = ppm_text(width, height, channels);
    assert(progress_text(width, height, channels, height, 0) =~= whole);
    assert(progress_text(width, height, channels, 0, 0) =~= header);
    if row < height {
        let lines = rows_text(channels, width, row);
        let start = row_start_text(channels, width, row, x);
        let full = row_start_text(channels, width, row, width);
        let next = rows_text(channels, width, row + 1);
        lemma_row_start_prefix(channels, width, row, x, width);
        lemma_rows_prefix(channels, width, row + 1, height);
        assert(next =~= lines + full + seq!['\n']);
        let all = rows_text(channels, width, height);
        let part = progress_text(width, height, channels, row, x);
        assert(part.len() <= whole.len());
        assert forall|i: int| 0 <= i < part.len() implies part[i] == whole[i] by {
            if i >= header.len() {
                let j = i - header.len();
                assert(whole[i] == all[j]);
                assert(all[j] == next[j]);
                if j >= lines.len() {
                    assert(next[j] == full[j - lines.len()]);
                    assert(full[j - lines.len()] == start[j - lines.len()]);
                }
            }
        }
        assert(part =~= whole.subrange(0, part.len() as int));
    }
}

/// In the text of an image, the text of each pixel stands where the text up
/// to the pixel ends.
pub proof fn lemma_color_in_text(width: nat, height: nat, channels: Seq<u8>, row: nat, x: nat)
    requires
        row < height,
        x < width,
    ensures
        color_at(
            ppm_text(width, height, channels),
            progress_text(width, height, channels, row, x).len() as int,
            pixel_of(channels, width, x, row),
        ),
        progress_text(width, height, channels, row, x + 1) == progress_text(
            width,
            height,
            channels,
            row,
            x,
        ) + color_text(pixel_of(channels, width, x, row)),
{
    let whole = ppm_text(width, height, channels);
    let before = progress_text(width, height, channels, row, x);
    let after = progress_text(width, height, channels, row, x + 1);
    let color = pixel_of(channels, width, x, row);
    lemma_progress_prefix(width, height, channels, row, x + 1);
    assert(after =~= before + color_text(color));
    assert(whole.subrange(before.len() as int, (before.len() + color_text(color).len()) as int) =~= color_text(
        color,
    )) by {
        assert forall|i: int| 0 <= i < color_text(color).len() implies whole[before.len() + i]
            == color_text(color)[i] by {
            assert(whole[before.len() + i] == after[before.len() + i]);
        }
    }
}

/// In the text of an image, a line feed stands where the pixels of each row
/// end, and the next row begins after it.
pub proof fn lemma_line_end_in_text(width: nat, height: nat, channels: Seq<u8>, row: nat)
    requires
        row < height,
    ensures
        progress_text(width, height, channels, row, width).len() < ppm_text(
            width,
            height,
            channels,
        ).len(),
        ppm_text(width, height, channels)[progress_text(
            width,
            height,
            channels,
            row,
            width,
        ).len() as int] == '\n',
        progress_text(width, height, channels, row + 1, 0) == progress_text(
            width,
            height,
            channels,
            row,
            width,
        ) + seq!['\n'],
{
    let whole = ppm_text(width, height, channels);
    let before = progress_text(width, height, channels, row, width);
    let after = progress_text(width, height, channels, row + 1, 0);
    assert(after =~= before + seq!['\n']);
    if row + 1 < height {
        lemma_progress_prefix(width, height, channels, row + 1, 0);
    } else {
        lemma_progress_prefix(width, height, channels, height, 0);
    }
    assert(whole[before.len() as int] == after[before.len() as int]);
}

/// Two images with the same text have the same channel values up to any
/// pixel.
pub proof fn lemma_same_text_agree(
    width: nat,
    height: nat,
    a: Seq<u8>,
    b: Seq<u8>,
    row: nat,
    x: nat,
)
    requires
        ppm_text(width, height, a) == ppm_text(width, height, b),
        (row < height && x <= width) || (row == height && x == 0),
    ensures
        agree(a, b, 3 * (row * width + x)),
    decreases row, x,
{
    if x > 0 {
        let before = (x - 1) as nat;
        lemma_same_text_agree(width, height, a, b, row, before);
        lemma_progress_same(width, height, a, b, row, before);
        lemma_color_in_text(width, height, a, row, before);
        lemma_color_in_text(width, height, b, row, before);
        lemma_color_unique(
            ppm_text(width, height, a),
            progress_text(width, height, a, row, before).len() as int,
            pixel_of(a, width, before, row),
            pixel_of(b, width, before, row),
        );
        let i = (3 * (row * width + before)) as int;
        assert(a[i] == b[i] && a[i + 1] == b[i + 1] && a[i + 2] == b[i + 2]);
    } else if row > 0 {
        let above = (row - 1) as nat;
        lemma_same_text_agree(width, height, a, b, above, width);
        assert(above * width + width == row * width) by (nonlinear_arith)
            requires
                above + 1 == row,
        ;
    }
}

/// The text of an image holds ASCII characters only.
pub proof fn lemma_text_ascii(width: nat, height: nat, channels: Seq<u8>)
    ensures
        is_ascii_chars(ppm_text(width, height, channels)),
{
    lemma_decimal(width);
    lemma_decimal(height);
    lemma_rows_ascii(channels, width, height);
    let header = header_text(width, height);
    assert(is_ascii_chars(header)) by {
        let a = 3 + decimal(width).len() as int;
        assert forall|i: int| 0 <= i < header.len() implies '\0' <= #[trigger] header[i]
            <= '\u{7f}' by {
            if 3 <= i < a {
                assert(is_digit(decimal(width)[i - 3]));
            } else if a < i < a + 1 + decimal(height).len() {
                assert(is_digit(decimal(height)[i - a - 1]));
            }
        }
    }
}

/// The text of a pixel holds ASCII characters only.
proof fn lemma_color_ascii(color: (u8, u8, u8))
    ensures
        is_ascii_chars(color_text(color)),
{
    lemma_decimal(color.0 as nat);
    lemma_decimal(color.1 as nat);
    lemma_decimal(color.2 as nat);
    let whole = color_text(color);
    let a = decimal(color.0 as nat).len() as int;
    let b = a + 1 + decimal(color.1 as nat).len();
    let c = b + 1 + decimal(color.2 as nat).len();
    assert forall|i: int| 0 <= i < whole.len() implies '\0' <= #[trigger] whole[i] <= '\u{7f}' by {
        if i < a {
            assert(is_digit(decimal(color.0 as nat)[i]));
        } else if a < i < b {
            assert(is_digit(decimal(color.1 as nat)[i - a - 1]));
        } else if b < i < c {
            assert(is_digit(decimal(color.2 as nat)[i - b - 1]));
        }
    }
}

/// The start of a row holds ASCII characters only.
proof fn lemma_row_start_ascii(channels: Seq<u8>, width: nat, row: nat, x: nat)
    ensures
        is_ascii_chars(row_start_text(channels, width, row, x)),
    decreases x,
{
    if x > 0 {
        lemma_row_start_ascii(channels, width, row, (x - 1) as nat);
        lemma_color_ascii(pixel_of(channels, width, (x - 1) as nat, row));
    }
}

/// The lines of the first rows hold ASCII characters only.
proof fn lemma_rows_ascii(channels: Seq<u8>, width: nat, rows: nat)
    ensures
        is_ascii_chars(rows_text(channels, width, rows)),
    decreases rows,
{
    if rows > 0 {
        lemma_rows_ascii(channels, width, (rows - 1) as nat);
        lemma_row_start_ascii(channels, width, (rows - 1) as nat, width);
    }
}

} // verus!
