//! Splitting an image into horizontal bands of equal height.
//!
//! A render fills a flat, row-major buffer with three channels per pixel.
//! The rows are handed out in `count` bands of `height / count` rows each,
//! one band per worker. A [`Bands`] value is a checked plan for such a split:
//! it exists only where the bands are all of one height and cover every row,
//! so no row can be left out, and where every index computed from it fits
//! the machine's address range.
use vstd::prelude::*;

verus! {

/// Why no band plan exists for the requested sizes.
#[derive(Clone, Copy, Debug, PartialEq, Eq, Structural)]
pub enum BandError {
    /// The image width or height is negative.
    NegativeSize,
    /// Fewer than one band was asked for.
    NoBands,
    /// The image is wider or higher than `u32::MAX`, more than `u32::MAX`
    /// bands were asked for, or the image buffer would be longer than
    /// `isize::MAX`.
    TooLarge,
    /// The image height is not a multiple of the number of bands, so bands of
    /// equal height would leave rows out.
    UnevenBands,
}

/// Whether an image of `width` by `height` pixels can be addressed: both
/// sides fit `u32`, and a row and the whole buffer are at most `isize::MAX`
/// long.
pub open spec fn fits(width: int, height: int) -> bool {
    &&& 0 <= width <= u32::MAX
    &&& 0 <= height <= u32::MAX
    &&& 3 * width <= isize::MAX
    &&& 3 * width * height <= isize::MAX
}

/// Whether an image of `width` by `height` pixels can be addressed.
pub fn can_address(width: u64, height: u64) -> (r: bool)
    ensures
        r == fits(width as int, height as int),
{
    if width > u32::MAX as u64 || height > u32::MAX as u64 {
        return false;
    }
    let limit: u128 = isize::MAX as u128;
    let row: u128 = 3 * (width as u128);
    assert(row * (height as u128) <= 0xffff_ffff_ffff_ffff_ffff_ffff) by (nonlinear_arith)
        requires
            row <= 3 * 0xffff_ffff,
            height as u128 <= 0xffff_ffff,
    ;
    row <= limit && row * (height as u128) <= limit
}

/// The first reason, in the order of [`BandError`]'s variants, for which
/// `width`, `height` and `count` admit no plan, or `None` where they admit
/// one.
pub open spec fn plan_error(width: int, height: int, count: int) -> Option<BandError> {
    if width < 0 || height < 0 {
        Some(BandError::NegativeSize)
    } else if count < 1 {
        Some(BandError::NoBands)
    } else if !fits(width, height) || count > u32::MAX {
        Some(BandError::TooLarge)
    } else if height % count != 0 {
        Some(BandError::UnevenBands)
    } else {
        None
    }
}

/// A plan that splits an image of `width` by `height` pixels into `count`
/// bands of equal height.
#[derive(Clone, Copy, Debug, PartialEq, Eq)]
pub struct Bands {
    width: usize,
    height: usize,
    count: usize,
}

impl Bands {
    /// The image width in pixels.
    pub closed spec fn spec_width(&self) -> nat {
        self.width as nat
    }

    /// The image height in pixels.
    pub closed spec fn spec_height(&self) -> nat {
        self.height as nat
    }

    /// The number of bands.
    pub closed spec fn spec_count(&self) -> nat {
        self.count as nat
    }

    /// A plan is well formed when its sizes admit a plan at all. Every plan
    /// that executable code holds is well formed.
    #[verifier::type_invariant]
    pub open spec fn wf(&self) -> bool {
        plan_error(self.spec_width() as int, self.spec_height() as int, self.spec_count() as int)
            is None
    }

    /// The number of rows in each band.
    pub open spec fn spec_band_height(&self) -> nat {
        self.spec_height() / self.spec_count()
    }

    /// The number of channel values in one image row.
    pub open spec fn spec_row_len(&self) -> nat {
        3 * self.spec_width()
    }

    /// The number of channel values in one band.
    pub open spec fn spec_band_len(&self) -> nat {
        self.spec_band_height() * self.spec_row_len()
    }

    /// The number of channel values in the whole image.
    pub open spec fn spec_buffer_len(&self) -> nat {
        self.spec_height() * self.spec_row_len()
    }

    /// Where band `band` begins in the image buffer.
    pub open spec fn spec_band_start(&self, band: nat) -> nat {
        band * self.spec_band_len()
    }

    /// The image row that row `y` of band `band` is.
    pub open spec fn spec_image_row(&self, band: nat, y: nat) -> nat {
        band * self.spec_band_height() + y
    }

    /// Where the first channel of pixel `x` of row `row` stands, counted from
    /// the row numbered 0: in the image buffer for an image row, in a band's
    /// own buffer for a row of that band.
    pub open spec fn spec_pixel_index(&self, x: nat, row: nat) -> nat {
        row * self.spec_row_len() + 3 * x
    }

    /// Checks the sizes and makes the plan for them.
    ///
    /// The sizes come as signed numbers, as a caller computes them. They are
    /// refused where they admit no plan: in particular a height that the
    /// bands do not divide is reported, never cut short.
    pub fn new(image_width: i64, image_height: i64, y_blocks: i64) -> (r: Result<Bands, BandError>)
        ensures
            match r {
                Ok(plan) => {
                    &&& plan_error(image_width as int, image_height as int, y_blocks as int)
                        is None
                    &&& plan.wf()
                    &&& plan.spec_width() == image_width
                    &&& plan.spec_height() == image_height
                    &&& plan.spec_count() == y_blocks
                },
                Err(e) => plan_error(image_width as int, image_height as int, y_blocks as int)
                    == Some(e),
            },
    {
        if image_width < 0 || image_height < 0 {
            return Err(BandError::NegativeSize);
        }
        if y_blocks < 1 {
            return Err(BandError::NoBands);
        }
        if !can_address(image_width as u64, image_height as u64) || y_blocks > u32::MAX as i64 {
            return Err(BandError::TooLarge);
        }
        if image_height % y_blocks != 0 {
            return Err(BandError::UnevenBands);
        }
        Ok(Bands {
            width: image_width as usize,
            height: image_height as usize,
            count: y_blocks as usize,
        })
    }

    /// The image width in pixels.
    pub fn width(&self) -> (r: usize)
        ensures
            r == self.spec_width(),
    {
        self.width
    }

    /// The image height in pixels.
    pub fn height(&self) -> (r: usize)
        ensures
            r == self.spec_height(),
    {
        self.height
    }

    /// The number of bands.
    pub fn count(&self) -> (r: usize)
        ensures
            r == self.spec_count(),
    {
        self.count
    }

    /// The number of rows in each band.
    pub fn band_height(&self) -> (r: usize)
        ensures
            r == self.spec_band_height(),
    {
        proof {
            use_type_invariant(self);
        }
        self.height / self.count
    }

    /// The number of channel values in one image row.
    pub fn row_len(&self) -> (r: usize)
        ensures
            r == self.spec_row_len(),
    {
        proof {
            use_type_invariant(self);
        }
        3 * self.width
    }

    /// The number of channel values in one band.
    pub fn band_len(&self) -> (r: usize)
        ensures
            r == self.spec_band_len(),
    {
        proof {
            use_type_invariant(self);
            lemma_band_bounds(*self, 0);
        }
        (self.height / self.count) * (3 * self.width)
    }

    /// The number of channel values in the whole image.
    pub fn buffer_len(&self) -> (r: usize)
        ensures
            r == self.spec_buffer_len(),
    {
        proof {
            use_type_invariant(self);
            lemma_band_bounds(*self, 0);
        }
        self.height * (3 * self.width)
    }

    /// Where band `band` begins in the image buffer.
    pub fn band_start(&self, band: usize) -> (r: usize)
        requires
            band < self.spec_count(),
        ensures
            r == self.spec_band_start(band as nat),
    {
        proof {
            use_type_invariant(self);
            lemma_band_bounds(*self, band as nat);
        }
        band * self.band_len()
    }

    /// The image row that row `y` of band `band` is.
    pub fn image_row(&self, band: usize, y: usize) -> (r: usize)
        requires
            band < self.spec_count(),
            y < self.spec_band_height(),
        ensures
            r == self.spec_image_row(band as nat, y as nat),
            r < self.spec_height(),
    {
        proof {
            use_type_invariant(self);
            lemma_row_bounds(*self, band as nat, y as nat);
        }
        band * self.band_height() + y
    }

    /// Where the first channel of pixel `x` of row `row` stands, counted from
    /// the row numbered 0.
    pub fn pixel_index(&self, x: usize, row: usize) -> (r: usize)
        requires
            x < self.spec_width(),
            row < self.spec_height(),
        ensures
            r == self.spec_pixel_index(x as nat, row as nat),
            r + 3 <= self.spec_buffer_len(),
    {
        proof {
            use_type_invariant(self);
            lemma_band_bounds(*self, 0);
            lemma_pixel_bounds(*self, x as nat, row as nat);
        }
        row * self.row_len() + 3 * x
    }
}

/// The bands lie one after the other in the image buffer: band `band` ends
/// where the next one begins, and the last one ends with the buffer.
pub proof fn lemma_band_bounds(plan: Bands, band: nat)
    requires
        plan.wf(),
        band < plan.spec_count(),
    ensures
        plan.spec_height() == plan.spec_count() * plan.spec_band_height(),
        plan.spec_buffer_len() == plan.spec_count() * plan.spec_band_len(),
        plan.spec_band_start(band) + plan.spec_band_len() == plan.spec_band_start(band + 1),
        plan.spec_band_start(band + 1) <= plan.spec_buffer_len(),
        plan.spec_band_start(plan.spec_count()) == plan.spec_buffer_len(),
        plan.spec_buffer_len() <= isize::MAX,
        plan.spec_row_len() <= isize::MAX,
{
    let h = plan.spec_height() as int;
    let n = plan.spec_count() as int;
    let w = plan.spec_row_len() as int;
    let bh = plan.spec_band_height() as int;
    let b = band as int;
    assert(h == n * bh) by (nonlinear_arith)
        requires
            n >= 1,
            h >= 0,
            h % n == 0,
            bh == h / n,
    ;
    assert(n * (bh * w) == (n * bh) * w) by (nonlinear_arith);
    assert(b * (bh * w) + bh * w == (b + 1) * (bh * w)) by (nonlinear_arith);
    assert((b + 1) * (bh * w) <= n * (bh * w)) by (nonlinear_arith)
        requires
            b + 1 <= n,
            bh >= 0,
            w >= 0,
    ;
    assert(h * w == 3 * plan.spec_width() * h) by (nonlinear_arith)
        requires
            w == 3 * plan.spec_width(),
    ;
}

/// Two different bands share no place in the image buffer: the one with the
/// smaller number ends before the other begins.
pub proof fn lemma_bands_disjoint(plan: Bands, first: nat, second: nat)
    requires
        plan.wf(),
        first < second,
        second < plan.spec_count(),
    ensures
        plan.spec_band_start(first + 1) <= plan.spec_band_start(second),
{
    let len = plan.spec_band_len() as int;
    let a = first as int;
    let b = second as int;
    assert((a + 1) * len <= b * len) by (nonlinear_arith)
        requires
            a + 1 <= b,
            len >= 0,
    ;
}

/// Each row of each band is a row of the image, and no two rows of the bands
/// are the same image row: the row's number gives back its band and its place
/// in the band.
pub proof fn lemma_row_bounds(plan: Bands, band: nat, y: nat)
    requires
        plan.wf(),
        band < plan.spec_count(),
        y < plan.spec_band_height(),
    ensures
        plan.spec_image_row(band, y) < plan.spec_height(),
        plan.spec_image_row(band, y) / plan.spec_band_height() == band,
        plan.spec_image_row(band, y) % plan.spec_band_height() == y,
{
    lemma_band_bounds(plan, band);
    let n = plan.spec_count() as int;
    let bh = plan.spec_band_height() as int;
    let b = band as int;
    assert(b * bh + bh <= n * bh) by (nonlinear_arith)
        requires
            b + 1 <= n,
            bh >= 0,
    ;
    vstd::arithmetic::div_mod::lemma_fundamental_div_mod_converse(
        b * bh + y as int,
        bh,
        b,
        y as int,
    );
}

/// Every row of the image is a row of exactly one band.
pub proof fn lemma_rows_covered(plan: Bands, row: nat)
    requires
        plan.wf(),
        row < plan.spec_height(),
    ensures
        plan.spec_band_height() > 0,
        row / plan.spec_band_height() < plan.spec_count(),
        row % plan.spec_band_height() < plan.spec_band_height(),
        plan.spec_image_row(row / plan.spec_band_height(), row % plan.spec_band_height()) == row,
{
    lemma_band_bounds(plan, 0);
    let n = plan.spec_count() as int;
    let bh = plan.spec_band_height() as int;
    let r = row as int;
    assert(bh > 0) by (nonlinear_arith)
        requires
            r < n * bh,
            r >= 0,
            n >= 1,
            bh >= 0,
    ;
    vstd::arithmetic::div_mod::lemma_fundamental_div_mod(r, bh);
    vstd::arithmetic::div_mod::lemma_mod_bound(r, bh);
    let q = r / bh;
    assert(q < n) by (nonlinear_arith)
        requires
            r == bh * q + r % bh,
            0 <= r % bh,
            r < n * bh,
            bh > 0,
    ;
    assert(q >= 0) by (nonlinear_arith)
        requires
            r == bh * q + r % bh,
            r % bh < bh,
            r >= 0,
            bh > 0,
    ;
    assert(q * bh == bh * q) by (nonlinear_arith);
}

/// The three channels of a pixel lie inside the image buffer, and the pixels
/// lie one after the other: along a row, and from the end of a row to the
/// start of the next.
pub proof fn lemma_pixel_bounds(plan: Bands, x: nat, row: nat)
    requires
        plan.wf(),
        x < plan.spec_width(),
        row < plan.spec_height(),
    ensures
        plan.spec_pixel_index(x, row) + 3 <= plan.spec_buffer_len(),
        plan.spec_pixel_index(x, row) == 3 * (row * plan.spec_width() + x),
        plan.spec_pixel_index(x, row) + 3 <= plan.spec_pixel_index(0, row + 1),
{
    lemma_band_bounds(plan, 0);
    let w = plan.spec_width() as int;
    let h = plan.spec_height() as int;
    let r = row as int;
    assert(r * (3 * w) + 3 * w <= h * (3 * w)) by (nonlinear_arith)
        requires
            r + 1 <= h,
            w >= 0,
    ;
    assert(r * (3 * w) == 3 * (r * w)) by (nonlinear_arith);
    assert((r + 1) * (3 * w) == r * (3 * w) + 3 * w) by (nonlinear_arith);
}

/// A pixel of a band stands in the image buffer where it stands in the band's
/// own buffer, moved by the band's start; and it lies inside the band.
pub proof fn lemma_pixel_in_band(plan: Bands, band: nat, x: nat, y: nat)
    requires
        plan.wf(),
        band < plan.spec_count(),
        x < plan.spec_width(),
        y < plan.spec_band_height(),
    ensures
        plan.spec_pixel_index(x, plan.spec_image_row(band, y)) == plan.spec_band_start(band)
            + plan.spec_pixel_index(x, y),
        plan.spec_pixel_index(x, y) + 3 <= plan.spec_band_len(),
{
    let w = plan.spec_row_len() as int;
    let bh = plan.spec_band_height() as int;
    let b = band as int;
    let yy = y as int;
    assert((b * bh + yy) * w == b * (bh * w) + yy * w) by (nonlinear_arith);
    assert(yy * w + w <= bh * w) by (nonlinear_arith)
        requires
            yy + 1 <= bh,
            w >= 0,
    ;
}

} // verus!
