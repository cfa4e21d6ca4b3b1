//! The image buffer that a render fills, band by band.
//!
//! A [`Framebuffer`] is a flat sequence of channel values, row after row,
//! three values for each pixel. It is generic in the channel type: a render
//! accumulates linear radiance in one buffer and hands out display values in
//! another.
//!
//! A worker renders one band into a buffer of its own with [`render_band`],
//! and the band is then copied into the shared image with
//! [`Framebuffer::write_band`]. The bands of a plan are disjoint and cover the
//! image, so the order in which they arrive does not matter, and once each has
//! arrived every pixel of the image holds what was computed for it.
use crate::bands::{
    can_address, fits, lemma_band_bounds, lemma_bands_disjoint, lemma_pixel_bounds,
    lemma_pixel_in_band, lemma_rows_covered, Bands,
};
use vstd::prelude::*;

verus! {

/// The three channels of the pixel that begins at `index` in `channels`.
pub open spec fn pixel_at<T>(channels: Seq<T>, index: int) -> (T, T, T) {
    (channels[index], channels[index + 1], channels[index + 2])
}

/// The pixel in column `x` of row `row`, in channels laid out for rows of
/// `width` pixels.
pub open spec fn pixel_of<T>(channels: Seq<T>, width: nat, x: nat, row: nat) -> (T, T, T) {
    pixel_at(channels, 3 * (row * width + x) as int)
}

/// `image` with band `band` of `plan` replaced by `local`.
pub open spec fn with_band<T>(image: Seq<T>, plan: Bands, band: nat, local: Seq<T>) -> Seq<T> {
    image.subrange(0, plan.spec_band_start(band) as int) + local + image.subrange(
        plan.spec_band_start(band + 1) as int,
        image.len() as int,
    )
}

/// Every pixel of the band buffer `local` holds a result of `shade` for its
/// column and for the image row that it stands for in band `band`.
pub open spec fn band_shaded<T, F: Fn(usize, usize) -> (T, T, T)>(
    plan: Bands,
    band: nat,
    local: Seq<T>,
    shade: F,
) -> bool {
    forall|x: nat, y: nat|
        x < plan.spec_width() && y < plan.spec_band_height() ==> call_ensures(
            shade,
            (x as usize, plan.spec_image_row(band, y) as usize),
            #[trigger] pixel_of(local, plan.spec_width(), x, y),
        )
}

/// Every pixel of `image` holds a result of `shade` for its column and row.
pub open spec fn image_shaded<T, F: Fn(usize, usize) -> (T, T, T)>(
    width: nat,
    height: nat,
    image: Seq<T>,
    shade: F,
) -> bool {
    forall|x: nat, row: nat|
        x < width && row < height ==> call_ensures(
            shade,
            (x as usize, row as usize),
            #[trigger] pixel_of(image, width, x, row),
        )
}

/// An image of `width` by `height` pixels with three channel values of type
/// `T` for each pixel, stored row after row.
#[derive(Debug)]
pub struct Framebuffer<T> {
    width: usize,
    height: usize,
    data: Vec<T>,
}

impl<T> View for Framebuffer<T> {
    type V = Seq<T>;

    /// The channel values, row after row.
    closed spec fn view(&self) -> Seq<T> {
        self.data@
    }
}

impl<T> Framebuffer<T> {
    /// The image width in pixels.
    pub closed spec fn spec_width(&self) -> nat {
        self.width as nat
    }

    /// The image height in pixels.
    pub closed spec fn spec_height(&self) -> nat {
        self.height as nat
    }

    /// An image is well formed when its sizes can be addressed and it holds
    /// three values for each pixel. Every image that executable code holds is
    /// well formed.
    #[verifier::type_invariant]
    pub open spec fn wf(&self) -> bool {
        &&& fits(self.spec_width() as int, self.spec_height() as int)
        &&& self@.len() == 3 * self.spec_width() * self.spec_height()
    }

    /// The pixel in column `x` of row `row`.
    pub open spec fn spec_pixel(&self, x: nat, row: nat) -> (T, T, T) {
        pixel_of(self@, self.spec_width(), x, row)
    }

    /// Whether the image has the sizes that `plan` was made for.
    pub open spec fn matches(&self, plan: Bands) -> bool {
        self.spec_width() == plan.spec_width() && self.spec_height() == plan.spec_height()
    }

    /// Makes an image from its channel values. There is one where the sizes
    /// can be addressed and `data` holds three values for each pixel.
    pub fn from_vec(width: usize, height: usize, data: Vec<T>) -> (r: Option<Framebuffer<T>>)
        ensures
            r is Some <==> fits(width as int, height as int) && data@.len() == 3 * width * height,
            r matches Some(image) ==> {
                &&& image.wf()
                &&& image.spec_width() == width
                &&& image.spec_height() == height
                &&& image@ == data@
            },
    {
        if !can_address(width as u64, height as u64) {
            return None;
        }
        if data.len() != 3 * width * height {
            return None;
        }
        Some(Framebuffer { width, height, data })
    }

    /// The image width in pixels.
    pub fn width(&self) -> (r: usize)
        ensures
            r == self.spec_width(),
    {
        self.width
    }

    /// The image height in pixels.
    pub fn height(&self) -> (r: usize)
        ensures
            r == self.spec_height(),
    {
        self.height
    }

    /// The channel values, row after row.
    pub fn channels(&self) -> (r: &Vec<T>)
        ensures
            r@ == self@,
    {
        &self.data
    }

    /// Gives up the image for its channel values.
    pub fn into_vec(self) -> (r: Vec<T>)
        ensures
            r@ == self@,
    {
        self.data
    }
}

impl<T: Copy> Framebuffer<T> {
    /// Makes an image of the sizes of `plan` with every channel set to `fill`.
    pub fn new(plan: &Bands, fill: T) -> (image: Framebuffer<T>)
        ensures
            image.wf(),
            image.matches(*plan),
            image@ == Seq::new(plan.spec_buffer_len(), |i: int| fill),
    {
        proof {
            use_type_invariant(plan);
            lemma_band_bounds(*plan, 0);
        }
        let n = plan.buffer_len();
        let mut data: Vec<T> = Vec::with_capacity(n);
        let mut i: usize = 0;
        while i < n
            invariant
                i <= n,
                data@ == Seq::new(i as nat, |k: int| fill),
            decreases n - i,
        {
            data.push(fill);
            i = i + 1;
        }
        assert(plan.spec_height() * (3 * plan.spec_width()) == 3 * plan.spec_width()
            * plan.spec_height()) by (nonlinear_arith);
        Framebuffer { width: plan.width(), height: plan.height(), data }
    }

    /// The pixel in column `x` of row `row`.
    pub fn pixel(&self, x: usize, row: usize) -> (r: (T, T, T))
        requires
            x < self.spec_width(),
            row < self.spec_height(),
        ensures
            r == self.spec_pixel(x as nat, row as nat),
    {
        proof {
            use_type_invariant(self);
            lemma_pixel_fits(self.spec_width(), self.spec_height(), x as nat, row as nat);
        }
        let i = 3 * (row * self.width + x);
        (self.data[i], self.data[i + 1], self.data[i + 2])
    }

    /// Copies the band buffer `local` into the image as band `band` of
    /// `plan`. The rest of the image stays as it was.
    pub fn write_band(&mut self, plan: &Bands, band: usize, local: &Vec<T>)
        requires
            old(self).matches(*plan),
            band < plan.spec_count(),
            local@.len() == plan.spec_band_len(),
        ensures
            final(self).wf(),
            final(self).spec_width() == old(self).spec_width(),
            final(self).spec_height() == old(self).spec_height(),
            final(self)@ == with_band(old(self)@, *plan, band as nat, local@),
    {
        proof {
            use_type_invariant(&*self);
            use_type_invariant(plan);
            lemma_band_bounds(*plan, band as nat);
            assert(plan.spec_height() * (3 * plan.spec_width()) == 3 * plan.spec_width()
                * plan.spec_height()) by (nonlinear_arith);
        }
        let start = plan.band_start(band);
        let n = local.len();
        let ghost before = self.data@;
        let mut i: usize = 0;
        while i < n
            invariant
                i <= n,
                n == local@.len(),
                start + n <= before.len(),
                self.data@.len() == before.len(),
                self.width == old(self).width,
                self.height == old(self).height,
                self.wf(),
                forall|k: int| 0 <= k < start ==> self.data@[k] == before[k],
                forall|k: int| start <= k < start + i ==> self.data@[k] == local@[k - start],
                forall|k: int| start + i <= k < before.len() ==> self.data@[k] == before[k],
            decreases n - i,
        {
            self.data[start + i] = local[i];
            i = i + 1;
        }
        assert(self.data@ =~= with_band(before, *plan, band as nat, local@));
    }

    /// Makes the image whose every channel is what `convert` returns for the
    /// channel of this one.
    pub fn map<U, F: Fn(T) -> U>(&self, convert: &F) -> (image: Framebuffer<U>)
        requires
            forall|i: int| 0 <= i < self@.len() ==> call_requires(convert, (#[trigger] self@[i],)),
        ensures
            image.wf(),
            image.spec_width() == self.spec_width(),
            image.spec_height() == self.spec_height(),
            image@.len() == self@.len(),
            forall|i: int|
                0 <= i < self@.len() ==> call_ensures(convert, (self@[i],), #[trigger] image@[i]),
    {
        proof {
            use_type_invariant(self);
        }
        let n = self.data.len();
        let mut data: Vec<U> = Vec::with_capacity(n);
        let mut i: usize = 0;
        while i < n
            invariant
                i <= n,
                n == self.data@.len(),
                data@.len() == i,
                forall|k: int|
                    0 <= k < self.data@.len() ==> call_requires(
                        convert,
                        (#[trigger] self.data@[k],),
                    ),
                forall|k: int|
                    0 <= k < i ==> call_ensures(convert, (self.data@[k],), #[trigger] data@[k]),
            decreases n - i,
        {
            let value = convert(self.data[i]);
            data.push(value);
            i = i + 1;
        }
        Framebuffer { width: self.width, height: self.height, data }
    }
}

/// Renders band `band` of `plan` into a buffer of its own: `shade` is called
/// once for each pixel of the band, row after row, with the pixel's column
/// and its row in the image. The three values that it returns are the
/// pixel's channels.
pub fn render_band<T, F: Fn(usize, usize) -> (T, T, T)>(plan: &Bands, band: usize, shade: &F) -> (local:
    Vec<T>)
    requires
        band < plan.spec_count(),
        forall|x: usize, row: usize|
            x < plan.spec_width() && row < plan.spec_height() ==> call_requires(shade, (x, row)),
    ensures
        local@.len() == plan.spec_band_len(),
        band_shaded(*plan, band as nat, local@, *shade),
{
    proof {
        use_type_invariant(plan);
        lemma_band_bounds(*plan, band as nat);
    }
    let width = plan.width();
    let rows = plan.band_height();
    let mut local: Vec<T> = Vec::with_capacity(plan.band_len());
    let mut y: usize = 0;
    while y < rows
        invariant
            plan.wf(),
            band < plan.spec_count(),
            width == plan.spec_width(),
            rows == plan.spec_band_height(),
            y <= rows,
            local@.len() == 3 * (y * width),
            forall|x: usize, row: usize|
                x < plan.spec_width() && row < plan.spec_height() ==> call_requires(
                    shade,
                    (x, row),
                ),
            forall|x: nat, v: nat|
                x < width && v < y ==> call_ensures(
                    shade,
                    (x as usize, plan.spec_image_row(band as nat, v) as usize),
                    #[trigger] pixel_of(local@, width as nat, x, v),
                ),
        decreases rows - y,
    {
        let row = plan.image_row(band, y);
        let mut x: usize = 0;
        while x < width
            invariant
                plan.wf(),
                band < plan.spec_count(),
                width == plan.spec_width(),
                rows == plan.spec_band_height(),
                y < rows,
                x <= width,
                row == plan.spec_image_row(band as nat, y as nat),
                row < plan.spec_height(),
                local@.len() == 3 * (y * width + x),
                forall|x: usize, row: usize|
                    x < plan.spec_width() && row < plan.spec_height() ==> call_requires(
                        shade,
                        (x, row),
                    ),
                forall|u: nat, v: nat|
                    u < width && v < y ==> call_ensures(
                        shade,
                        (u as usize, plan.spec_image_row(band as nat, v) as usize),
                        #[trigger] pixel_of(local@, width as nat, u, v),
                    ),
                forall|u: nat|
                    u < x ==> call_ensures(
                        shade,
                        (u as usize, row),
                        #[trigger] pixel_of(local@, width as nat, u, y as nat),
                    ),
            decreases width - x,
        {
            let ghost earlier = local@;
            let (red, green, blue) = shade(x, row);
            local.push(red);
            local.push(green);
            local.push(blue);
            proof {
                assert forall|u: nat, v: nat| u < width && v < y implies #[trigger] pixel_of(
                    local@,
                    width as nat,
                    u,
                    v,
                ) == pixel_of(earlier, width as nat, u, v) by {
                    lemma_pixel_order(width as nat, u, v, x as nat, y as nat);
                }
                assert forall|u: nat| u < x implies #[trigger] pixel_of(
                    local@,
                    width as nat,
                    u,
                    y as nat,
                ) == pixel_of(earlier, width as nat, u, y as nat) by {
                    lemma_pixel_order(width as nat, u, y as nat, x as nat, y as nat);
                }
                assert(pixel_of(local@, width as nat, x as nat, y as nat) == (red, green, blue));
            }
            x = x + 1;
        }
        proof {
            assert(3 * (y * width + width) == 3 * ((y + 1) * width)) by (nonlinear_arith);
        }
        y = y + 1;
    }
    proof {
        assert(3 * (rows * width) == rows * (3 * width)) by (nonlinear_arith);
    }
    local
}

/// Renders the whole image on the calling thread: each band of `plan` in
/// turn, copied into an image that begins with every channel set to `fill`.
/// Every pixel of the result holds what `shade` returned for it.
pub fn render_single_thread<T: Copy, F: Fn(usize, usize) -> (T, T, T)>(
    plan: &Bands,
    fill: T,
    shade: &F,
) -> (image: Framebuffer<T>)
    requires
        forall|x: usize, row: usize|
            x < plan.spec_width() && row < plan.spec_height() ==> call_requires(shade, (x, row)),
    ensures
        image.wf(),
        image.matches(*plan),
        image_shaded(image.spec_width(), image.spec_height(), image@, *shade),
{
    proof {
        use_type_invariant(plan);
    }
    let mut image = Framebuffer::new(plan, fill);
    let count = plan.count();
    let mut band: usize = 0;
    while band < count
        invariant
            plan.wf(),
            count == plan.spec_count(),
            band <= count,
            image.wf(),
            image.matches(*plan),
            forall|x: usize, row: usize|
                x < plan.spec_width() && row < plan.spec_height() ==> call_requires(
                    shade,
                    (x, row),
                ),
            forall|b: nat|
                b < band ==> band_shaded(
                    *plan,
                    b,
                    #[trigger] band_of(image@, *plan, b),
                    *shade,
                ),
        decreases count - band,
    {
        let local = render_band(plan, band, shade);
        let ghost earlier = image@;
        image.write_band(plan, band, &local);
        proof {
            lemma_band_bounds(*plan, band as nat);
            assert(image@.len() == plan.spec_buffer_len()) by (nonlinear_arith)
                requires
                    image@.len() == 3 * plan.spec_width() * plan.spec_height(),
                    plan.spec_buffer_len() == plan.spec_height() * (3 * plan.spec_width()),
            ;
            lemma_band_written(earlier, *plan, band as nat, local@);
            assert forall|b: nat| b < band implies #[trigger] band_of(image@, *plan, b)
                == band_of(earlier, *plan, b) by {
                lemma_band_kept(earlier, *plan, band as nat, local@, b);
            }
        }
        band = band + 1;
    }
    proof {
        lemma_bands_make_image(*plan, image@, *shade);
    }
    image
}

/// The part of `image` that is band `band` of `plan`.
pub open spec fn band_of<T>(image: Seq<T>, plan: Bands, band: nat) -> Seq<T> {
    image.subrange(plan.spec_band_start(band) as int, plan.spec_band_start(band + 1) as int)
}

/// The three channels of a pixel of an image that can be addressed lie inside
/// its buffer.
pub proof fn lemma_pixel_fits(width: nat, height: nat, x: nat, row: nat)
    requires
        x < width,
        row < height,
    ensures
        3 * (row * width + x) + 3 <= 3 * width * height,
        3 * (row * width + x) + 3 <= 3 * ((row + 1) * width),
{
    assert(3 * (row * width + x) + 3 <= 3 * ((row + 1) * width)) by (nonlinear_arith)
        requires
            x < width,
    ;
    assert(3 * ((row + 1) * width) <= 3 * width * height) by (nonlinear_arith)
        requires
            row + 1 <= height,
    ;
}

/// Pixels are stored in reading order: one that comes earlier in its row, or
/// in an earlier row, ends before the other begins.
pub proof fn lemma_pixel_order(width: nat, u: nat, v: nat, x: nat, y: nat)
    requires
        u < width,
        x <= width,
        v < y || (v == y && u < x),
    ensures
        3 * (v * width + u) + 3 <= 3 * (y * width + x),
{
    if v < y {
        assert((v + 1) * width <= y * width) by (nonlinear_arith)
            requires
                v + 1 <= y,
        ;
        assert((v + 1) * width == v * width + width) by (nonlinear_arith);
    }
}

/// After a band is written, the image holds the band's buffer in the band's
/// place.
pub proof fn lemma_band_written<T>(image: Seq<T>, plan: Bands, band: nat, local: Seq<T>)
    requires
        plan.wf(),
        band < plan.spec_count(),
        image.len() == plan.spec_buffer_len(),
        local.len() == plan.spec_band_len(),
    ensures
        with_band(image, plan, band, local).len() == image.len(),
        band_of(with_band(image, plan, band, local), plan, band) == local,
{
    lemma_band_bounds(plan, band);
    assert(band_of(with_band(image, plan, band, local), plan, band) =~= local);
}

/// Writing a band leaves every other band of the image as it was.
pub proof fn lemma_band_kept<T>(image: Seq<T>, plan: Bands, band: nat, local: Seq<T>, other: nat)
    requires
        plan.wf(),
        band < plan.spec_count(),
        other < plan.spec_count(),
        other != band,
        image.len() == plan.spec_buffer_len(),
        local.len() == plan.spec_band_len(),
    ensures
        band_of(with_band(image, plan, band, local), plan, other) == band_of(image, plan, other),
{
    lemma_band_bounds(plan, band);
    lemma_band_bounds(plan, other);
    if other < band {
        lemma_bands_disjoint(plan, other, band);
    } else {
        lemma_bands_disjoint(plan, band, other);
    }
    assert(band_of(with_band(image, plan, band, local), plan, other) =~= band_of(
        image,
        plan,
        other,
    ));
}

/// Bands may arrive in any order: writing two different bands one way round
/// gives the same image as writing them the other way round.
pub proof fn lemma_write_band_commutes<T>(
    image: Seq<T>,
    plan: Bands,
    first: nat,
    first_local: Seq<T>,
    second: nat,
    second_local: Seq<T>,
)
    requires
        plan.wf(),
        first < plan.spec_count(),
        second < plan.spec_count(),
        first != second,
        image.len() == plan.spec_buffer_len(),
        first_local.len() == plan.spec_band_len(),
        second_local.len() == plan.spec_band_len(),
    ensures
        with_band(with_band(image, plan, first, first_local), plan, second, second_local)
            == with_band(with_band(image, plan, second, second_local), plan, first, first_local),
{
    lemma_band_bounds(plan, first);
    lemma_band_bounds(plan, second);
    if first < second {
        lemma_bands_disjoint(plan, first, second);
    } else {
        lemma_bands_disjoint(plan, second, first);
    }
    assert(with_band(with_band(image, plan, first, first_local), plan, second, second_local)
        =~= with_band(with_band(image, plan, second, second_local), plan, first, first_local));
}

/// Once every band of the image holds what `shade` returned for the band's
/// pixels, every pixel of the image holds what `shade` returned for it: the
/// bands leave no row out.
pub proof fn lemma_bands_make_image<T, F: Fn(usize, usize) -> (T, T, T)>(
    plan: Bands,
    image: Seq<T>,
    shade: F,
)
    requires
        plan.wf(),
        image.len() == plan.spec_buffer_len(),
        forall|b: nat|
            b < plan.spec_count() ==> band_shaded(plan, b, #[trigger] band_of(image, plan, b), shade),
    ensures
        image_shaded(plan.spec_width(), plan.spec_height(), image, shade),
{
    assert forall|x: nat, row: nat| x < plan.spec_width() && row < plan.spec_height() implies call_ensures(
        shade,
        (x as usize, row as usize),
        #[trigger] pixel_of(image, plan.spec_width(), x, row),
    ) by {
        lemma_rows_covered(plan, row);
        let b = row / plan.spec_band_height();
        let y = row % plan.spec_band_height();
        let local = band_of(image, plan, b);
        lemma_band_bounds(plan, b);
        lemma_pixel_in_band(plan, b, x, y);
        lemma_pixel_bounds(plan, x, row);
        assert(band_shaded(plan, b, local, shade));
        assert(call_ensures(
            shade,
            (x as usize, plan.spec_image_row(b, y) as usize),
            pixel_of(local, plan.spec_width(), x, y),
        ));
        assert(3 * (y * plan.spec_width() + x) == plan.spec_pixel_index(x, y)) by (nonlinear_arith);
        assert(pixel_of(local, plan.spec_width(), x, y) == pixel_of(
            image,
            plan.spec_width(),
            x,
            row,
        ));
    }
}

/// A shader that can return only one value for each pixel determines the
/// image: two images of the same sizes that both hold its results are equal
/// in every channel.
pub proof fn lemma_one_image<T, F: Fn(usize, usize) -> (T, T, T)>(
    width: nat,
    height: nat,
    first: Seq<T>,
    second: Seq<T>,
    shade: F,
)
    requires
        fits(width as int, height as int),
        first.len() == 3 * width * height,
        second.len() == 3 * width * height,
        image_shaded(width, height, first, shade),
        image_shaded(width, height, second, shade),
        forall|x: usize, row: usize, a: (T, T, T), b: (T, T, T)|
            call_ensures(shade, (x, row), a) && call_ensures(shade, (x, row), b) ==> a == b,
    ensures
        first == second,
{
    assert forall|i: int| 0 <= i < first.len() implies first[i] == second[i] by {
        let p = i / 3;
        let c = i % 3;
        assert(width > 0) by (nonlinear_arith)
            requires
                0 <= i < 3 * width * height,
        ;
        let row = (p / width as int) as nat;
        let x = (p % width as int) as nat;
        vstd::arithmetic::div_mod::lemma_fundamental_div_mod(p, width as int);
        vstd::arithmetic::div_mod::lemma_mod_bound(p, width as int);
        assert(row < height) by (nonlinear_arith)
            requires
                p == width * (p / width as int) + p % width as int,
                0 <= p % width as int,
                3 * p <= i,
                i < 3 * width * height,
                row == p / width as int,
                width > 0,
        ;
        assert(row * width == width * row) by (nonlinear_arith);
        let a = pixel_of(first, width, x, row);
        let b = pixel_of(second, width, x, row);
        assert(call_ensures(shade, (x as usize, row as usize), a));
        assert(call_ensures(shade, (x as usize, row as usize), b));
        assert(a == b);
        assert(3 * (row * width + x) == 3 * p);
    }
    assert(first =~= second);
}

} // verus!
