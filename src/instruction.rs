use crate::command::{Command, Justification};
use crate::error::Error;
use vstd::prelude::*;

verus! {

/// How gray pixels become black or white.
#[derive(Clone, Copy, Debug, PartialEq, Eq, Structural)]
pub enum BitMapAlgorithm {
    /// A pixel brighter than the threshold is white, any other black.
    Threshold(u8),
    /// Floyd-Steinberg dithering to black and white.
    Dithering,
}

/// Resampling filters.
#[derive(Clone, Copy, Debug, PartialEq, Eq, Structural)]
pub enum FilterType {
    Nearest,
    Triangle,
    CatmullRom,
    Gaussian,
    Lanczos3,
}

/// An 8-bit grayscale image, row by row.
#[derive(Clone, Debug)]
pub struct Raster {
    pub width: u32,
    pub height: u32,
    pub pixels: Vec<u8>,
}

impl Raster {
    /// One byte per pixel.
    pub open spec fn wf(&self) -> bool {
        self.pixels@.len() == self.width * self.height
    }

    /// A raster from its size and pixels; `None` when the count does not match.
    pub fn from_pixels(width: u32, height: u32, pixels: Vec<u8>) -> (r: Option<Raster>)
        ensures
            r is Some <==> pixels@.len() == width * height,
            r is Some ==> r->Some_0.wf() && r->Some_0.width == width && r->Some_0.height == height
                && r->Some_0.pixels@ == pixels@,
    {
        assert((width as int) * (height as int) <= 0xFFFF_FFFF * 0xFFFF_FFFF) by (nonlinear_arith)
            requires
                width <= 0xFFFF_FFFF,
                height <= 0xFFFF_FFFF,
        ;
        let total: u64 = width as u64 * height as u64;
        if pixels.len() as u64 == total {
            Some(Raster { width, height, pixels })
        } else {
            None
        }
    }
}

/// What `image::imageops::resize` makes of a `width` x `height` grayscale
/// image with these pixels at the new size with this filter.
pub uninterp spec fn resized_of(
    width: u32,
    height: u32,
    pixels: Seq<u8>,
    new_width: u32,
    new_height: u32,
    filter: FilterType,
) -> Seq<u8>;

/// What `image::imageops::dither` with `BiLevel` makes of a grayscale image.
pub uninterp spec fn dithered_of(width: u32, height: u32, pixels: Seq<u8>) -> Seq<u8>;

/// Relies on `image::imageops::resize` on a `GrayImage`: the result has the
/// new size, one byte per pixel, and depends on the input and filter alone.
#[verifier::external_body]
fn resize_gray(img: &Raster, new_width: u32, new_height: u32, filter: FilterType) -> (r: Raster)
    requires
        img.wf(),
        img.width > 0 && img.height > 0,
        new_width * new_height <= usize::MAX,
    ensures
        r.wf(),
        r.width == new_width,
        r.height == new_height,
        r.pixels@ == resized_of(img.width, img.height, img.pixels@, new_width, new_height, filter),
{
    let f = match filter {
        FilterType::Nearest => image::imageops::FilterType::Nearest,
        FilterType::Triangle => image::imageops::FilterType::Triangle,
        FilterType::CatmullRom => image::imageops::FilterType::CatmullRom,
        FilterType::Gaussian => image::imageops::FilterType::Gaussian,
        FilterType::Lanczos3 => image::imageops::FilterType::Lanczos3,
    };
    let g = image::GrayImage::from_raw(img.width, img.height, img.pixels.clone()).unwrap();
    let out = image::imageops::resize(&g, new_width, new_height, f);
    Raster { width: new_width, height: new_height, pixels: out.into_raw() }
}

/// Relies on `image::imageops::dither` with `BiLevel` on a `GrayImage` of at
/// least two columns and one row (it indexes the next column and, below the
/// last row, none): the size stays, and the pixels depend on the input alone.
#[verifier::external_body]
fn dither_gray(img: &Raster) -> (r: Raster)
    requires
        img.wf(),
        img.width >= 2 && img.height >= 1,
    ensures
        r.wf(),
        r.width == img.width,
        r.height == img.height,
        r.pixels@ == dithered_of(img.width, img.height, img.pixels@),
{
    let mut g = image::GrayImage::from_raw(img.width, img.height, img.pixels.clone()).unwrap();
    image::imageops::dither(&mut g, &image::imageops::BiLevel);
    Raster { width: img.width, height: img.height, pixels: g.into_raw() }
}

/// Options of the image packer: binarisation, scale in thousandths of the
/// printable width, and the resampling filter.
#[derive(Clone, Copy, Debug)]
pub struct ImageOptions {
    bit_map_algorithm: BitMapAlgorithm,
    scale_milli: u32,
    filter_type: FilterType,
}

impl ImageOptions {
    pub closed spec fn spec_algorithm(&self) -> BitMapAlgorithm {
        self.bit_map_algorithm
    }

    pub closed spec fn spec_scale_milli(&self) -> u32 {
        self.scale_milli
    }

    pub closed spec fn spec_filter(&self) -> FilterType {
        self.filter_type
    }

    pub open spec fn wf(&self) -> bool {
        1 <= self.spec_scale_milli() <= 1000
    }

    /// Dithering, full scale, Lanczos filter.
    pub fn new() -> (r: ImageOptions)
        ensures
            r.wf(),
            r.spec_algorithm() == BitMapAlgorithm::Dithering,
            r.spec_scale_milli() == 1000,
            r.spec_filter() == FilterType::Lanczos3,
    {
        ImageOptions {
            bit_map_algorithm: BitMapAlgorithm::Dithering,
            scale_milli: 1000,
            filter_type: FilterType::Lanczos3,
        }
    }

    pub fn bit_map_algorithm(&mut self, bit_map_algorithm: BitMapAlgorithm)
        ensures
            final(self).spec_algorithm() == bit_map_algorithm,
            final(self).spec_scale_milli() == old(self).spec_scale_milli(),
            final(self).spec_filter() == old(self).spec_filter(),
    {
        self.bit_map_algorithm = bit_map_algorithm;
    }

    /// Sets the scale in thousandths; it must lie in `(0, 1000]`.
    pub fn scale(&mut self, scale_milli: u32) -> (r: Result<(), Error>)
        ensures
            r is Ok <==> 1 <= scale_milli <= 1000,
            r is Err ==> r->Err_0 == Error::InvalidImageScale && *final(self) == *old(self),
            r is Ok ==> final(self).spec_scale_milli() == scale_milli,
            final(self).spec_algorithm() == old(self).spec_algorithm(),
            final(self).spec_filter() == old(self).spec_filter(),
    {
        if scale_milli == 0 || scale_milli > 1000 {
            Err(Error::InvalidImageScale)
        } else {
            self.scale_milli = scale_milli;
            Ok(())
        }
    }

    pub fn filter_type(&mut self, filter_type: FilterType)
        ensures
            final(self).spec_filter() == filter_type,
            final(self).spec_scale_milli() == old(self).spec_scale_milli(),
            final(self).spec_algorithm() == old(self).spec_algorithm(),
    {
        self.filter_type = filter_type;
    }
}

/// Largest raster, in pixels, that the packer builds.
pub const MAX_RASTER: u64 = 0xFFFF_FFFF;

/// Scaled width: `floor(width * scale)`.
pub open spec fn scaled_width(w: int, s: int) -> int {
    w * s / 1000
}

/// Scaled height: `floor(height * scale)`, the height that keeps the aspect.
pub open spec fn scaled_height(h: int, s: int) -> int {
    h * s / 1000
}

/// Height of the printed raster: `floor(printer_width * scale / (aspect * 3))`,
/// 3 being the ratio of horizontal to vertical dot density.
pub open spec fn final_height(pw: int, s: int, w: int, h: int) -> int {
    pw * s * h / (1000 * w * 3)
}

/// Horizontal position of the scaled image within the image's own width.
pub open spec fn x_offset(w: int, sw: int, j: Justification) -> int {
    match j {
        Justification::Left => 0,
        Justification::Center => (w - sw) / 2,
        Justification::Right => w - sw,
    }
}

/// A white `w` x `h` canvas with the `sw` x `h` image `top` pasted at column `off`.
pub open spec fn composite(w: int, h: int, top: Seq<u8>, sw: int, off: int) -> Seq<u8> {
    Seq::new(
        (w * h) as nat,
        |i: int|
            {
                let x = i % w;
                let y = i / w;
                if off <= x < off + sw {
                    top[y * sw + (x - off)]
                } else {
                    255u8
                }
            },
    )
}

/// Pixels brighter than `t` become white (255), the others black (0).
pub open spec fn thresholded(px: Seq<u8>, t: u8) -> Seq<u8> {
    px.map_values(|p: u8| if p > t { 255u8 } else { 0u8 })
}

/// Weight of sub-row `r` of a band: the top row is bit 7.
pub open spec fn row_bit(r: int) -> int {
    if r == 0 {
        128
    } else if r == 1 {
        64
    } else if r == 2 {
        32
    } else if r == 3 {
        16
    } else if r == 4 {
        8
    } else if r == 5 {
        4
    } else if r == 6 {
        2
    } else {
        1
    }
}

/// The first `r` sub-rows of column `x` of band `b`: a bit for each black pixel.
pub open spec fn band_bits(px: Seq<u8>, w: int, h: int, b: int, x: int, r: int) -> int
    decreases r,
{
    if r <= 0 {
        0
    } else {
        let y = 8 * b + r - 1;
        band_bits(px, w, h, b, x, r - 1) + if y < h && px[y * w + x] == 0 {
            row_bit(r - 1)
        } else {
            0
        }
    }
}

/// The bytes of band `b`: one per column.
pub open spec fn band_row(px: Seq<u8>, w: int, h: int, b: int) -> Seq<u8> {
    Seq::new(w as nat, |x: int| band_bits(px, w, h, b, x, 8) as u8)
}

/// One band with its bit image command: `ESC * 1 nL nH`, the row, a line feed.
pub open spec fn band_bytes(px: Seq<u8>, w: int, h: int, b: int) -> Seq<u8> {
    seq![0x1bu8, 0x2au8, 0x01u8, (w % 256) as u8, (w / 256) as u8] + band_row(px, w, h, b) + seq![
        0x0au8,
    ]
}

/// The first `n` bands.
pub open spec fn bands(px: Seq<u8>, w: int, h: int, n: int) -> Seq<u8>
    decreases n,
{
    if n <= 0 {
        seq![]
    } else {
        bands(px, w, h, n - 1) + band_bytes(px, w, h, n - 1)
    }
}

/// Number of bands: `ceil(h / 8)`.
pub open spec fn band_count(h: int) -> int {
    (h + 7) / 8
}

/// The line spacing command that follows an image.
pub open spec fn restore_spacing(line_spacing: Option<u8>) -> Command {
    match line_spacing {
        Some(n) => Command::LineSpacing(n),
        None => Command::DefaultLineSpacing,
    }
}

/// The whole bit image of a black-and-white raster.
pub open spec fn bitmap_bytes(px: Seq<u8>, w: int, h: int, line_spacing: Option<u8>) -> Seq<u8> {
    Command::LineSpacing(0).spec_bytes() + bands(px, w, h, band_count(h)) + restore_spacing(
        line_spacing,
    ).spec_bytes()
}

/// Packs a black-and-white raster into bands of eight rows: zero line
/// spacing, each band as a bit image command and a line feed, then the line
/// spacing given (or the default).
pub fn pack_bitmap(img: &Raster, line_spacing: Option<u8>) -> (r: Vec<u8>)
    requires
        img.wf(),
        img.width <= 0xFFFF,
    ensures
        r@ == bitmap_bytes(img.pixels@, img.width as int, img.height as int, line_spacing),
{
    let w = img.width as usize;
    let h = img.height as usize;
    let count = img.pixels.len();
    assert(count == img.pixels@.len());
    let mut feed = Command::LineSpacing(0).as_bytes();
    let n: usize = h / 8 + if h % 8 == 0 { 0 } else { 1 };
    assert(n == band_count(h as int));
    let ghost head = feed@;
    let mut b: usize = 0;
    while b < n
        invariant
            b <= n,
            n == band_count(h as int),
            w == img.width,
            h == img.height,
            w <= 0xFFFF,
            img.wf(),
            img.pixels@.len() <= usize::MAX,
            head == Command::LineSpacing(0).spec_bytes(),
            feed@ == head + bands(img.pixels@, w as int, h as int, b as int),
        decreases n - b,
    {
        let ghost before = feed@;
        feed.push(0x1b);
        feed.push(0x2a);
        feed.push(0x01);
        feed.push((w % 256) as u8);
        feed.push((w / 256) as u8);
        let mut x: usize = 0;
        while x < w
            invariant
                x <= w,
                b < n,
                n == band_count(h as int),
                w == img.width,
                h == img.height,
                img.wf(),
                img.pixels@.len() <= usize::MAX,
                feed@ == before + seq![0x1bu8, 0x2au8, 0x01u8, (w % 256) as u8, (w / 256) as u8]
                    + band_row(img.pixels@, w as int, h as int, b as int).take(x as int),
            decreases w - x,
        {
            let mut byte: u8 = 0;
            let mut r: usize = 0;
            while r < 8
                invariant
                    r <= 8,
                    x < w,
                    b < n,
                    n == band_count(h as int),
                    w == img.width,
                    h == img.height,
                    img.wf(),
                    img.pixels@.len() <= usize::MAX,
                    byte as int == band_bits(img.pixels@, w as int, h as int, b as int, x as int, r as int),
                    r < 8 ==> byte as int + 2 * row_bit(r as int) <= 256,
                decreases 8 - r,
            {
                let y = 8 * b + r;
                if y < h {
                    proof {
                        let (yi, xi, hi, wi) = (y as int, x as int, h as int, w as int);
                        assert(yi * wi + xi < hi * wi) by (nonlinear_arith)
                            requires
                                yi < hi,
                                xi < wi,
                                0 <= xi,
                                0 <= yi,
                        ;
                        assert(img.pixels@.len() == hi * wi) by (nonlinear_arith)
                            requires
                                img.pixels@.len() == img.width * img.height,
                                hi == img.height,
                                wi == img.width,
                        ;
                    }
                    let p = img.pixels[y * w + x];
                    if p == 0 {
                        let bit: u8 = if r == 0 {
                            128
                        } else if r == 1 {
                            64
                        } else if r == 2 {
                            32
                        } else if r == 3 {
                            16
                        } else if r == 4 {
                            8
                        } else if r == 5 {
                            4
                        } else if r == 6 {
                            2
                        } else {
                            1
                        };
                        byte = byte + bit;
                    }
                }
                r += 1;
            }
            feed.push(byte);
            proof {
                assert(band_row(img.pixels@, w as int, h as int, b as int).take(x + 1)
                    == band_row(img.pixels@, w as int, h as int, b as int).take(x as int).push(byte));
            }
            x += 1;
        }
        feed.push(0x0a);
        proof {
            assert(band_row(img.pixels@, w as int, h as int, b as int).take(w as int)
                == band_row(img.pixels@, w as int, h as int, b as int));
            assert(feed@ == head + bands(img.pixels@, w as int, h as int, b + 1));
        }
        b += 1;
    }
    let mut tail = match line_spacing {
        Some(n) => Command::LineSpacing(n).as_bytes(),
        None => Command::DefaultLineSpacing.as_bytes(),
    };
    feed.append(&mut tail);
    feed
}

/// Black-and-white pixels by threshold: brighter than `t` is white.
pub fn threshold(img: &Raster, t: u8) -> (r: Raster)
    requires
        img.wf(),
    ensures
        r.wf(),
        r.width == img.width,
        r.height == img.height,
        r.pixels@ == thresholded(img.pixels@, t),
{
    let mut out: Vec<u8> = Vec::new();
    let mut i: usize = 0;
    while i < img.pixels.len()
        invariant
            i <= img.pixels@.len(),
            out@ == thresholded(img.pixels@.take(i as int), t),
        decreases img.pixels@.len() - i,
    {
        let p = img.pixels[i];
        out.push(if p > t { 255 } else { 0 });
        proof {
            assert(img.pixels@.take(i + 1) == img.pixels@.take(i as int).push(p));
            assert(thresholded(img.pixels@.take(i + 1), t) =~= thresholded(img.pixels@.take(i as int), t).push(
                if p > t { 255u8 } else { 0u8 },
            ));
        }
        i += 1;
    }
    proof {
        assert(img.pixels@.take(img.pixels@.len() as int) == img.pixels@);
    }
    Raster { width: img.width, height: img.height, pixels: out }
}

/// Gray pixels made black and white by `alg`; dithering needs at least two
/// columns and one row, and leaves a smaller image as it is.
pub open spec fn binarized(px: Seq<u8>, w: u32, h: u32, alg: BitMapAlgorithm) -> Seq<u8> {
    match alg {
        BitMapAlgorithm::Threshold(t) => thresholded(px, t),
        BitMapAlgorithm::Dithering => if w >= 2 && h >= 1 {
            dithered_of(w, h, px)
        } else {
            px
        },
    }
}

/// An image prepared for printing.
#[derive(Clone, Debug)]
pub struct EscposImage {
    img: Raster,
    opts: ImageOptions,
}

impl EscposImage {
    pub closed spec fn spec_img(&self) -> Raster {
        self.img
    }

    pub closed spec fn spec_opts(&self) -> ImageOptions {
        self.opts
    }

    pub open spec fn wf(&self) -> bool {
        &&& self.spec_img().wf()
        &&& self.spec_img().width > 0
        &&& self.spec_img().height > 0
        &&& self.spec_opts().wf()
    }

    /// Height of the raster printed on a line `pw` dots wide.
    pub open spec fn spec_final_height(&self, pw: int) -> int {
        final_height(
            pw,
            self.spec_opts().spec_scale_milli() as int,
            self.spec_img().width as int,
            self.spec_img().height as int,
        )
    }

    /// The black-and-white pixels printed on a line `pw` dots wide: the image
    /// scaled, placed by `j` on a white canvas of its own width, resized to the
    /// line, and made black and white.
    pub open spec fn spec_pixels(&self, pw: u32, j: Justification) -> Seq<u8> {
        let img = self.spec_img();
        let o = self.spec_opts();
        let s = o.spec_scale_milli() as int;
        let (w, h) = (img.width as int, img.height as int);
        let sw = scaled_width(w, s);
        let sh = scaled_height(h, s);
        let fh = self.spec_final_height(pw as int);
        let fin = if sw > 0 && sh > 0 {
            let top = resized_of(img.width, img.height, img.pixels@, sw as u32, sh as u32, o.spec_filter());
            let canvas = composite(w, sh, top, sw, x_offset(w, sw, j));
            resized_of(img.width, sh as u32, canvas, pw, fh as u32, o.spec_filter())
        } else {
            Seq::new((pw * fh) as nat, |i: int| 255u8)
        };
        binarized(fin, pw, fh as u32, o.spec_algorithm())
    }

    pub fn new(img: Raster, opts: &ImageOptions) -> (r: EscposImage)
        requires
            img.wf(),
            img.width > 0 && img.height > 0,
            opts.wf(),
        ensures
            r.wf(),
            r.spec_img() == img,
            r.spec_opts() == *opts,
    {
        EscposImage { img, opts: *opts }
    }

    /// The printer's bytes for the image on a line `printer_width` dots wide.
    pub fn as_bytes(&self, printer_width: usize, justification: Justification, line_spacing: Option<u8>) -> (r: Vec<u8>)
        requires
            self.wf(),
            printer_width <= 0xFFFF,
            printer_width * self.spec_final_height(printer_width as int) <= MAX_RASTER,
        ensures
            r@ == bitmap_bytes(
                self.spec_pixels(printer_width as u32, justification),
                printer_width as int,
                self.spec_final_height(printer_width as int),
                line_spacing,
            ),
    {
        let img = &self.img;
        let count = img.pixels.len();
        assert(count == img.width * img.height);
        let s = self.opts.scale_milli as u64;
        let w = img.width as u64;
        let h = img.height as u64;
        let pw = printer_width as u64;
        proof {
            assert(w * s <= 0xFFFF_FFFF * 1000) by (nonlinear_arith)
                requires w <= 0xFFFF_FFFF, s <= 1000;
            assert(h * s <= 0xFFFF_FFFF * 1000) by (nonlinear_arith)
                requires h <= 0xFFFF_FFFF, s <= 1000;
            assert(pw * s <= 0xFFFF * 1000) by (nonlinear_arith)
                requires pw <= 0xFFFF, s <= 1000;
            assert(pw * s * h <= 0xFFFF * 1000 * 0xFFFF_FFFF) by (nonlinear_arith)
                requires pw <= 0xFFFF, s <= 1000, h <= 0xFFFF_FFFF;
            assert(1000 * w * 3 <= 3000 * 0xFFFF_FFFF) by (nonlinear_arith)
                requires w <= 0xFFFF_FFFF;
            assert(1000 * w * 3 > 0) by (nonlinear_arith)
                requires w > 0;
        }
        let sw: u64 = w * s / 1000;
        let sh: u64 = h * s / 1000;
        let fh: u64 = pw * s * h / (1000 * w * 3);
        proof {
            assert(sw <= w) by (nonlinear_arith)
                requires sw == w * s / 1000, s <= 1000;
            assert(sh <= h) by (nonlinear_arith)
                requires sh == h * s / 1000, s <= 1000;
        }
        assert(fh as int == self.spec_final_height(printer_width as int));
        assert(pw * fh <= MAX_RASTER);
        if pw == 0 {
            assert(fh == 0) by (nonlinear_arith)
                requires fh == pw * s * h / (1000 * w * 3), pw == 0, 1000 * w * 3 > 0;
        } else {
            assert(fh <= 0xFFFF_FFFF) by (nonlinear_arith)
                requires pw * fh <= MAX_RASTER, pw >= 1, fh >= 0;
        }
        assert((pw as u32) as int == pw && (fh as u32) as int == fh);
        let fin = if sw > 0 && sh > 0 {
            proof {
                assert(sw * sh <= w * h) by (nonlinear_arith)
                    requires sw <= w, sh <= h;
                assert(w * sh <= w * h) by (nonlinear_arith)
                    requires sh <= h;
            }
            let top = resize_gray(img, sw as u32, sh as u32, self.opts.filter_type);
            let off: u64 = match justification {
                Justification::Left => 0,
                Justification::Center => (w - sw) / 2,
                Justification::Right => w - sw,
            };
            let canvas = compose(w as u32, sh as u32, &top, off as u32);
            resize_gray(&canvas, pw as u32, fh as u32, self.opts.filter_type)
        } else {
            white(pw as u32, fh as u32)
        };
        let bw = match self.opts.bit_map_algorithm {
            BitMapAlgorithm::Threshold(t) => threshold(&fin, t),
            BitMapAlgorithm::Dithering => {
                if fin.width >= 2 && fin.height >= 1 {
                    dither_gray(&fin)
                } else {
                    fin
                }
            },
        };
        pack_bitmap(&bw, line_spacing)
    }
}

impl EscposImage {
    /// The raster stays within `MAX_RASTER` pixels on every line up to `pw_max` dots.
    pub open spec fn fits_within(&self, pw_max: int) -> bool {
        forall|pw: int| 0 <= pw <= pw_max ==> pw * #[trigger] self.spec_final_height(pw) <= MAX_RASTER
    }

    /// Whether the raster stays within `MAX_RASTER` pixels on any paper.
    pub fn fits_paper(&self) -> (r: bool)
        requires
            self.wf(),
        ensures
            r ==> self.fits_within(0xFFFF),
    {
        let s = self.opts.scale_milli as u64;
        let w = self.img.width as u64;
        let h = self.img.height as u64;
        let p: u64 = 0xFFFF;
        proof {
            assert(p * s * h <= 0xFFFF * 1000 * 0xFFFF_FFFF) by (nonlinear_arith)
                requires p == 0xFFFF, s <= 1000, h <= 0xFFFF_FFFF;
            assert(p * s <= 0xFFFF * 1000) by (nonlinear_arith)
                requires p == 0xFFFF, s <= 1000;
            assert(1000 * w * 3 > 0) by (nonlinear_arith)
                requires w > 0;
            assert(1000 * w * 3 <= 3000 * 0xFFFF_FFFF) by (nonlinear_arith)
                requires w <= 0xFFFF_FFFF;
        }
        let fh: u64 = p * s * h / (1000 * w * 3);
        if fh > MAX_RASTER {
            return false;
        }
        let ok = p * fh <= MAX_RASTER;
        proof {
            if ok {
                let d = 1000 * (w as int) * 3;
                assert forall|pw: int| 0 <= pw <= 0xFFFF implies pw * #[trigger] self.spec_final_height(pw) <= MAX_RASTER by {
                    let f = self.spec_final_height(pw);
                    assert(pw * (s as int) * (h as int) <= 0xFFFF * (s as int) * (h as int)) by (nonlinear_arith)
                        requires 0 <= pw <= 0xFFFF, s >= 0, h >= 0;
                    vstd::arithmetic::div_mod::lemma_div_is_ordered(pw * (s as int) * (h as int), 0xFFFF * (s as int) * (h as int), d);
                    assert(f <= fh);
                    assert(f >= 0) by (nonlinear_arith)
                        requires f == pw * (s as int) * (h as int) / d, pw >= 0, s >= 0, h >= 0, d > 0;
                    assert(pw * f <= 0xFFFF * fh) by (nonlinear_arith)
                        requires 0 <= pw <= 0xFFFF, 0 <= f <= fh;
                }
            }
        }
        ok
    }
}

/// An all-white raster.
fn white(w: u32, h: u32) -> (r: Raster)
    requires
        w * h <= MAX_RASTER,
    ensures
        r.wf(),
        r.width == w,
        r.height == h,
        r.pixels@ == Seq::new((w * h) as nat, |i: int| 255u8),
{
    let n = w as usize * h as usize;
    let mut px: Vec<u8> = Vec::new();
    let mut i: usize = 0;
    while i < n
        invariant
            i <= n,
            px@ == Seq::new(i as nat, |k: int| 255u8),
        decreases n - i,
    {
        px.push(255);
        assert(px@ =~= Seq::new((i + 1) as nat, |k: int| 255u8));
        i += 1;
    }
    Raster { width: w, height: h, pixels: px }
}

/// A white `w` x `h` canvas with `top`, as wide as `top.width`, pasted at column `off`.
fn compose(w: u32, h: u32, top: &Raster, off: u32) -> (r: Raster)
    requires
        top.wf(),
        top.height == h,
        off + top.width <= w,
        w * h <= usize::MAX,
    ensures
        r.wf(),
        r.width == w,
        r.height == h,
        r.pixels@ == composite(w as int, h as int, top.pixels@, top.width as int, off as int),
{
    let n = w as usize * h as usize;
    let sw = top.width as usize;
    let ghost spec_px = composite(w as int, h as int, top.pixels@, top.width as int, off as int);
    let mut px: Vec<u8> = Vec::new();
    let mut i: usize = 0;
    while i < n
        invariant
            i <= n,
            n == w * h,
            w > 0 || n == 0,
            top.wf(),
            top.height == h,
            sw == top.width,
            off + sw <= w,
            spec_px == composite(w as int, h as int, top.pixels@, top.width as int, off as int),
            px@ == spec_px.take(i as int),
        decreases n - i,
    {
        let x = i % (w as usize);
        let y = i / (w as usize);
        let p: u8 = if off as usize <= x && x < off as usize + sw {
            proof {
                let (xi, yi, wi, hi, swi, oi) = (x as int, y as int, w as int, h as int, sw as int, off as int);
                assert(yi < hi) by (nonlinear_arith)
                    requires yi == (i as int) / wi, (i as int) < wi * hi, wi > 0;
                assert(yi * swi + (xi - oi) < hi * swi) by (nonlinear_arith)
                    requires yi < hi, xi - oi < swi, 0 <= xi - oi, yi >= 0;
                assert(top.pixels@.len() == hi * swi) by (nonlinear_arith)
                    requires top.pixels@.len() == top.width * top.height, swi == top.width, hi == top.height;
            }
            let count = top.pixels.len();
            top.pixels[y * sw + (x - off as usize)]
        } else {
            255
        };
        px.push(p);
        proof {
            assert(spec_px.take(i + 1) == spec_px.take(i as int).push(spec_px[i as int]));
        }
        i += 1;
    }
    proof {
        assert(spec_px.take(n as int) == spec_px);
    }
    Raster { width: w, height: h, pixels: px }
}

/// The bit image of a raster `h` rows high has `ceil(h / 8)` bands, each of
/// them `ESC * 1 nL nH`, `w` bytes of pixels and a line feed.
pub proof fn lemma_bitmap_bands(px: Seq<u8>, w: int, h: int)
    requires
        0 <= w,
        0 <= h,
    ensures
        bands(px, w, h, band_count(h)).len() == band_count(h) * (w + 6),
        band_count(h) == if h % 8 == 0 { h / 8 } else { h / 8 + 1 },
        forall|b: int| 0 <= b < band_count(h) ==> #[trigger] bands(px, w, h, band_count(h)).subrange(
            b * (w + 6),
            (b + 1) * (w + 6),
        ) == band_bytes(px, w, h, b),
        forall|b: int| 0 <= b < band_count(h) ==> #[trigger] band_bytes(px, w, h, b).len() == w + 6,
{
    lemma_bands_layout(px, w, h, band_count(h));
}

proof fn lemma_bands_layout(px: Seq<u8>, w: int, h: int, n: int)
    requires
        0 <= w,
        0 <= n,
    ensures
        bands(px, w, h, n).len() == n * (w + 6),
        forall|b: int| 0 <= b < n ==> #[trigger] bands(px, w, h, n).subrange(b * (w + 6), (b + 1) * (w + 6))
            == band_bytes(px, w, h, b),
        forall|b: int| 0 <= b < n ==> #[trigger] band_bytes(px, w, h, b).len() == w + 6,
    decreases n,
{
    if n == 0 {
        assert(bands(px, w, h, n).len() == 0);
        assert(n * (w + 6) == 0) by (nonlinear_arith)
            requires n == 0;
    } else {
        lemma_bands_layout(px, w, h, n - 1);
        let prev = bands(px, w, h, n - 1);
        let last = band_bytes(px, w, h, n - 1);
        let size = w + 6;
        assert(last.len() == size);
        assert(bands(px, w, h, n) == prev + last);
        assert(prev.len() == (n - 1) * size);
        assert((n - 1) * size + size == n * size) by (nonlinear_arith);
        assert((prev + last).len() == n * size);
        assert forall|b: int| 0 <= b < n implies #[trigger] bands(px, w, h, n).subrange(b * (w + 6), (b + 1) * (w + 6))
            == band_bytes(px, w, h, b) by {
            let lo = b * size;
            let hi = (b + 1) * size;
            assert(hi == lo + size) by (nonlinear_arith)
                requires lo == b * size, hi == (b + 1) * size;
            assert(lo >= 0) by (nonlinear_arith)
                requires lo == b * size, b >= 0, size >= 0;
            if b < n - 1 {
                assert(hi <= (n - 1) * size) by (nonlinear_arith)
                    requires hi == (b + 1) * size, b + 1 <= n - 1, size >= 0;
                assert((prev + last).subrange(lo, hi) =~= prev.subrange(lo, hi));
            } else {
                assert(lo == (n - 1) * size);
                assert((prev + last).subrange(lo, hi) =~= last);
            }
        }
    }
}

} // verus!
