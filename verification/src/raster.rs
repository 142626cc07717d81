//! Compositing of grayscale rasters and text onto the canvas.
//!
//! A raster is blitted pixel by pixel: image pixel `i` of a raster of width
//! `w` and height `h` lands at column `x + i % w` and row `y + h - i / w`,
//! which mirrors the raster vertically relative to top-down order — a
//! convention existing fixtures depend on, kept on purpose. A pixel is lit
//! exactly when its grayscale value reaches the threshold; out-of-canvas
//! coordinates are clipped by `set_pixel`.

use vstd::prelude::*;
use vstd::string::StrSliceExecFns;

use crate::device::HidAdapter;
use crate::screen::{canvas_set, OledScreen};

verus! {

/// How a source image is scaled onto the canvas before it is drawn.
///
/// `Contain` stretches it to exactly the canvas's width and height, without
/// keeping the aspect ratio. `Cover` scales it uniformly by
/// `max(canvasWidth/imageWidth, canvasHeight/imageHeight)`, so it covers the
/// whole canvas and may overhang on one axis; the overhang is clipped pixel
/// by pixel. `Original` draws it unscaled.
pub enum ImageSizing {
    Contain,
    Cover,
    Original,
}

/// A grayscale raster: `width * height` bytes, row-major from the top left.
pub struct GrayBitmap {
    pub width: usize,
    pub height: usize,
    pub pixels: Vec<u8>,
}

impl GrayBitmap {
    /// The pixel count matches the dimensions.
    pub open spec fn wf(&self) -> bool {
        self.pixels@.len() == self.width * self.height
    }

    /// Builds a raster from its dimensions and row-major bytes.
    pub fn new(width: usize, height: usize, pixels: Vec<u8>) -> (r: GrayBitmap)
        requires
            pixels@.len() == width * height,
        ensures
            r.wf(),
            r.width == width,
            r.height == height,
            r.pixels@ == pixels@,
    {
        GrayBitmap { width, height, pixels }
    }
}

/// The canvas bytes after blitting the first `n` pixels of a raster of
/// dimensions `img_w` x `img_h` at `(x, y)`: pixel `i` lands at column
/// `x + i % img_w`, row `y + img_h - i / img_w`, and is lit exactly when its
/// value reaches `threshold`.
pub open spec fn blit(
    data: Seq<u8>,
    width: nat,
    height: nat,
    pix: Seq<u8>,
    img_w: nat,
    img_h: nat,
    x: nat,
    y: nat,
    threshold: u8,
    n: nat,
) -> Seq<u8>
    decreases n,
{
    if n == 0 || img_w == 0 {
        data
    } else {
        let i = (n - 1) as nat;
        canvas_set(
            blit(data, width, height, pix, img_w, img_h, x, y, threshold, i),
            width,
            height,
            x + i % img_w,
            ((y + img_h) - i / img_w) as nat,
            pix[i as int] >= threshold,
        )
    }
}

/// `v` clamped to what fits a `u32`, as a `u32`-to-`u32` cast would clamp it.
pub open spec fn sat_u32(v: nat) -> nat {
    if v > u32::MAX {
        u32::MAX as nat
    } else {
        v
    }
}

/// The width of a raster of `iw x ih` scaled uniformly by
/// `max(cw/iw, ch/ih)`: the canvas width when the width ratio dominates, the
/// scaled image width otherwise.
pub open spec fn spec_cover_width(iw: nat, ih: nat, cw: nat, ch: nat) -> nat {
    if ch * iw <= cw * ih {
        cw
    } else {
        sat_u32((iw * ch) / ih)
    }
}

/// The height of a raster of `iw x ih` scaled uniformly by
/// `max(cw/iw, ch/ih)`: the scaled image height when the width ratio
/// dominates, the canvas height otherwise.
pub open spec fn spec_cover_height(iw: nat, ih: nat, cw: nat, ch: nat) -> nat {
    if ch * iw <= cw * ih {
        sat_u32((ih * cw) / iw)
    } else {
        ch
    }
}

/// The raster dimensions the Cover policy scales an `image_width` x
/// `image_height` image to, for a `canvas_width` x `canvas_height` canvas.
pub fn cover_dimensions(
    image_width: u32,
    image_height: u32,
    canvas_width: u32,
    canvas_height: u32,
) -> (r: (u32, u32))
    requires
        1 <= image_width,
        1 <= image_height,
    ensures
        r.0 as nat == spec_cover_width(
            image_width as nat,
            image_height as nat,
            canvas_width as nat,
            canvas_height as nat,
        ),
        r.1 as nat == spec_cover_height(
            image_width as nat,
            image_height as nat,
            canvas_width as nat,
            canvas_height as nat,
        ),
{
    let iw = image_width as u64;
    let ih = image_height as u64;
    let cw = canvas_width as u64;
    let ch = canvas_height as u64;
    proof {
        assert((ch as nat) * (iw as nat) <= (u32::MAX as nat) * (u32::MAX as nat)
            && (cw as nat) * (ih as nat) <= (u32::MAX as nat) * (u32::MAX as nat) && (ih as nat) * (
        cw as nat) <= (u32::MAX as nat) * (u32::MAX as nat) && (iw as nat) * (ch as nat) <= (
        u32::MAX as nat) * (u32::MAX as nat)) by (nonlinear_arith)
            requires
                iw <= u32::MAX,
                ih <= u32::MAX,
                cw <= u32::MAX,
                ch <= u32::MAX,
        ;
    }
    if ch * iw <= cw * ih {
        let scaled = (ih * cw) / iw;
        let new_height = if scaled > u32::MAX as u64 {
            u32::MAX
        } else {
            scaled as u32
        };
        (canvas_width, new_height)
    } else {
        let scaled = (iw * ch) / ih;
        let new_width = if scaled > u32::MAX as u64 {
            u32::MAX
        } else {
            scaled as u32
        };
        (new_width, canvas_height)
    }
}

/// A decoded image of the outside image crate, carried opaquely: the
/// contracts speak of it through `image_width_of`, `image_height_of` and
/// `bilevel_pixels_of`.
#[verifier::external_type_specification]
#[verifier::external_body]
pub struct ExDynamicImage(image::DynamicImage);

/// The width in pixels that the image crate reports for this image.
pub uninterp spec fn image_width_of(img: image::DynamicImage) -> nat;

/// The height in pixels that the image crate reports for this image.
pub uninterp spec fn image_height_of(img: image::DynamicImage) -> nat;

/// The row-major luma bytes the image yields after grayscale conversion and
/// two-level dithering, each byte 0 or 255.
pub uninterp spec fn bilevel_pixels_of(img: image::DynamicImage) -> Seq<u8>;

/// The row-major luma bytes the image yields after a resize to exactly
/// `w x h` pixels, grayscale conversion, and two-level dithering, each byte
/// 0 or 255.
pub uninterp spec fn sized_bilevel_of(img: image::DynamicImage, w: u32, h: u32) -> Seq<u8>;

/// Relies on image::DynamicImage::width: the image's width in pixels. Public
/// so that callers of `draw_image` can establish its dimension preconditions.
#[verifier::external_body]
pub fn image_width(img: &image::DynamicImage) -> (r: u32)
    ensures
        r as nat == image_width_of(*img),
{
    img.width()
}

/// Relies on image::DynamicImage::height: the image's height in pixels.
/// Public so that callers of `draw_image` can establish its dimension
/// preconditions.
#[verifier::external_body]
pub fn image_height(img: &image::DynamicImage) -> (r: u32)
    ensures
        r as nat == image_height_of(*img),
{
    img.height()
}

/// Relies on image::DynamicImage::grayscale and into_luma8, which keep the
/// dimensions and yield one luma byte per pixel, and on
/// image::imageops::dither with the BiLevel map, which maps every byte to 0
/// or 255; dither indexes neighbour columns and rows and so needs a raster at
/// least 2 wide and 1 tall.
#[verifier::external_body]
fn dither_bilevel(img: &image::DynamicImage) -> (r: GrayBitmap)
    requires
        2 <= image_width_of(*img),
        1 <= image_height_of(*img),
    ensures
        r.wf(),
        r.width as nat == image_width_of(*img),
        r.height as nat == image_height_of(*img),
        r.pixels@ == bilevel_pixels_of(*img),
        is_bilevel(r.pixels@),
{
    let mut luma = img.grayscale().into_luma8();
    image::imageops::dither(&mut luma, &image::imageops::BiLevel);
    let width = luma.width() as usize;
    let height = luma.height() as usize;
    GrayBitmap { width, height, pixels: luma.into_raw() }
}

/// Relies on image::DynamicImage::resize_exact with the Lanczos3 filter,
/// which returns exactly the requested dimensions without keeping the aspect
/// ratio, followed by the same grayscale and BiLevel dither passes as
/// `dither_bilevel`: the whole pipeline is a function of the image value and
/// the requested dimensions alone.
#[verifier::external_body]
fn resize_dither_bilevel(img: &image::DynamicImage, new_width: u32, new_height: u32) -> (r:
    GrayBitmap)
    requires
        2 <= new_width,
        1 <= new_height,
    ensures
        r.wf(),
        r.width as nat == new_width as nat,
        r.height as nat == new_height as nat,
        r.pixels@ == sized_bilevel_of(*img, new_width, new_height),
        is_bilevel(r.pixels@),
{
    let resized = img.resize_exact(new_width, new_height, image::imageops::FilterType::Lanczos3);
    let mut luma = resized.grayscale().into_luma8();
    image::imageops::dither(&mut luma, &image::imageops::BiLevel);
    let width = luma.width() as usize;
    let height = luma.height() as usize;
    GrayBitmap { width, height, pixels: luma.into_raw() }
}

/// Cover sizing never leaves a canvas axis uncovered: the scaled raster is at
/// least as wide and at least as tall as the canvas.
pub proof fn lemma_cover_at_least_canvas(iw: nat, ih: nat, cw: nat, ch: nat)
    requires
        1 <= iw,
        1 <= ih,
        1 <= cw <= u32::MAX,
        1 <= ch <= u32::MAX,
    ensures
        spec_cover_width(iw, ih, cw, ch) >= cw,
        spec_cover_height(iw, ih, cw, ch) >= ch,
{
    if ch * iw <= cw * ih {
        assert((ch * iw) as int / (iw as int) <= (ih * cw) as int / (iw as int)) by {
            vstd::arithmetic::div_mod::lemma_div_is_ordered(
                (ch * iw) as int,
                (ih * cw) as int,
                iw as int,
            );
        }
        assert((ch * iw) as int / (iw as int) == ch) by {
            vstd::arithmetic::div_mod::lemma_div_by_multiple(ch as int, iw as int);
        }
    } else {
        assert((cw * ih) as int / (ih as int) <= (iw * ch) as int / (ih as int)) by {
            vstd::arithmetic::div_mod::lemma_div_is_ordered(
                (cw * ih) as int,
                (iw * ch) as int,
                ih as int,
            );
        }
        assert((cw * ih) as int / (ih as int) == cw) by {
            vstd::arithmetic::div_mod::lemma_div_by_multiple(cw as int, ih as int);
        }
    }
}

/// Law: Cover sizing of an image smaller than the canvas on both axes scales
/// it up to at least the canvas's width and at least its height.
pub proof fn lemma_cover_fills_canvas(iw: nat, ih: nat, cw: nat, ch: nat)
    requires
        1 <= iw < cw,
        1 <= ih < ch,
        cw <= u32::MAX,
        ch <= u32::MAX,
    ensures
        spec_cover_width(iw, ih, cw, ch) >= cw,
        spec_cover_height(iw, ih, cw, ch) >= ch,
{
    lemma_cover_at_least_canvas(iw, ih, cw, ch);
}

/// A parsed font of the outside fontdue crate, carried opaquely: the
/// contracts speak of the glyphs it holds through `glyph_width_of`,
/// `glyph_height_of` and `glyph_pixels_of`.
#[verifier::external_type_specification]
#[verifier::external_body]
pub struct ExFont(fontdue::Font);

/// The width in pixels of the glyph the font holds for `ch` at `px` pixels
/// per em.
pub uninterp spec fn glyph_width_of(font: fontdue::Font, ch: char, px: u16) -> nat;

/// The height in pixels of the glyph the font holds for `ch` at `px` pixels
/// per em.
pub uninterp spec fn glyph_height_of(font: fontdue::Font, ch: char, px: u16) -> nat;

/// The coverage bytes of the glyph the font holds for `ch` at `px` pixels
/// per em: row-major from the top left, 0 for no coverage, 255 for full.
pub uninterp spec fn glyph_pixels_of(font: fontdue::Font, ch: char, px: u16) -> Seq<u8>;

/// Relies on fontdue::Font::rasterize: the glyph's coverage bitmap for `ch`
/// at `px` pixels per em, `width * height` bytes row-major from the top left;
/// the same font, character and size always give the same raster.
#[verifier::external_body]
fn rasterize_glyph(font: &fontdue::Font, ch: char, px: u16) -> (r: GrayBitmap)
    ensures
        r.wf(),
        r.width as nat == glyph_width_of(*font, ch, px),
        r.height as nat == glyph_height_of(*font, ch, px),
        r.pixels@ == glyph_pixels_of(*font, ch, px),
{
    let (metrics, bitmap) = font.rasterize(ch, px.into());
    GrayBitmap { width: metrics.width, height: metrics.height, pixels: bitmap }
}

/// Whether every byte of `pix` is 0 or 255.
pub open spec fn is_bilevel(pix: Seq<u8>) -> bool {
    forall|i: int| 0 <= i < pix.len() ==> pix[i] == 0 || pix[i] == 255
}

/// The canvas bytes after drawing `chars` left to right from cursor `xc`:
/// each glyph is blitted with lit threshold 128 (coverage rounded against
/// 255), and the cursor advances by the glyph's width plus a fixed 2-pixel
/// gap.
pub open spec fn glyphs_blit(
    data: Seq<u8>,
    width: nat,
    height: nat,
    font: fontdue::Font,
    chars: Seq<char>,
    px: u16,
    xc: nat,
    y: nat,
) -> Seq<u8>
    decreases chars.len(),
{
    if chars.len() == 0 {
        data
    } else {
        let gw = glyph_width_of(font, chars[0], px);
        let gh = glyph_height_of(font, chars[0], px);
        let gp = glyph_pixels_of(font, chars[0], px);
        glyphs_blit(
            blit(data, width, height, gp, gw, gh, xc, y, 128, gp.len()),
            width,
            height,
            font,
            chars.drop_first(),
            px,
            xc + gw + 2,
            y,
        )
    }
}

/// A blit whose left edge lies at or beyond the canvas width, or that lands
/// on a canvas of height 0, changes nothing.
pub proof fn lemma_blit_off_canvas(
    data: Seq<u8>,
    width: nat,
    height: nat,
    pix: Seq<u8>,
    img_w: nat,
    img_h: nat,
    x: nat,
    y: nat,
    threshold: u8,
    n: nat,
)
    requires
        x >= width || height == 0,
    ensures
        blit(data, width, height, pix, img_w, img_h, x, y, threshold, n) == data,
    decreases n,
{
    if n > 0 && img_w > 0 {
        let i = (n - 1) as nat;
        lemma_blit_off_canvas(data, width, height, pix, img_w, img_h, x, y, threshold, i);
        assert(blit(data, width, height, pix, img_w, img_h, x, y, threshold, n) == canvas_set(
            blit(data, width, height, pix, img_w, img_h, x, y, threshold, i),
            width,
            height,
            x + i % img_w,
            ((y + img_h) - i / img_w) as nat,
            pix[i as int] >= threshold,
        ));
        assert(x + i % img_w >= x);
    }
}

/// Text laid out from a cursor at or beyond the canvas width, or on a canvas
/// of height 0, changes nothing: the cursor only moves right.
pub proof fn lemma_glyphs_blit_off_canvas(
    data: Seq<u8>,
    width: nat,
    height: nat,
    font: fontdue::Font,
    chars: Seq<char>,
    px: u16,
    xc: nat,
    y: nat,
)
    requires
        xc >= width || height == 0,
    ensures
        glyphs_blit(data, width, height, font, chars, px, xc, y) == data,
    decreases chars.len(),
{
    if chars.len() > 0 {
        let gw = glyph_width_of(font, chars[0], px);
        let gh = glyph_height_of(font, chars[0], px);
        let gp = glyph_pixels_of(font, chars[0], px);
        lemma_blit_off_canvas(data, width, height, gp, gw, gh, xc, y, 128, gp.len());
        lemma_glyphs_blit_off_canvas(
            data,
            width,
            height,
            font,
            chars.drop_first(),
            px,
            xc + gw + 2,
            y,
        );
    }
}

impl<D: HidAdapter> OledScreen<D> {
    /// Blits a whole grayscale raster at `(x, y)` with the given lit
    /// threshold; the parts outside the canvas are silently clipped.
    pub fn draw_bitmap(&mut self, bmp: &GrayBitmap, x: usize, y: usize, threshold: u8)
        requires
            old(self).wf(),
            bmp.wf(),
        ensures
            final(self).wf(),
            final(self).spec_width() == old(self).spec_width(),
            final(self).spec_height() == old(self).spec_height(),
            final(self).baseline() == old(self).baseline(),
            final(self).device_log() == old(self).device_log(),
            final(self).buf() == blit(
                old(self).buf(),
                old(self).spec_width(),
                old(self).spec_height(),
                bmp.pixels@,
                bmp.width as nat,
                bmp.height as nat,
                x as nat,
                y as nat,
                threshold,
                bmp.pixels@.len(),
            ),
    {
        let ghost w = old(self).spec_width();
        let ghost h = old(self).spec_height();
        let n = bmp.pixels.len();
        let mut i: usize = 0;
        while i < n
            invariant
                self.wf(),
                bmp.wf(),
                self.spec_width() == w,
                self.spec_height() == h,
                self.baseline() == old(self).baseline(),
                self.device_log() == old(self).device_log(),
                n == bmp.pixels@.len(),
                i <= n,
                self.buf() == blit(
                    old(self).buf(),
                    w,
                    h,
                    bmp.pixels@,
                    bmp.width as nat,
                    bmp.height as nat,
                    x as nat,
                    y as nat,
                    threshold,
                    i as nat,
                ),
            decreases n - i,
        {
            proof {
                assert(bmp.width > 0 && bmp.height > 0) by (nonlinear_arith)
                    requires
                        i < n,
                        n == (bmp.width as nat) * (bmp.height as nat),
                ;
                assert(i as nat / (bmp.width as nat) < bmp.height as nat) by (nonlinear_arith)
                    requires
                        i < n,
                        n == (bmp.width as nat) * (bmp.height as nat),
                        bmp.width > 0,
                ;
            }
            let col_off = i % bmp.width;
            let row_off = i / bmp.width;
            let enabled = bmp.pixels[i] >= threshold;
            let ghost before = self.buf();
            let ghost col_spec = x as nat + (i as nat) % (bmp.width as nat);
            let ghost row_spec = ((y as nat + bmp.height as nat) - (i as nat) / (
            bmp.width as nat)) as nat;
            match (x.checked_add(col_off), y.checked_add(bmp.height - row_off)) {
                (Some(col), Some(row)) => {
                    self.set_pixel(col, row, enabled);
                },
                _ => {
                    proof {
                        self.lemma_wf_shape();
                        assert(col_spec >= w || row_spec >= h);
                        assert(canvas_set(before, w, h, col_spec, row_spec, enabled) == before);
                    }
                },
            }
            i += 1;
        }
    }

    /// Applies the sizing policy to the image, converts it to a two-level
    /// grayscale raster, and blits it at `(x, y)`: a pixel is lit exactly
    /// when its dithered value is 255, and the parts outside the canvas are
    /// silently clipped. An unscaled image drawn with `Original` must be at
    /// least 2 wide and 1 tall, and `Cover` needs both image dimensions
    /// nonzero: the dither pass indexes neighbouring pixels.
    pub fn draw_image(
        &mut self,
        image: image::DynamicImage,
        x: usize,
        y: usize,
        sizing: &ImageSizing,
    )
        requires
            old(self).wf(),
            2 <= old(self).spec_width(),
            1 <= old(self).spec_height(),
            *sizing is Original ==> 2 <= image_width_of(image) && 1 <= image_height_of(image),
            *sizing is Cover ==> 1 <= image_width_of(image) && 1 <= image_height_of(image),
        ensures
            final(self).wf(),
            final(self).spec_width() == old(self).spec_width(),
            final(self).spec_height() == old(self).spec_height(),
            final(self).baseline() == old(self).baseline(),
            final(self).device_log() == old(self).device_log(),
            ({
                let w = old(self).spec_width();
                let h = old(self).spec_height();
                let iw = image_width_of(image);
                let ih = image_height_of(image);
                match *sizing {
                    ImageSizing::Contain => final(self).buf() == blit(
                        old(self).buf(),
                        w,
                        h,
                        sized_bilevel_of(image, w as u32, h as u32),
                        w,
                        h,
                        x as nat,
                        y as nat,
                        255,
                        w * h,
                    ),
                    ImageSizing::Cover => final(self).buf() == blit(
                        old(self).buf(),
                        w,
                        h,
                        sized_bilevel_of(
                            image,
                            spec_cover_width(iw, ih, w, h) as u32,
                            spec_cover_height(iw, ih, w, h) as u32,
                        ),
                        spec_cover_width(iw, ih, w, h),
                        spec_cover_height(iw, ih, w, h),
                        x as nat,
                        y as nat,
                        255,
                        spec_cover_width(iw, ih, w, h) * spec_cover_height(iw, ih, w, h),
                    ),
                    ImageSizing::Original => final(self).buf() == blit(
                        old(self).buf(),
                        w,
                        h,
                        bilevel_pixels_of(image),
                        iw,
                        ih,
                        x as nat,
                        y as nat,
                        255,
                        iw * ih,
                    ),
                }
            }),
    {
        let ghost w = old(self).spec_width();
        let ghost h = old(self).spec_height();
        proof {
            self.lemma_wf_shape();
            let bytes = old(self).buf().len();
            assert(w <= 61440 && h <= 30720) by (nonlinear_arith)
                requires
                    8 * bytes == w * h,
                    bytes <= 7680,
                    1 <= h,
                    2 <= w,
            ;
        }
        match sizing {
            ImageSizing::Contain => {
                let bmp = resize_dither_bilevel(&image, self.width() as u32, self.height() as u32);
                self.draw_bitmap(&bmp, x, y, 255);
            },
            ImageSizing::Cover => {
                let iw = image_width(&image);
                let ih = image_height(&image);
                let dims = cover_dimensions(iw, ih, self.width() as u32, self.height() as u32);
                proof {
                    lemma_cover_at_least_canvas(iw as nat, ih as nat, w, h);
                }
                let bmp = resize_dither_bilevel(&image, dims.0, dims.1);
                self.draw_bitmap(&bmp, x, y, 255);
            },
            ImageSizing::Original => {
                let bmp = dither_bilevel(&image);
                self.draw_bitmap(&bmp, x, y, 255);
            },
        }
    }

    /// Rasterizes one character and blits its coverage bitmap at `(x, y)`: a
    /// glyph pixel is lit exactly when rounding its coverage byte against 255
    /// rounds up, that is at 128 and above. Returns the glyph's width for the
    /// caller's cursor advance.
    fn draw_letter(&mut self, letter: char, x: usize, y: usize, px: u16, font: &fontdue::Font) -> (gw:
        usize)
        requires
            old(self).wf(),
        ensures
            final(self).wf(),
            final(self).spec_width() == old(self).spec_width(),
            final(self).spec_height() == old(self).spec_height(),
            final(self).baseline() == old(self).baseline(),
            final(self).device_log() == old(self).device_log(),
            gw as nat == glyph_width_of(*font, letter, px),
            final(self).buf() == blit(
                old(self).buf(),
                old(self).spec_width(),
                old(self).spec_height(),
                glyph_pixels_of(*font, letter, px),
                glyph_width_of(*font, letter, px),
                glyph_height_of(*font, letter, px),
                x as nat,
                y as nat,
                128,
                glyph_pixels_of(*font, letter, px).len(),
            ),
    {
        let glyph = rasterize_glyph(font, letter, px);
        self.draw_bitmap(&glyph, x, y, 128);
        glyph.width
    }

    /// Draws `text` left to right from `(x, y)`: each character's glyph is
    /// rasterized at `px` pixels per em and blitted with its coverage rounded
    /// to one bit, and the cursor advances by the glyph width plus a fixed
    /// 2-pixel gap. Whatever falls outside the canvas is silently clipped.
    pub fn draw_text(&mut self, text: &str, x: usize, y: usize, px: u16, font: &fontdue::Font)
        requires
            old(self).wf(),
        ensures
            final(self).wf(),
            final(self).spec_width() == old(self).spec_width(),
            final(self).spec_height() == old(self).spec_height(),
            final(self).baseline() == old(self).baseline(),
            final(self).device_log() == old(self).device_log(),
            final(self).buf() == glyphs_blit(
                old(self).buf(),
                old(self).spec_width(),
                old(self).spec_height(),
                *font,
                text@,
                px,
                x as nat,
                y as nat,
            ),
    {
        let ghost w = old(self).spec_width();
        let ghost h = old(self).spec_height();
        let n = text.unicode_len();
        let mut x_cursor: usize = x;
        let ghost mut cursor: nat = x as nat;
        let mut i: usize = 0;
        proof {
            assert(text@.skip(0) =~= text@);
        }
        while i < n
            invariant
                self.wf(),
                self.spec_width() == w,
                self.spec_height() == h,
                self.baseline() == old(self).baseline(),
                self.device_log() == old(self).device_log(),
                n == text@.len(),
                i <= n,
                x_cursor as nat == cursor || (x_cursor == usize::MAX && cursor >= usize::MAX),
                glyphs_blit(old(self).buf(), w, h, *font, text@, px, x as nat, y as nat)
                    == glyphs_blit(self.buf(), w, h, *font, text@.skip(i as int), px, cursor, y as nat),
            decreases n - i,
        {
            let letter = text.get_char(i);
            let ghost rest = text@.skip(i as int);
            let ghost buf_pre = self.buf();
            let ghost gw_s = glyph_width_of(*font, letter, px);
            let ghost gh_s = glyph_height_of(*font, letter, px);
            let ghost gp_s = glyph_pixels_of(*font, letter, px);
            let gw = self.draw_letter(letter, x_cursor, y, px, font);
            proof {
                self.lemma_wf_shape();
                assert(rest[0] == letter);
                assert(rest.drop_first() =~= text@.skip(i + 1));
                assert(glyphs_blit(buf_pre, w, h, *font, rest, px, cursor, y as nat)
                    == glyphs_blit(
                    blit(buf_pre, w, h, gp_s, gw_s, gh_s, cursor, y as nat, 128, gp_s.len()),
                    w,
                    h,
                    *font,
                    rest.drop_first(),
                    px,
                    cursor + gw_s + 2,
                    y as nat,
                ));
                if x_cursor as nat == cursor {
                } else {
                    assert(x_cursor == usize::MAX && cursor >= usize::MAX);
                    assert(w <= usize::MAX);
                    lemma_blit_off_canvas(
                        buf_pre,
                        w,
                        h,
                        gp_s,
                        gw_s,
                        gh_s,
                        x_cursor as nat,
                        y as nat,
                        128,
                        gp_s.len(),
                    );
                    lemma_glyphs_blit_off_canvas(buf_pre, w, h, *font, rest, px, cursor, y as nat);
                    lemma_glyphs_blit_off_canvas(
                        buf_pre,
                        w,
                        h,
                        *font,
                        rest.drop_first(),
                        px,
                        cursor + gw_s + 2,
                        y as nat,
                    );
                }
                cursor = cursor + gw_s + 2;
            }
            x_cursor = x_cursor.saturating_add(gw).saturating_add(2);
            proof {
                if !(x_cursor as nat == cursor) {
                    assert(x_cursor == usize::MAX && cursor >= usize::MAX);
                }
            }
            i += 1;
        }
        proof {
            assert(text@.skip(n as int) =~= Seq::<char>::empty());
        }
    }
}

} // verus!
