//! Preparing the boot splash screen: decoding and scaling its images, the
//! positions where sparkles may appear, and packing colours as RGB565.

use vstd::prelude::*;
use vstd::arithmetic::div_mod::lemma_fundamental_div_mod_converse;

verus! {

/// `px` holds `w` × `h` pixels of four bytes each.
pub open spec fn fits(w: u32, h: u32, px: Seq<u8>) -> bool {
    px.len() == 4 * (w * h)
}

/// An RGBA8 image: `width` × `height` pixels of four bytes (red, green,
/// blue, alpha), row by row from the top left.
pub struct Rgba8Image {
    width: u32,
    height: u32,
    pixels: Vec<u8>,
}

impl View for Rgba8Image {
    type V = (u32, u32, Seq<u8>);

    closed spec fn view(&self) -> (u32, u32, Seq<u8>) {
        (self.width, self.height, self.pixels@)
    }
}

impl Rgba8Image {
    /// The pixel buffer has exactly four bytes per pixel.
    #[verifier::type_invariant]
    spec fn well_formed(self) -> bool {
        fits(self.width, self.height, self.pixels@)
    }

    /// Width in pixels.
    pub fn width(&self) -> (w: u32)
        ensures
            w == self@.0,
    {
        self.width
    }

    /// Height in pixels.
    pub fn height(&self) -> (h: u32)
        ensures
            h == self@.1,
    {
        self.height
    }

    /// The pixel bytes, row by row, four per pixel.
    pub fn pixels(&self) -> (px: &Vec<u8>)
        ensures
            px@ == self@.2,
            fits(self@.0, self@.1, px@),
    {
        proof {
            use_type_invariant(self);
        }
        &self.pixels
    }
}

/// Names what the `image` crate decodes from an image file's bytes, taken
/// as RGBA8: width, height and pixel bytes, or `None` when it reports an error.
pub uninterp spec fn decoded_rgba(bytes: Seq<u8>) -> Option<(u32, u32, Seq<u8>)>;

/// Decodes an image file.
///
/// Trusted: calls `image::load_from_memory`, converts the result with
/// `into_rgba8`, and hands out its dimensions and raw buffer (`into_raw`);
/// `None` when decoding fails. The bytes are named, not described.
#[verifier::external_body]
fn decode_rgba(bytes: &[u8]) -> (r: Option<(u32, u32, Vec<u8>)>)
    ensures
        match r {
            Some(d) => decoded_rgba(bytes@) == Some((d.0, d.1, d.2@)),
            None => decoded_rgba(bytes@) is None,
        },
{
    match image::load_from_memory(bytes) {
        Ok(decoded) => {
            let rgba = decoded.into_rgba8();
            let (w, h) = rgba.dimensions();
            Some((w, h, rgba.into_raw()))
        },
        Err(_) => None,
    }
}

/// Decodes an image file into an RGBA8 image; `None` when it cannot be
/// decoded (or its buffer does not hold four bytes per pixel).
pub fn decode_image(bytes: &[u8]) -> (r: Option<Rgba8Image>)
    ensures
        match decoded_rgba(bytes@) {
            Some(d) => if fits(d.0, d.1, d.2) {
                r matches Some(img) && img@ == d
            } else {
                r is None
            },
            None => r is None,
        },
{
    match decode_rgba(bytes) {
        Some((w, h, px)) => {
            let n = px.len();
            match (w as usize).checked_mul(h as usize) {
                Some(p) => {
                    if n % 4 == 0 && n / 4 == p {
                        Some(Rgba8Image { width: w, height: h, pixels: px })
                    } else {
                        None
                    }
                },
                None => {
                    assert(!fits(w, h, px@));
                    None
                },
            }
        },
        None => None,
    }
}

/// Names what the `image` crate's Lanczos3 resampling makes of a `w` × `h`
/// RGBA8 image at the new size `nw` × `nh`.
pub uninterp spec fn lanczos3_resized(w: u32, h: u32, px: Seq<u8>, nw: u32, nh: u32) -> Seq<u8>;

/// Resamples an RGBA8 buffer to a new size.
///
/// Trusted: wraps the buffer with `ImageBuffer::from_raw` (which takes a
/// buffer of exactly four bytes per pixel) and calls
/// `image::imageops::resize` with `FilterType::Lanczos3`. Its result is
/// built by `ImageBuffer::new(nw, nh)` (or copied when the size is
/// unchanged), so it holds four bytes per new pixel; `ImageBuffer::new`
/// panics when a buffer length overflows, which the bounds leave out. The
/// pixel values are named, not described.
#[verifier::external_body]
fn resize_rgba(w: u32, h: u32, px: &Vec<u8>, nw: u32, nh: u32) -> (out: Vec<u8>)
    requires
        fits(w, h, px@),
        4 * (w * nh) <= usize::MAX,
        4 * (nw * nh) <= usize::MAX,
    ensures
        out@ == lanczos3_resized(w, h, px@, nw, nh),
        fits(nw, nh, out@),
{
    let source = image::RgbaImage::from_raw(w, h, px.clone()).expect("four bytes per pixel");
    image::imageops::resize(&source, nw, nh, image::imageops::FilterType::Lanczos3).into_raw()
}

/// The image resampled to `nw` × `nh` with the Lanczos3 filter.
pub fn resize_lanczos3(img: &Rgba8Image, nw: u32, nh: u32) -> (out: Rgba8Image)
    requires
        4 * (img@.0 * nh) <= usize::MAX,
        4 * (nw * nh) <= usize::MAX,
    ensures
        out@ == (nw, nh, lanczos3_resized(img@.0, img@.1, img@.2, nw, nh)),
{
    proof {
        use_type_invariant(img);
    }
    let px = resize_rgba(img.width, img.height, &img.pixels, nw, nh);
    Rgba8Image { width: nw, height: nh, pixels: px }
}

/// Alpha above which a pixel is opaque enough for a sparkle to appear.
pub const SPAWN_ALPHA: u8 = 30;

/// The screen positions, offset by (`x_off`, `y_off`), of the first `n`
/// pixels (row by row) whose alpha exceeds [`SPAWN_ALPHA`], in that order.
pub open spec fn opaque_positions_upto(
    w: u32,
    px: Seq<u8>,
    x_off: u32,
    y_off: u32,
    n: nat,
) -> Seq<(u32, u32)>
    decreases n,
{
    if n == 0 {
        Seq::empty()
    } else {
        let k = n - 1;
        let rest = opaque_positions_upto(w, px, x_off, y_off, (n - 1) as nat);
        if px[4 * k + 3] > SPAWN_ALPHA {
            rest.push(((x_off + k % (w as int)) as u32, (y_off + k / (w as int)) as u32))
        } else {
            rest
        }
    }
}

/// The screen positions of all pixels of a `w` × `h` image whose alpha
/// exceeds [`SPAWN_ALPHA`], row by row, the image placed at (`x_off`, `y_off`).
pub open spec fn opaque_positions(w: u32, h: u32, px: Seq<u8>, x_off: u32, y_off: u32) -> Seq<(u32, u32)> {
    opaque_positions_upto(w, px, x_off, y_off, (w * h) as nat)
}

/// Where sparkles may appear: the pixels of `img` whose alpha exceeds
/// [`SPAWN_ALPHA`], as screen positions with the image at (`x_off`, `y_off`).
pub fn spawn_points(img: &Rgba8Image, x_off: u32, y_off: u32) -> (pts: Vec<(u32, u32)>)
    requires
        x_off + img@.0 <= u32::MAX,
        y_off + img@.1 <= u32::MAX,
    ensures
        pts@ == opaque_positions(img@.0, img@.1, img@.2, x_off, y_off),
{
    proof {
        use_type_invariant(img);
    }
    let w = img.width;
    let h = img.height;
    let px = &img.pixels;
    let len: usize = px.len();
    let n: usize = len / 4;
    assert(n == w * h);
    assert(n > 0 ==> w > 0) by (nonlinear_arith)
        requires
            n == w * h,
    ;
    let mut pts: Vec<(u32, u32)> = Vec::new();
    let mut k: usize = 0;
    let mut x: u32 = 0;
    let mut y: u32 = 0;
    while k < n
        invariant
            n == w * h,
            px@.len() == 4 * n,
            len == px@.len(),
            px@ == img@.2,
            w == img@.0,
            h == img@.1,
            x_off + w <= u32::MAX,
            y_off + h <= u32::MAX,
            k <= n,
            k == y * w + x,
            k < n ==> x < w,
            pts@ == opaque_positions_upto(w, px@, x_off, y_off, k as nat),
        decreases n - k,
    {
        assert(w > 0) by (nonlinear_arith)
            requires
                k < n,
                n == w * h,
        ;
        assert(y < h) by (nonlinear_arith)
            requires
                k == y * w + x,
                k < w * h,
                w > 0,
        ;
        proof {
            lemma_fundamental_div_mod_converse(k as int, w as int, y as int, x as int);
        }
        if px[4 * k + 3] > SPAWN_ALPHA {
            pts.push((x_off + x, y_off + y));
        }
        k += 1;
        x += 1;
        if x == w {
            assert((y + 1) * w == y * w + w) by (nonlinear_arith);
            x = 0;
            y += 1;
        }
        assert(k < n ==> x < w);
    }
    pts
}

/// An RGB565 colour from its 5-bit red, 6-bit green and 5-bit blue parts.
pub fn pack_rgb565(r: u16, g: u16, b: u16) -> (c: u16)
    requires
        r < 32,
        g < 64,
        b < 32,
    ensures
        c == r * 2048 + g * 32 + b,
{
    assert((r << 11u16) | (g << 5u16) | b == r * 2048 + g * 32 + b) by (bit_vector)
        requires
            r < 32,
            g < 64,
            b < 32,
    ;
    (r << 11u16) | (g << 5u16) | b
}

} // verus!
