use vstd::prelude::*;

use crate::grid::{Color, Mask};
use crate::RefineError;

verus! {

/// The 8-bit luma of one RGBA pixel, exactly as `image` computes it:
/// the fixed sRGB coefficients over the RGB channels in integer
/// arithmetic, truncating; alpha plays no part. The quotient is at most
/// 255, so the crate's final clamp never alters it.
pub open spec fn luma_pixel(r: u8, g: u8, b: u8) -> u8 {
    ((2126 * r + 7152 * g + 722 * b) / 10000) as u8
}

/// Relies on `image::DynamicImage::to_luma8`: every RGBA pixel is
/// converted independently to one luma byte by the crate's
/// fixed-coefficient sRGB formula, computed in 32-bit integers.
#[verifier::external_body]
pub(crate) fn rgba_to_luma(buf: &Vec<u8>, width: usize, height: usize) -> (r: Vec<u8>)
    requires
        buf@.len() == 4 * width * height,
        width <= 0xffff_ffff,
        height <= 0xffff_ffff,
    ensures
        r@.len() == width * height,
        forall|i: int| 0 <= i < width * height ==> r@[i] == luma_pixel(
            buf@[4 * i],
            buf@[4 * i + 1],
            buf@[4 * i + 2],
        ),
{
    let img = image::RgbaImage::from_raw(width as u32, height as u32, buf.clone()).unwrap();
    image::DynamicImage::ImageRgba8(img).to_luma8().into_raw()
}

/// What nearest-neighbor resampling of an RGBA buffer returns; a
/// function of the buffer and the four dimensions alone.
pub uninterp spec fn resize_nearest_of(
    buf: Seq<u8>,
    w: int,
    h: int,
    nw: int,
    nh: int,
) -> Seq<u8>;

/// Relies on `image::DynamicImage::resize_exact` with
/// `FilterType::Nearest`: deterministic nearest-neighbor resampling to
/// an RGBA buffer of the new dimensions. The resampler allocates an
/// intermediate grid of `width` by `new_height` float RGBA pixels, 16
/// bytes each, whose size must also fit the machine.
#[verifier::external_body]
pub(crate) fn resize_rgba_nearest(
    buf: &Vec<u8>,
    width: usize,
    height: usize,
    new_width: usize,
    new_height: usize,
) -> (r: Vec<u8>)
    requires
        buf@.len() == 4 * width * height,
        1 <= width <= 0xffff_ffff,
        1 <= height <= 0xffff_ffff,
        1 <= new_width <= 0xffff_ffff,
        1 <= new_height <= 0xffff_ffff,
        4 * new_width * new_height <= usize::MAX,
        16 * (width * new_height) <= usize::MAX,
    ensures
        r@ == resize_nearest_of(
            buf@,
            width as int,
            height as int,
            new_width as int,
            new_height as int,
        ),
        r@.len() == 4 * new_width * new_height,
{
    let img = image::RgbaImage::from_raw(width as u32, height as u32, buf.clone()).unwrap();
    let resized = image::DynamicImage::ImageRgba8(img).resize_exact(
        new_width as u32,
        new_height as u32,
        image::imageops::FilterType::Nearest,
    );
    resized.into_rgba8().into_raw()
}

/// Reads a mask out of an RGBA buffer by its alpha channel: a pixel is
/// foreground when its alpha exceeds 128.
pub fn mask_from_rgba_alpha(buf: &Vec<u8>, width: usize, height: usize) -> (r: Result<
    Mask,
    RefineError,
>)
    ensures
        buf@.len() != 4 * width * height ==> r === Err(RefineError::DecodeFailure),
        buf@.len() == 4 * width * height ==> (r matches Ok(m) && m.wf() && m.width == width
            && m.height == height && (forall|i: int| 0 <= i < width * height
                ==> m.data@[i] == (buf@[4 * i + 3] > 128))),
{
    let bl = buf.len();
    proof {
        assert(0 <= width * height && width * height <= 4 * width * height
            && 4 * width * height == 4 * (width * height)) by (nonlinear_arith);
    }
    let n = match width.checked_mul(height) {
        Some(n) => n,
        None => {
            return Err(RefineError::DecodeFailure);
        }
    };
    let four_n = match n.checked_mul(4) {
        Some(m) => m,
        None => {
            return Err(RefineError::DecodeFailure);
        }
    };
    if buf.len() != four_n {
        return Err(RefineError::DecodeFailure);
    }
    let mut data: Vec<bool> = Vec::new();
    let mut i: usize = 0;
    while i < n
        invariant
            buf@.len() == 4 * n,
            4 * n <= usize::MAX,
            n == width * height,
            i <= n,
            data@.len() == i,
            forall|j: int| 0 <= j < i ==> data@[j] == (buf@[4 * j + 3] > 128),
        decreases n - i,
    {
        data.push(buf[4 * i + 3] > 128);
        i = i + 1;
    }
    Ok(Mask { width, height, data })
}

/// Reads a mask out of an RGBA buffer by its first channel: a pixel is
/// foreground when its first byte is nonzero.
pub fn mask_from_rgba_red(buf: &Vec<u8>, width: usize, height: usize) -> (r: Result<
    Mask,
    RefineError,
>)
    ensures
        buf@.len() != 4 * width * height ==> r === Err(RefineError::DecodeFailure),
        buf@.len() == 4 * width * height ==> (r matches Ok(m) && m.wf() && m.width == width
            && m.height == height && (forall|i: int| 0 <= i < width * height
                ==> m.data@[i] == (buf@[4 * i] > 0))),
{
    let bl = buf.len();
    proof {
        assert(0 <= width * height && width * height <= 4 * width * height
            && 4 * width * height == 4 * (width * height)) by (nonlinear_arith);
    }
    let n = match width.checked_mul(height) {
        Some(n) => n,
        None => {
            return Err(RefineError::DecodeFailure);
        }
    };
    let four_n = match n.checked_mul(4) {
        Some(m) => m,
        None => {
            return Err(RefineError::DecodeFailure);
        }
    };
    if buf.len() != four_n {
        return Err(RefineError::DecodeFailure);
    }
    let mut data: Vec<bool> = Vec::new();
    let mut i: usize = 0;
    while i < n
        invariant
            buf@.len() == 4 * n,
            4 * n <= usize::MAX,
            n == width * height,
            i <= n,
            data@.len() == i,
            forall|j: int| 0 <= j < i ==> data@[j] == (buf@[4 * j] > 0),
        decreases n - i,
    {
        data.push(buf[4 * i] > 0);
        i = i + 1;
    }
    Ok(Mask { width, height, data })
}

/// The display color of an RGBA mask buffer: the color of the first
/// pixel (in storage order) whose first byte is nonzero, or fully
/// transparent black if there is none.
pub fn first_nonzero_color(buf: &Vec<u8>, n_pixels: usize) -> (r: Color)
    requires
        buf@.len() == 4 * n_pixels,
    ensures
        (forall|i: int| 0 <= i < n_pixels ==> #[trigger] buf@[4 * i] == 0)
            ==> r == (Color { r: 0, g: 0, b: 0, a: 0 }),
        (exists|i: int| 0 <= i < n_pixels && #[trigger] buf@[4 * i] > 0) ==> (exists|i: int|
            0 <= i < n_pixels && #[trigger] buf@[4 * i] > 0
            && (forall|j: int| 0 <= j < i ==> #[trigger] buf@[4 * j] == 0)
            && r == (Color {
                r: buf@[4 * i],
                g: buf@[4 * i + 1],
                b: buf@[4 * i + 2],
                a: buf@[4 * i + 3],
            })),
{
    let bl = buf.len();
    let mut i: usize = 0;
    while i < n_pixels
        invariant
            buf@.len() == 4 * n_pixels,
            4 * n_pixels <= usize::MAX,
            i <= n_pixels,
            forall|j: int| 0 <= j < i ==> #[trigger] buf@[4 * j] == 0,
        decreases n_pixels - i,
    {
        if buf[4 * i] > 0 {
            return Color {
                r: buf[4 * i],
                g: buf[4 * i + 1],
                b: buf[4 * i + 2],
                a: buf[4 * i + 3],
            };
        }
        i = i + 1;
    }
    Color { r: 0, g: 0, b: 0, a: 0 }
}

/// Rasterizes a mask to an RGBA buffer: the display color where the
/// mask is foreground, fully transparent black elsewhere.
pub fn mask_to_rgba(mask: &Mask, color: Color) -> (r: Vec<u8>)
    requires
        mask.wf(),
        4 * mask.width * mask.height <= usize::MAX,
    ensures
        r@.len() == 4 * mask.width * mask.height,
        forall|i: int| 0 <= i < mask.width * mask.height ==> {
            &&& r@[4 * i] == (if mask.data@[i] { color.r } else { 0u8 })
            &&& r@[4 * i + 1] == (if mask.data@[i] { color.g } else { 0u8 })
            &&& r@[4 * i + 2] == (if mask.data@[i] { color.b } else { 0u8 })
            &&& r@[4 * i + 3] == (if mask.data@[i] { color.a } else { 0u8 })
        },
{
    let n = mask.data.len();
    proof {
        assert(4 * mask.width * mask.height == 4 * (mask.width * mask.height))
            by (nonlinear_arith);
    }
    let mut out: Vec<u8> = Vec::new();
    let mut i: usize = 0;
    while i < n
        invariant
            mask.wf(),
            n == mask.data@.len(),
            n == mask.width * mask.height,
            4 * n <= usize::MAX,
            i <= n,
            out@.len() == 4 * i,
            forall|j: int| 0 <= j < i ==> {
                &&& out@[4 * j] == (if mask.data@[j] { color.r } else { 0u8 })
                &&& out@[4 * j + 1] == (if mask.data@[j] { color.g } else { 0u8 })
                &&& out@[4 * j + 2] == (if mask.data@[j] { color.b } else { 0u8 })
                &&& out@[4 * j + 3] == (if mask.data@[j] { color.a } else { 0u8 })
            },
        decreases n - i,
    {
        if mask.data[i] {
            out.push(color.r);
            out.push(color.g);
            out.push(color.b);
            out.push(color.a);
        } else {
            out.push(0);
            out.push(0);
            out.push(0);
            out.push(0);
        }
        i = i + 1;
    }
    out
}

} // verus!
