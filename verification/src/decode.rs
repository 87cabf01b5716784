//! Thumbnail decoding: the `image` crate decodes and scales the file's
//! bytes; the result is checked and turned from RGBA into the BGRA order the
//! renderer takes.

use vstd::prelude::*;
use image::ImageDecoder;

verus! {

/// Files larger than this are not decoded.
pub const MAX_SOURCE_BYTES: u64 = 32 * 1024 * 1024;

/// The most memory the decoder may allocate.
pub const MAX_DECODE_ALLOC: u64 = 256 * 1024 * 1024;

/// Thumbnails fit in a square of this many pixels.
pub const THUMBNAIL_MAX_EDGE: u32 = 64;

/// What the `image` crate makes of a file's bytes, read as below with
/// allocations capped at `max_alloc` and the result scaled to fit `max_edge`
/// pixels square: its width, its height and its RGBA bytes, or `None` when
/// the format is unknown or decoding fails.
pub uninterp spec fn decoded_rgba(bytes: Seq<u8>, max_alloc: u64, max_edge: u32) -> Option<(u32, u32, Seq<u8>)>;

/// The image crate's chain over the bytes of a file: `ImageReader::new` on a
/// cursor, `with_guessed_format` (the format is guessed from the first
/// bytes), `limits` with `image::Limits::default()` but `max_alloc`,
/// `into_decoder`, the decoder's EXIF `orientation` (an unreadable one counts
/// as no transform), `DynamicImage::from_decoder`, `apply_orientation`,
/// `thumbnail(max_edge, max_edge)` and `into_rgba8`, taken apart into width,
/// height and bytes. `ImageReader` is bound by std's `Read` and `Seek`, which
/// cannot be declared here, and the decoder's type is anonymous, so the chain
/// stands in one wrapper. The result is named `decoded_rgba`: the same bytes
/// and limits give the same result. Stated of it besides: `thumbnail` sizes
/// each side as `max(round(side * ratio), 1)`, where the ratio makes the
/// image fit the box, so both sides lie between 1 and `max_edge`. The pixel
/// values themselves are not stated.
#[verifier::external_body]
fn decode_rgba(bytes: Vec<u8>, max_alloc: u64, max_edge: u32) -> (r: Option<(u32, u32, Vec<u8>)>)
    ensures
        match decoded_rgba(bytes@, max_alloc, max_edge) {
            None => r is None,
            Some(d) => r matches Some(t) && t.0 == d.0 && t.1 == d.1 && t.2@ == d.2,
        },
        max_edge >= 1 ==> (r matches Some(t) ==> 1 <= t.0 <= max_edge && 1 <= t.1 <= max_edge),
{
    let mut reader = image::ImageReader::new(std::io::Cursor::new(bytes)).with_guessed_format().ok()?;
    let mut limits = image::Limits::default();
    limits.max_alloc = Some(max_alloc);
    reader.limits(limits);
    let mut decoder = reader.into_decoder().ok()?;
    let orientation = decoder.orientation().unwrap_or(image::metadata::Orientation::NoTransforms);
    let mut image = image::DynamicImage::from_decoder(decoder).ok()?;
    image.apply_orientation(orientation);
    let rgba = image.thumbnail(max_edge, max_edge).into_rgba8();
    Some((rgba.width(), rgba.height(), rgba.into_raw()))
}

/// A decoded thumbnail: its size and its pixels, four bytes each in
/// blue, green, red, alpha order.
pub struct Thumbnail {
    pub width: u32,
    pub height: u32,
    pub bgra: Vec<u8>,
}

/// The bytes with the first and third byte of every whole four-byte pixel
/// exchanged (RGBA to BGRA); trailing bytes of an incomplete pixel are kept.
pub open spec fn swap_red_blue(px: Seq<u8>) -> Seq<u8> {
    Seq::new(
        px.len(),
        |i: int|
            if i < px.len() - px.len() % 4 {
                if i % 4 == 0 {
                    px[i + 2]
                } else if i % 4 == 2 {
                    px[i - 2]
                } else {
                    px[i]
                }
            } else {
                px[i]
            },
    )
}

/// A thumbnail from decoded RGBA pixels: none when the image is empty,
/// otherwise the pixels in BGRA order.
pub fn bgra_thumbnail(width: u32, height: u32, rgba: Vec<u8>) -> (r: Option<Thumbnail>)
    ensures
        r is None <==> (width == 0 || height == 0),
        r matches Some(t) ==> t.width == width && t.height == height && t.bgra@ == swap_red_blue(
            rgba@,
        ),
{
    if width == 0 || height == 0 {
        return None;
    }
    let ghost orig = rgba@;
    let mut px = rgba;
    let n = px.len();
    let whole = n - n % 4;
    let mut i: usize = 0;
    while i < whole
        invariant
            n == px.len() == orig.len(),
            whole == n - n % 4,
            i % 4 == 0,
            i <= whole,
            forall|j: int| 0 <= j < i ==> px@[j] == #[trigger] swap_red_blue(orig)[j],
            forall|j: int| i <= j < n ==> px@[j] == #[trigger] orig[j],
        decreases whole - i,
    {
        let a = px[i];
        let b = px[i + 2];
        px.set(i, b);
        px.set(i + 2, a);
        assert forall|j: int| 0 <= j < i + 4 implies px@[j] == #[trigger] swap_red_blue(orig)[j] by {
            if j >= i {
                assert(j % 4 == j - i);
            }
        }
        i = i + 4;
    }
    assert(px@ =~= swap_red_blue(orig));
    Some(Thumbnail { width, height, bgra: px })
}

/// What `decode` gives for the bytes of a file: nothing when there are more
/// than `MAX_SOURCE_BYTES` of them, when the `image` crate cannot decode them,
/// or when the scaled image is empty; otherwise the scaled image with its
/// pixels in BGRA order.
pub open spec fn decode_spec(source: Seq<u8>) -> Option<(u32, u32, Seq<u8>)> {
    if source.len() > MAX_SOURCE_BYTES {
        None
    } else {
        match decoded_rgba(source, MAX_DECODE_ALLOC, THUMBNAIL_MAX_EDGE) {
            None => None,
            Some(d) => if d.0 == 0 || d.1 == 0 {
                None
            } else {
                Some((d.0, d.1, swap_red_blue(d.2)))
            },
        }
    }
}

/// Decodes the bytes of an image file into a thumbnail that fits
/// `THUMBNAIL_MAX_EDGE` pixels square, upright, with its pixels in BGRA
/// order. `None` when the file is larger than `MAX_SOURCE_BYTES`, is not a
/// decodable image, or decodes to an empty image. The decoding and scaling
/// are the `image` crate's.
pub fn decode(source: Vec<u8>) -> (r: Option<Thumbnail>)
    ensures
        match decode_spec(source@) {
            None => r is None,
            Some(d) => r matches Some(t) && t.width == d.0 && t.height == d.1 && t.bgra@ == d.2,
        },
        r matches Some(t) ==> 1 <= t.width <= THUMBNAIL_MAX_EDGE && 1 <= t.height
            <= THUMBNAIL_MAX_EDGE,
{
    if source.len() as u64 > MAX_SOURCE_BYTES {
        return None;
    }
    match decode_rgba(source, MAX_DECODE_ALLOC, THUMBNAIL_MAX_EDGE) {
        None => None,
        Some((width, height, rgba)) => bgra_thumbnail(width, height, rgba),
    }
}

/// Exchanging red and blue twice gives the pixels back.
pub proof fn law_swap_red_blue_involutive(px: Seq<u8>)
    ensures
        swap_red_blue(swap_red_blue(px)) == px,
{
    let once = swap_red_blue(px);
    assert forall|i: int| 0 <= i < px.len() implies #[trigger] swap_red_blue(once)[i] == px[i] by {
        if i < px.len() - px.len() % 4 {
            if i % 4 == 0 {
                assert((i + 2) % 4 == 2);
            } else if i % 4 == 2 {
                assert((i - 2) % 4 == 0);
            }
        }
    }
    assert(swap_red_blue(once) =~= px);
}

} // verus!
