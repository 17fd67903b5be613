//! Files and their fingerprints.
//!
//! A file is identified by its path; it carries a category derived from
//! its extension, an exact content digest of its bytes, and, for
//! recognized visual media, an optional perceptual digest of its decoded
//! pixels.

use vstd::prelude::*;
use image::AnimationDecoder;

verus! {

use vstd::string::StringSliceAdditionalSpecFns;
use crate::digest::{md5_of, md5_digest};
use crate::paths::{ext_of, str_bytes, extension_bytes};

/// The category of file in regards to comparison.
#[derive(Clone, Copy, PartialEq, Eq, Structural, Debug)]
pub enum Category {
    UNKNOWN,
    IMAGE,
    ANIMATION,
    VIDEO,
}

/// What an extension says about a file: a still image, an animation, a
/// video, the WebP container (which can hold a still or an animation),
/// or nothing.
#[derive(Clone, Copy, PartialEq, Eq, Structural, Debug)]
pub enum ExtClass {
    Image,
    Anim,
    Video,
    Webp,
    Other,
}

/// The extension `jpg`.
pub open spec fn jpg_ext() -> Seq<u8> {
    seq![106u8, 112u8, 103u8]
}

/// The extension `png`.
pub open spec fn png_ext() -> Seq<u8> {
    seq![112u8, 110u8, 103u8]
}

/// The extension `gif`.
pub open spec fn gif_ext() -> Seq<u8> {
    seq![103u8, 105u8, 102u8]
}

/// The extension `mp4`.
pub open spec fn mp4_ext() -> Seq<u8> {
    seq![109u8, 112u8, 52u8]
}

/// The extension `webm`.
pub open spec fn webm_ext() -> Seq<u8> {
    seq![119u8, 101u8, 98u8, 109u8]
}

/// The extension `webp`.
pub open spec fn webp_ext() -> Seq<u8> {
    seq![119u8, 101u8, 98u8, 112u8]
}

/// Classify an extension, case-sensitively.
pub open spec fn ext_class_of(e: Seq<u8>) -> ExtClass {
    if e == jpg_ext() || e == png_ext() {
        ExtClass::Image
    } else if e == gif_ext() {
        ExtClass::Anim
    } else if e == mp4_ext() || e == webm_ext() {
        ExtClass::Video
    } else if e == webp_ext() {
        ExtClass::Webp
    } else {
        ExtClass::Other
    }
}

/// Whether an extension is exactly the three given bytes.
fn ext_is3(ext: &Vec<u8>, x: u8, y: u8, z: u8) -> (r: bool)
    ensures
        r <==> ext@ == seq![x, y, z],
{
    if ext.len() == 3 {
        let r = ext[0] == x && ext[1] == y && ext[2] == z;
        proof {
            if r {
                assert(ext@ =~= seq![x, y, z]);
            }
        }
        r
    } else {
        false
    }
}

/// Whether an extension is exactly the four given bytes.
fn ext_is4(ext: &Vec<u8>, x: u8, y: u8, z: u8, w: u8) -> (r: bool)
    ensures
        r <==> ext@ == seq![x, y, z, w],
{
    if ext.len() == 4 {
        let r = ext[0] == x && ext[1] == y && ext[2] == z && ext[3] == w;
        proof {
            if r {
                assert(ext@ =~= seq![x, y, z, w]);
            }
        }
        r
    } else {
        false
    }
}

/// Classify an extension, case-sensitively.
pub fn classify_extension(ext: &Vec<u8>) -> (k: ExtClass)
    ensures
        k == ext_class_of(ext@),
{
    if ext_is3(ext, 106, 112, 103) || ext_is3(ext, 112, 110, 103) {
        ExtClass::Image
    } else if ext_is3(ext, 103, 105, 102) {
        ExtClass::Anim
    } else if ext_is3(ext, 109, 112, 52) || ext_is4(ext, 119, 101, 98, 109) {
        ExtClass::Video
    } else if ext_is4(ext, 119, 101, 98, 112) {
        ExtClass::Webp
    } else {
        ExtClass::Other
    }
}

/// Whether a WebP file holds an animation: `Some(flag)` when the header
/// parses, `None` when it does not.
pub uninterp spec fn webp_probe(bytes: Seq<u8>) -> Option<bool>;

/// Relies on `image`'s `WebPDecoder::new` and `has_animation`: whether a
/// WebP byte stream holds an animation is a function of the bytes alone.
#[verifier::external_body]
fn webp_has_animation(bytes: &Vec<u8>) -> (r: Result<bool, String>)
    ensures
        r matches Ok(b) ==> webp_probe(bytes@) == Some(b),
        r is Err ==> webp_probe(bytes@) is None,
{
    match image::codecs::webp::WebPDecoder::new(std::io::Cursor::new(bytes.as_slice())) {
        Ok(dec) => Ok(dec.has_animation()),
        Err(e) => Err(e.to_string()),
    }
}

/// The decoded still image held in a byte stream, as interleaved RGB
/// rows with its width and height; `None` when decoding fails.
pub uninterp spec fn image_rgb_of(bytes: Seq<u8>) -> Option<(Seq<u8>, u32, u32)>;

/// Relies on `image::load_from_memory` and `DynamicImage::to_rgb8`: the
/// decoded pixels are a function of the bytes alone, and the RGB buffer
/// holds three bytes per pixel.
#[verifier::external_body]
fn decode_image_rgb(bytes: &Vec<u8>) -> (r: Result<(Vec<u8>, u32, u32), String>)
    ensures
        r matches Ok(t) ==> image_rgb_of(bytes@) == Some((t.0@, t.1, t.2)) && t.0@.len() == 3
            * t.1 * t.2,
        r is Err ==> image_rgb_of(bytes@) is None,
{
    match image::load_from_memory(bytes.as_slice()) {
        Ok(img) => {
            let rgb = img.to_rgb8();
            let (w, h) = (rgb.width(), rgb.height());
            Ok((rgb.into_raw(), w, h))
        },
        Err(e) => Err(e.to_string()),
    }
}

/// The first frame of a GIF animation, as interleaved RGB rows with its
/// width and height; `None` when decoding fails or no frame exists.
pub uninterp spec fn gif_frame_of(bytes: Seq<u8>) -> Option<(Seq<u8>, u32, u32)>;

/// Relies on `image`'s `GifDecoder` and `into_frames`: the first frame's
/// pixels are a function of the bytes alone, and the RGB buffer holds
/// three bytes per pixel.
#[verifier::external_body]
fn decode_gif_first_frame(bytes: &Vec<u8>) -> (r: Result<(Vec<u8>, u32, u32), String>)
    ensures
        r matches Ok(t) ==> gif_frame_of(bytes@) == Some((t.0@, t.1, t.2)) && t.0@.len() == 3
            * t.1 * t.2,
        r is Err ==> gif_frame_of(bytes@) is None,
{
    let dec = match image::codecs::gif::GifDecoder::new(std::io::Cursor::new(bytes.as_slice())) {
        Ok(dec) => dec,
        Err(e) => return Err(e.to_string()),
    };
    match dec.into_frames().next() {
        Some(Ok(frame)) => {
            let rgb = image::DynamicImage::ImageRgba8(frame.into_buffer()).to_rgb8();
            let (w, h) = (rgb.width(), rgb.height());
            Ok((rgb.into_raw(), w, h))
        },
        Some(Err(e)) => Err(e.to_string()),
        None => Err("No first frame".to_string()),
    }
}

/// The first frame of a WebP animation, as interleaved RGB rows with its
/// width and height; `None` when decoding fails or no frame exists.
pub uninterp spec fn webp_frame_of(bytes: Seq<u8>) -> Option<(Seq<u8>, u32, u32)>;

/// Relies on `image`'s `WebPDecoder` and `into_frames`: the first
/// frame's pixels are a function of the bytes alone, and the RGB buffer
/// holds three bytes per pixel.
#[verifier::external_body]
fn decode_webp_first_frame(bytes: &Vec<u8>) -> (r: Result<(Vec<u8>, u32, u32), String>)
    ensures
        r matches Ok(t) ==> webp_frame_of(bytes@) == Some((t.0@, t.1, t.2)) && t.0@.len() == 3
            * t.1 * t.2,
        r is Err ==> webp_frame_of(bytes@) is None,
{
    let dec = match image::codecs::webp::WebPDecoder::new(std::io::Cursor::new(bytes.as_slice())) {
        Ok(dec) => dec,
        Err(e) => return Err(e.to_string()),
    };
    match dec.into_frames().next() {
        Some(Ok(frame)) => {
            let rgb = image::DynamicImage::ImageRgba8(frame.into_buffer()).to_rgb8();
            let (w, h) = (rgb.width(), rgb.height());
            Ok((rgb.into_raw(), w, h))
        },
        Some(Err(e)) => Err(e.to_string()),
        None => Err("No first frame".to_string()),
    }
}

/// The 64-bit perceptual digest of an interleaved RGB pixel buffer.
pub uninterp spec fn phash_of(pixels: Seq<u8>, width: u32, height: u32) -> u64;

/// Relies on `image_hasher`'s default gradient hasher (an 8-by-8,
/// 64-bit hash): the digest is a function of the pixel data alone.
#[verifier::external_body]
fn phash_rgb(pixels: &Vec<u8>, width: u32, height: u32) -> (r: u64)
    requires
        pixels@.len() == 3 * width * height,
        1 <= width,
        1 <= height,
    ensures
        r == phash_of(pixels@, width, height),
{
    let buf: image::ImageBuffer<image::Rgb<u8>, Vec<u8>> = image::ImageBuffer::from_raw(
        width,
        height,
        pixels.clone(),
    ).unwrap();
    let hasher = image_hasher::HasherConfig::with_bytes_type::<[u8; 8]>().to_hasher();
    u64::from_le_bytes(hasher.hash_image(&buf).into_inner())
}

/// The perceptual digest of a decoded frame, when its dimensions are
/// sound: at least one pixel each way and three bytes per pixel.
pub open spec fn frame_hash_of(d: Option<(Seq<u8>, u32, u32)>) -> Option<u64> {
    match d {
        Some(t) => if 1 <= t.1 && 1 <= t.2 && t.0.len() == 3 * t.1 * t.2 {
            Some(phash_of(t.0, t.1, t.2))
        } else {
            None
        },
        None => None,
    }
}

/// Hash one decoded frame, refusing degenerate dimensions.
pub fn hash_frame(px: &Vec<u8>, w: u32, h: u32) -> (r: Option<u64>)
    ensures
        r == frame_hash_of(Some((px@, w, h))),
{
    if w == 0 || h == 0 {
        return None;
    }
    proof {
        assert((w as u128) <= 0xffff_ffffu128 && (h as u128) <= 0xffff_ffffu128);
        assert(3u128 * (w as u128) * (h as u128) < 0xffff_ffff_ffff_ffff_ffff_ffff_ffff_ffffu128)
            by (nonlinear_arith)
            requires
                (w as u128) <= 0xffff_ffffu128 && (h as u128) <= 0xffff_ffffu128,
        ;
    }
    let need: u128 = 3u128 * (w as u128) * (h as u128);
    if (px.len() as u128) == need {
        Some(phash_rgb(px, w, h))
    } else {
        None
    }
}

/// The perceptual digest a file's bytes yield, according to its path's
/// extension: still images are decoded whole, animations contribute only
/// their first frame, videos and unrecognized files none. `None` also
/// records a failed decode.
pub open spec fn ihash_of(p: Seq<u8>, data: Seq<u8>) -> Option<u64> {
    match ext_class_of(ext_of(p)) {
        ExtClass::Image => frame_hash_of(image_rgb_of(data)),
        ExtClass::Anim => frame_hash_of(gif_frame_of(data)),
        ExtClass::Webp => if webp_probe(data) == Some(true) {
            frame_hash_of(webp_frame_of(data))
        } else {
            frame_hash_of(image_rgb_of(data))
        },
        ExtClass::Video => None,
        ExtClass::Other => None,
    }
}

/// The category a path and its bytes yield: from the extension alone,
/// except that a WebP file is probed for an animation; `None` when that
/// probe fails.
pub open spec fn category_of(p: Seq<u8>, data: Seq<u8>) -> Option<Category> {
    match ext_class_of(ext_of(p)) {
        ExtClass::Image => Some(Category::IMAGE),
        ExtClass::Anim => Some(Category::ANIMATION),
        ExtClass::Video => Some(Category::VIDEO),
        ExtClass::Other => Some(Category::UNKNOWN),
        ExtClass::Webp => match webp_probe(data) {
            Some(true) => Some(Category::ANIMATION),
            Some(false) => Some(Category::IMAGE),
            None => None,
        },
    }
}

/// Get the category of the file based on its extension; WebP files are
/// probed for an embedded animation to tell still images apart from
/// animations.
///
/// Errors exactly when a WebP file's header cannot be decoded.
pub fn get_category(path: &str, bytes: &Vec<u8>) -> (r: Result<Category, String>)
    ensures
        r matches Ok(c) ==> category_of(path.spec_bytes(), bytes@) == Some(c),
        r is Err <==> category_of(path.spec_bytes(), bytes@) is None,
{
    let ext = extension_bytes(path.as_bytes());
    match classify_extension(&ext) {
        ExtClass::Image => Ok(Category::IMAGE),
        ExtClass::Anim => Ok(Category::ANIMATION),
        ExtClass::Video => Ok(Category::VIDEO),
        ExtClass::Other => Ok(Category::UNKNOWN),
        ExtClass::Webp => match webp_has_animation(bytes) {
            Ok(true) => Ok(Category::ANIMATION),
            Ok(false) => Ok(Category::IMAGE),
            Err(e) => Err(e),
        },
    }
}

/// A path as displayed: without a leading `./`.
pub open spec fn display_of(p: Seq<char>) -> Seq<char> {
    if p.len() >= 2 && p[0] == '.' && p[1] == '/' {
        p.skip(2)
    } else {
        p
    }
}

/// A file under comparison: its path, category, exact content digest and
/// optional perceptual digest.
pub struct File {
    pub path: String,
    pub category: Category,
    pub md5: u128,
    pub ihash: Option<u64>,
}

impl File {
    /// Fingerprint a file's bytes without a perceptual digest.
    ///
    /// Errors exactly when the category probe does (a WebP header that
    /// does not parse).
    pub fn from_noihash(path: String, bytes: &Vec<u8>) -> (r: Result<File, String>)
        ensures
            r matches Ok(f) ==> f.path@ == path@ && f.md5 == md5_of(bytes@) && f.ihash is None
                && category_of(str_bytes(path@), bytes@) == Some(f.category),
            r is Err <==> category_of(str_bytes(path@), bytes@) is None,
    {
        let md5 = md5_digest(bytes);
        let category = match get_category(path.as_str(), bytes) {
            Ok(c) => c,
            Err(e) => return Err(e),
        };
        Ok(File { path, category, md5, ihash: None })
    }

    /// Fingerprint a file's bytes: content digest, category, and, for
    /// still images and animations, the perceptual digest. A failed
    /// pixel decode is not an error: the perceptual digest is simply
    /// absent. A video's perceptual digest comes from a decoded first
    /// frame supplied separately (see `video_ihash_from_frame`).
    ///
    /// Errors exactly when the category probe does.
    pub fn from(path: String, bytes: &Vec<u8>) -> (r: Result<File, String>)
        ensures
            r matches Ok(f) ==> f.path@ == path@ && f.md5 == md5_of(bytes@)
                && category_of(str_bytes(path@), bytes@) == Some(f.category)
                && f.ihash == ihash_of(str_bytes(path@), bytes@),
            r is Err <==> category_of(str_bytes(path@), bytes@) is None,
    {
        let mut file = match File::from_noihash(path, bytes) {
            Ok(f) => f,
            Err(e) => return Err(e),
        };
        let ext = extension_bytes(file.path.as_str().as_bytes());
        let h: Option<u64> = match classify_extension(&ext) {
            ExtClass::Image => match decode_image_rgb(bytes) {
                Ok((px, w, hh)) => hash_frame(&px, w, hh),
                Err(_) => None,
            },
            ExtClass::Anim => match decode_gif_first_frame(bytes) {
                Ok((px, w, hh)) => hash_frame(&px, w, hh),
                Err(_) => None,
            },
            ExtClass::Webp => {
                let animated = matches!(file.category, Category::ANIMATION);
                if animated {
                    match decode_webp_first_frame(bytes) {
                        Ok((px, w, hh)) => hash_frame(&px, w, hh),
                        Err(_) => None,
                    }
                } else {
                    match decode_image_rgb(bytes) {
                        Ok((px, w, hh)) => hash_frame(&px, w, hh),
                        Err(_) => None,
                    }
                }
            },
            ExtClass::Video => None,
            ExtClass::Other => None,
        };
        file.ihash = h;
        Ok(file)
    }

    /// The file's path for display, without a leading `./`.
    pub fn displayname(&self) -> (r: String)
        ensures
            r@ == display_of(self.path@),
    {
        let s = self.path.as_str();
        let n = s.unicode_len();
        if n >= 2 && s.get_char(0) == '.' && s.get_char(1) == '/' {
            let tail = s.substring_char(2, n);
            proof {
                assert(tail@ =~= self.path@.skip(2));
            }
            tail.to_owned()
        } else {
            self.path.clone()
        }
    }
}

/// The scaler's row padding: a frame row is padded to a multiple of 32
/// pixels.
pub open spec fn padded_width(w: u32) -> int {
    ((w + 31) / 32) * 32
}

/// A padded frame cropped back to its true width: pixel rows keep their
/// first `3 * w` bytes and drop the padding.
pub open spec fn cropped_frame(data: Seq<u8>, w: u32, h: u32) -> Seq<u8> {
    Seq::new(
        (3 * (w as int) * (h as int)) as nat,
        |i: int| data[(i / (3 * (w as int))) * (3 * padded_width(w)) + (i % (3 * (w as int)))],
    )
}

/// The perceptual digest of a video's first decoded frame, handed over
/// as interleaved RGB rows padded to a multiple of 32 pixels: the padded
/// buffer is cropped back to the true width, then hashed. `None` when
/// the dimensions are degenerate or do not match the buffer.
pub open spec fn video_ihash_of(data: Seq<u8>, w: u32, h: u32) -> Option<u64> {
    if 1 <= w && 1 <= h && data.len() == 3 * padded_width(w) * (h as int) {
        Some(phash_of(cropped_frame(data, w, h), w, h))
    } else {
        None
    }
}

/// Crop a decoded, row-padded video frame back to its true width and
/// compute its perceptual digest.
pub fn video_ihash_from_frame(data: &Vec<u8>, width: u32, height: u32) -> (r: Option<u64>)
    ensures
        r == video_ihash_of(data@, width, height),
{
    if width == 0 || height == 0 {
        return None;
    }
    let pw64: u64 = ((width as u64) + 31) / 32 * 32;
    assert(pw64 == padded_width(width));
    assert(width <= pw64);
    proof {
        assert((pw64 as u128) < 0x2_0000_0000u128);
        assert(3u128 * (pw64 as u128) * (height as u128) < 0xffff_ffff_ffff_ffff_ffff_ffff_ffff_ffffu128)
            by (nonlinear_arith)
            requires
                (pw64 as u128) < 0x2_0000_0000u128,
                (height as u128) <= 0xffff_ffffu128,
        ;
    }
    let need: u128 = 3u128 * (pw64 as u128) * (height as u128);
    let dl: usize = data.len();
    if (dl as u128) != need {
        proof {
            assert(data@.len() != 3 * padded_width(width) * (height as int)) by (nonlinear_arith)
                requires
                    (dl as u128) != 3u128 * (pw64 as u128) * (height as u128),
                    data@.len() == dl as int,
                    pw64 == padded_width(width),
            ;
        }
        return None;
    }
    proof {
        assert(data@.len() == 3 * (pw64 as int) * (height as int)) by (nonlinear_arith)
            requires
                (dl as u128) == 3u128 * (pw64 as u128) * (height as u128),
                data@.len() == dl as int,
        ;
        assert(3 * (pw64 as int) <= 3 * (pw64 as int) * (height as int)) by (nonlinear_arith)
            requires
                1 <= height,
                0 <= pw64,
        ;
        assert(3 * (pw64 as int) <= dl as int);
        assert(pw64 as int <= dl as int);
    }
    let row_in: usize = 3 * (pw64 as usize);
    let row_out: usize = 3 * (width as usize);
    let ghost total: int = 3 * (width as int) * (height as int);
    proof {
        assert((height as int) * (row_in as int) == data@.len()) by (nonlinear_arith)
            requires
                data@.len() == 3 * (pw64 as int) * (height as int),
                row_in == 3 * (pw64 as int),
        ;
        assert(total == (height as int) * (row_out as int)) by (nonlinear_arith)
            requires
                total == 3 * (width as int) * (height as int),
                row_out == 3 * (width as int),
        ;
    }
    let mut out: Vec<u8> = Vec::new();
    let mut y: usize = 0;
    while y < height as usize
        invariant
            y <= height,
            1 <= width,
            1 <= height,
            pw64 == padded_width(width),
            width <= pw64,
            row_in == 3 * (pw64 as int),
            row_out == 3 * (width as int),
            row_out <= row_in,
            data@.len() == (height as int) * (row_in as int),
            data@.len() <= usize::MAX,
            total == 3 * (width as int) * (height as int),
            total == (height as int) * (row_out as int),
            out@.len() == (y as int) * (row_out as int),
            forall|i: int| 0 <= i < out@.len() ==> out@[i] == cropped_frame(data@, width, height)[i],
        decreases height - y,
    {
        let mut x: usize = 0;
        proof {
            assert((y as int) * (row_in as int) + (row_in as int) <= data@.len())
                by (nonlinear_arith)
                requires
                    0 <= (y as int) < (height as int),
                    data@.len() == (height as int) * (row_in as int),
                    0 <= row_in,
            ;
            assert((y as int) * (row_out as int) + (row_out as int) <= total) by (nonlinear_arith)
                requires
                    0 <= (y as int) < (height as int),
                    total == (height as int) * (row_out as int),
                    0 <= row_out,
            ;
            assert((y as int) * (row_in as int) <= data@.len() - row_in);
        }
        let base: usize = y * row_in;
        while x < row_out
            invariant
                x <= row_out,
                y < height,
                1 <= width,
                1 <= height,
                pw64 == padded_width(width),
                width <= pw64,
                row_in == 3 * (pw64 as int),
                row_out == 3 * (width as int),
                row_out <= row_in,
                data@.len() == (height as int) * (row_in as int),
                data@.len() <= usize::MAX,
                total == 3 * (width as int) * (height as int),
                total == (height as int) * (row_out as int),
                base == (y as int) * (row_in as int),
                base + row_in <= data@.len(),
                (y as int) * (row_out as int) + (row_out as int) <= total,
                out@.len() == (y as int) * (row_out as int) + x,
                forall|i: int| 0 <= i < out@.len() ==> out@[i] == cropped_frame(
                    data@,
                    width,
                    height,
                )[i],
            decreases row_out - x,
        {
            let idx: usize = base + x;
            let b = data[idx];
            proof {
                let gi = out@.len() as int;
                assert(0 <= gi < total);
                assert(gi / (row_out as int) == y as int && gi % (row_out as int) == x as int)
                    by (nonlinear_arith)
                    requires
                        gi == (y as int) * (row_out as int) + (x as int),
                        0 <= (x as int) < (row_out as int),
                        0 <= y,
                ;
                assert(cropped_frame(data@, width, height).len() == total as nat);
                assert(cropped_frame(data@, width, height)[gi] == data@[(gi / (3 * (width as int)))
                    * (3 * padded_width(width)) + (gi % (3 * (width as int)))]);
                assert((gi / (3 * (width as int))) * (3 * padded_width(width)) + (gi % (3 * (
                width as int))) == idx as int);
            }
            out.push(b);
            x = x + 1;
        }
        proof {
            assert(((y + 1) as int) * (row_out as int) == (y as int) * (row_out as int) + (
            row_out as int)) by (nonlinear_arith);
        }
        y = y + 1;
    }
    proof {
        assert(out@.len() == (height as int) * (row_out as int));
        assert(out@.len() == total);
        assert(out@ =~= cropped_frame(data@, width, height));
    }
    let r = hash_frame(&out, width, height);
    r
}

} // verus!
