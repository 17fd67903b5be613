use duplicate_finder::digest::hamming;
use duplicate_finder::files::{
    classify_extension, get_category, hash_frame, video_ihash_from_frame, Category, ExtClass,
    File,
};
use duplicate_finder::paths::extension_bytes;

fn png_bytes(img: image::RgbImage) -> Vec<u8> {
    let mut out: Vec<u8> = Vec::new();
    image::DynamicImage::ImageRgb8(img)
        .write_to(&mut std::io::Cursor::new(&mut out), image::ImageFormat::Png)
        .unwrap();
    out
}

fn webp_bytes(img: image::RgbImage) -> Vec<u8> {
    let mut out: Vec<u8> = Vec::new();
    image::DynamicImage::ImageRgb8(img)
        .write_to(&mut std::io::Cursor::new(&mut out), image::ImageFormat::WebP)
        .unwrap();
    out
}

fn flat(w: u32, h: u32, v: u8) -> image::RgbImage {
    image::RgbImage::from_fn(w, h, |_, _| image::Rgb([v, v, v]))
}

fn halves(w: u32, h: u32) -> image::RgbImage {
    image::RgbImage::from_fn(w, h, |x, _| {
        if x < w / 2 {
            image::Rgb([0, 0, 0])
        } else {
            image::Rgb([255, 255, 255])
        }
    })
}

/// Wrap the image-data chunk of a still WebP into an animated WebP with
/// that image as its single frame.
fn animated_webp(still: &[u8], w: u32, h: u32) -> Vec<u8> {
    // the still encoding is RIFF(4) size(4) WEBP(4) then the VP8L chunk
    assert_eq!(&still[12..16], b"VP8L");
    let chunk_size = u32::from_le_bytes([still[16], still[17], still[18], still[19]]) as usize;
    let padded = chunk_size + (chunk_size & 1);
    let vp8l = &still[12..12 + 8 + padded];

    let le3 = |v: u32| [(v & 0xff) as u8, ((v >> 8) & 0xff) as u8, ((v >> 16) & 0xff) as u8];
    let mut payload: Vec<u8> = Vec::new();
    payload.extend_from_slice(b"WEBP");
    // VP8X: animation flag set, canvas dimensions
    payload.extend_from_slice(b"VP8X");
    payload.extend_from_slice(&10u32.to_le_bytes());
    payload.push(0b00000010);
    payload.extend_from_slice(&[0, 0, 0]);
    payload.extend_from_slice(&le3(w - 1));
    payload.extend_from_slice(&le3(h - 1));
    // ANIM: background color and loop count
    payload.extend_from_slice(b"ANIM");
    payload.extend_from_slice(&6u32.to_le_bytes());
    payload.extend_from_slice(&[0, 0, 0, 0, 0, 0]);
    // ANMF: one frame at the origin holding the still's image data
    payload.extend_from_slice(b"ANMF");
    payload.extend_from_slice(&((16 + vp8l.len()) as u32).to_le_bytes());
    payload.extend_from_slice(&le3(0));
    payload.extend_from_slice(&le3(0));
    payload.extend_from_slice(&le3(w - 1));
    payload.extend_from_slice(&le3(h - 1));
    payload.extend_from_slice(&le3(100));
    payload.push(0);
    payload.extend_from_slice(vp8l);

    let mut out: Vec<u8> = Vec::new();
    out.extend_from_slice(b"RIFF");
    out.extend_from_slice(&(payload.len() as u32).to_le_bytes());
    out.extend_from_slice(&payload);
    out
}

#[test]
fn extensions_classify_case_sensitively() {
    assert_eq!(classify_extension(&b"jpg".to_vec()), ExtClass::Image);
    assert_eq!(classify_extension(&b"png".to_vec()), ExtClass::Image);
    assert_eq!(classify_extension(&b"gif".to_vec()), ExtClass::Anim);
    assert_eq!(classify_extension(&b"mp4".to_vec()), ExtClass::Video);
    assert_eq!(classify_extension(&b"webm".to_vec()), ExtClass::Video);
    assert_eq!(classify_extension(&b"webp".to_vec()), ExtClass::Webp);
    assert_eq!(classify_extension(&b"JPG".to_vec()), ExtClass::Other);
    assert_eq!(classify_extension(&b"txt".to_vec()), ExtClass::Other);
    assert_eq!(classify_extension(&b"".to_vec()), ExtClass::Other);
}

#[test]
fn extension_comes_after_the_last_dot_of_the_name() {
    assert_eq!(extension_bytes(b"a.jpg"), b"jpg".to_vec());
    assert_eq!(extension_bytes(b"./dir/a.tar.gz"), b"gz".to_vec());
    assert_eq!(extension_bytes(b"noext"), b"".to_vec());
    assert_eq!(extension_bytes(b".hidden"), b"".to_vec());
    assert_eq!(extension_bytes(b"dir.d/noext"), b"".to_vec());
    assert_eq!(extension_bytes(b"a."), b"".to_vec());
}

#[test]
fn categories_follow_extensions() {
    let empty = Vec::new();
    assert_eq!(get_category("a.jpg", &empty).unwrap(), Category::IMAGE);
    assert_eq!(get_category("a.png", &empty).unwrap(), Category::IMAGE);
    assert_eq!(get_category("a.gif", &empty).unwrap(), Category::ANIMATION);
    assert_eq!(get_category("a.mp4", &empty).unwrap(), Category::VIDEO);
    assert_eq!(get_category("a.webm", &empty).unwrap(), Category::VIDEO);
    assert_eq!(get_category("a.txt", &empty).unwrap(), Category::UNKNOWN);
    assert_eq!(get_category("a", &empty).unwrap(), Category::UNKNOWN);
}

#[test]
fn still_webp_is_an_image() {
    let bytes = webp_bytes(halves(32, 32));
    assert_eq!(get_category("a.webp", &bytes).unwrap(), Category::IMAGE);
}

#[test]
fn undecodable_webp_is_a_hard_error() {
    let bytes = b"not a webp at all".to_vec();
    assert!(get_category("a.webp", &bytes).is_err());
    assert!(File::from_noihash("a.webp".to_string(), &bytes).is_err());
}

#[test]
fn animated_webp_is_an_animation_hashed_from_its_first_frame() {
    let still = webp_bytes(halves(32, 32));
    let anim = animated_webp(&still, 32, 32);
    assert_eq!(get_category("a.webp", &anim).unwrap(), Category::ANIMATION);

    let f = File::from("a.webp".to_string(), &anim).unwrap();
    assert_eq!(f.category, Category::ANIMATION);
    let frame_hash = f.ihash.expect("the first frame must be hashed");

    // the animation's first frame holds the same pixels as the still
    // image, so the perceptual digests coincide
    let still_file = File::from("b.webp".to_string(), &still).unwrap();
    assert_eq!(still_file.category, Category::IMAGE);
    assert_eq!(Some(frame_hash), still_file.ihash);
}

#[test]
fn image_fingerprint_has_both_digests() {
    let bytes = png_bytes(halves(32, 32));
    let f = File::from("./pics/img.png".to_string(), &bytes).unwrap();
    assert_eq!(f.category, Category::IMAGE);
    assert!(f.ihash.is_some());
    let again = File::from("./pics/img.png".to_string(), &bytes).unwrap();
    assert_eq!(f.md5, again.md5);
    assert_eq!(f.ihash, again.ihash);
}

#[test]
fn perceptual_digest_depends_on_pixels() {
    let a = File::from("a.png".to_string(), &png_bytes(halves(32, 32))).unwrap();
    let b = File::from("b.png".to_string(), &png_bytes(flat(32, 32, 128))).unwrap();
    let (ha, hb) = (a.ihash.unwrap(), b.ihash.unwrap());
    assert_ne!(ha, hb);
    assert!(hamming(ha, hb) > 0);
}

#[test]
fn same_pixels_in_different_bytes_share_a_perceptual_digest() {
    // a flat white PNG and a flat black PNG differ in content digest but
    // their gradient fingerprints coincide (no gradients either way)
    let w = File::from("w.png".to_string(), &png_bytes(flat(32, 32, 255))).unwrap();
    let b = File::from("b.png".to_string(), &png_bytes(flat(32, 32, 0))).unwrap();
    assert_ne!(w.md5, b.md5);
    assert_eq!(hamming(w.ihash.unwrap(), b.ihash.unwrap()), 0);
}

#[test]
fn corrupt_image_data_degrades_to_no_perceptual_digest() {
    let bytes = b"definitely not a png".to_vec();
    let f = File::from("bad.png".to_string(), &bytes).unwrap();
    assert_eq!(f.category, Category::IMAGE);
    assert!(f.ihash.is_none());
}

#[test]
fn gif_fingerprint_uses_the_first_frame() {
    let first = image::DynamicImage::ImageRgb8(halves(16, 16)).to_rgba8();
    let second = image::DynamicImage::ImageRgb8(flat(16, 16, 10)).to_rgba8();
    let mut bytes: Vec<u8> = Vec::new();
    {
        let mut enc = image::codecs::gif::GifEncoder::new(&mut bytes);
        enc.encode_frame(image::Frame::new(first)).unwrap();
        enc.encode_frame(image::Frame::new(second)).unwrap();
    }
    let f = File::from("anim.gif".to_string(), &bytes).unwrap();
    assert_eq!(f.category, Category::ANIMATION);
    assert!(f.ihash.is_some());
}

#[test]
fn displayname_strips_the_leading_dot_slash() {
    let f = File {
        path: "./x/y.png".to_string(),
        category: Category::IMAGE,
        md5: 0,
        ihash: None,
    };
    assert_eq!(f.displayname(), "x/y.png");
    let g = File {
        path: "plain.png".to_string(),
        category: Category::IMAGE,
        md5: 0,
        ihash: None,
    };
    assert_eq!(g.displayname(), "plain.png");
}

#[test]
fn video_frame_rows_are_cropped_back_to_true_width() {
    // a 40-pixel-wide frame is padded to 64 pixels per row by the scaler
    let w: u32 = 40;
    let h: u32 = 2;
    let pw: usize = 64;
    let mut padded: Vec<u8> = vec![0; 3 * pw * (h as usize)];
    let mut cropped: Vec<u8> = vec![0; 3 * (w as usize) * (h as usize)];
    for y in 0..(h as usize) {
        for x in 0..(3 * w as usize) {
            let v = ((x * 7 + y * 13) % 251) as u8;
            padded[y * 3 * pw + x] = v;
            cropped[y * 3 * (w as usize) + x] = v;
        }
    }
    let direct = hash_frame(&cropped, w, h);
    assert!(direct.is_some());
    assert_eq!(video_ihash_from_frame(&padded, w, h), direct);
}

#[test]
fn video_frame_with_wrong_buffer_size_yields_nothing() {
    let data: Vec<u8> = vec![0; 10];
    assert_eq!(video_ihash_from_frame(&data, 40, 2), None);
    assert_eq!(video_ihash_from_frame(&data, 0, 2), None);
}
