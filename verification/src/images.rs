//! Icons and previews as the UI shows them: fetched pictures are refused
//! past a size cap, icons become 32px PNG squares and previews JPEGs at
//! most 720px wide. Decoding, scaling and encoding are the `image` crate's
//! (and `image-blp`'s for the game's own BLP textures).
use vstd::prelude::*;
use crate::text::{chars_of, ends_with, lower, lower_exec, ends_with_exec};

verus! {

/// Side of an icon, in pixels.
pub const ICON_SIZE: u32 = 32;

/// Widest preview kept, in pixels.
pub const PREVIEW_WIDTH: u32 = 720;

/// Tallest preview kept when scaling down, in pixels.
pub const PREVIEW_MAX_HEIGHT: u32 = 2880;

/// JPEG quality of previews.
pub const PREVIEW_QUALITY: u8 = 82;

/// Largest fetched icon accepted, in bytes (2 MiB).
pub const ICON_MAX_BYTES: usize = 2097152;

/// Largest fetched preview accepted, in bytes (8 MiB).
pub const PREVIEW_MAX_BYTES: usize = 8388608;

/// A decoded picture: its width and height in pixels and its RGBA pixels,
/// four bytes per pixel, row by row.
pub struct Picture {
    width: u32,
    height: u32,
    pixels: Vec<u8>,
}

impl View for Picture {
    type V = (u32, u32, Seq<u8>);

    /// Width, height and pixels.
    closed spec fn view(&self) -> (u32, u32, Seq<u8>) {
        (self.width, self.height, self.pixels@)
    }
}

/// Pixels that fill a `w` x `h` RGBA picture exactly.
pub open spec fn whole(p: (u32, u32, Seq<u8>)) -> bool {
    p.2.len() == p.0 * p.1 * 4
}

impl Picture {
    #[verifier::type_invariant]
    closed spec fn wf(&self) -> bool {
        whole(self@)
    }

    /// Width in pixels.
    pub fn width(&self) -> (r: u32)
        ensures
            r == self@.0,
    {
        self.width
    }

    /// Height in pixels.
    pub fn height(&self) -> (r: u32)
        ensures
            r == self@.1,
    {
        self.height
    }
}

// ------------------------------------------------------------------ decoding

/// The picture `image::load_from_memory` reads from these bytes (format
/// recognised from the content), as RGBA; `None` when it cannot read them.
pub uninterp spec fn decoded(bytes: Seq<u8>) -> Option<(u32, u32, Seq<u8>)>;

/// The picture formats of this crate's `image` build, as a file extension
/// names them.
#[derive(Clone, Copy, Debug, PartialEq, Eq, Structural)]
pub enum TextureFormat {
    Png,
    Jpeg,
    Tga,
}

/// The picture `image::load_from_memory_with_format` reads as the given
/// format, as RGBA; `None` when it cannot read them.
pub uninterp spec fn decoded_as(bytes: Seq<u8>, format: TextureFormat) -> Option<(u32, u32, Seq<u8>)>;

/// The first mipmap of the BLP texture `image_blp` reads from these bytes,
/// as RGBA; `None` when it cannot read them.
pub uninterp spec fn blp_decoded(bytes: Seq<u8>) -> Option<(u32, u32, Seq<u8>)>;

/// `image::load_from_memory`, then `into_rgba8`: the picture the bytes
/// hold, in a format the crate recognises from the content.
#[verifier::external_body]
fn load_from_memory(bytes: &[u8]) -> (r: Option<Picture>)
    ensures
        match r {
            Some(p) => decoded(bytes@) == Some(p@),
            None => decoded(bytes@) is None,
        },
{
    match image::load_from_memory(bytes) {
        Ok(img) => {
            let rgba = img.into_rgba8();
            Some(Picture { width: rgba.width(), height: rgba.height(), pixels: rgba.into_raw() })
        },
        Err(_) => None,
    }
}

/// `image::load_from_memory_with_format` in the given format, then
/// `into_rgba8`.
#[verifier::external_body]
fn load_as(bytes: &[u8], format: TextureFormat) -> (r: Option<Picture>)
    ensures
        match r {
            Some(p) => decoded_as(bytes@, format) == Some(p@),
            None => decoded_as(bytes@, format) is None,
        },
{
    let f = match format {
        TextureFormat::Png => image::ImageFormat::Png,
        TextureFormat::Jpeg => image::ImageFormat::Jpeg,
        TextureFormat::Tga => image::ImageFormat::Tga,
    };
    match image::load_from_memory_with_format(bytes, f) {
        Ok(img) => {
            let rgba = img.into_rgba8();
            Some(Picture { width: rgba.width(), height: rgba.height(), pixels: rgba.into_raw() })
        },
        Err(_) => None,
    }
}

/// The four bytes at `i` as a little-endian number.
pub open spec fn le32(b: Seq<u8>, i: int) -> int {
    b[i] as int + b[i + 1] as int * 256 + b[i + 2] as int * 65536 + b[i + 3] as int * 16777216
}

/// Where the `k`th mipmap of a BLP file ends: its offset plus its size.
pub open spec fn mip_end(b: Seq<u8>, k: int) -> int {
    le32(b, 20 + 4 * k) + le32(b, 84 + 4 * k)
}

/// The DXT data of the first mipmap covers the picture: the decoder reads
/// ceil(w*h/16) blocks, which must be present and at least the
/// ceil(w/4) * ceil(h/4) blocks the decompressor walks (8 bytes a block
/// without alpha, 16 with).
pub open spec fn dxt_complete(b: Seq<u8>) -> bool {
    let w = le32(b, 12);
    let h = le32(b, 16);
    let blocks = (w * h + 15) / 16;
    let block_size = if b[10] == 0 { 8int } else { 16int };
    blocks >= ((w + 3) / 4) * ((h + 3) / 4) && le32(b, 84) >= blocks * block_size
}

/// BLP bytes `image_blp` decodes without failing on its own arithmetic or
/// slicing: a `BLP2` file with directly stored pixels (palette, DXT or raw
/// RGBA), at most 4096px a side, no mipmap whose offset plus size overflows
/// 32 bits, and for DXT the first mipmap's blocks complete. Any other
/// bytes are not handed to it.
pub open spec fn blp_safe(b: Seq<u8>) -> bool {
    &&& b.len() >= 148
    &&& b[0] == 66u8 && b[1] == 76u8 && b[2] == 80u8 && b[3] == 50u8
    &&& le32(b, 4) == 1
    &&& (b[8] == 1u8 || b[8] == 2u8 || b[8] == 3u8)
    &&& 1 <= le32(b, 12) <= 4096 && 1 <= le32(b, 16) <= 4096
    &&& forall|k: int| 0 <= k < 16 ==> #[trigger] mip_end(b, k) <= 0xFFFF_FFFF
    &&& (b[8] == 2u8 ==> dxt_complete(b))
}

fn le32_exec(b: &[u8], i: usize) -> (r: u64)
    requires
        i + 4 <= b@.len(),
    ensures
        r == le32(b@, i as int),
        r <= 0xFFFF_FFFF,
{
    b[i] as u64 + b[i + 1] as u64 * 256 + b[i + 2] as u64 * 65536 + b[i + 3] as u64 * 16777216
}

/// Does `image_blp` decode these bytes safely (see [`blp_safe`])?
pub fn blp_safe_exec(b: &[u8]) -> (r: bool)
    ensures
        r == blp_safe(b@),
{
    if b.len() < 148 {
        return false;
    }
    if !(b[0] == 66u8 && b[1] == 76u8 && b[2] == 80u8 && b[3] == 50u8) || le32_exec(b, 4) != 1 {
        return false;
    }
    if !(b[8] == 1u8 || b[8] == 2u8 || b[8] == 3u8) {
        return false;
    }
    let w = le32_exec(b, 12);
    let h = le32_exec(b, 16);
    if !(1 <= w && w <= 4096 && 1 <= h && h <= 4096) {
        return false;
    }
    let mut k: usize = 0;
    while k < 16
        invariant
            k <= 16,
            b@.len() >= 148,
            forall|j: int| 0 <= j < k ==> #[trigger] mip_end(b@, j) <= 0xFFFF_FFFF,
        decreases 16 - k,
    {
        if le32_exec(b, 20 + 4 * k) + le32_exec(b, 84 + 4 * k) > 0xFFFF_FFFF {
            assert(mip_end(b@, k as int) > 0xFFFF_FFFF);
            return false;
        }
        k = k + 1;
    }
    if b[8] == 2u8 {
        assert(w * h <= 4096 * 4096) by (nonlinear_arith)
            requires
                1 <= w <= 4096,
                1 <= h <= 4096,
        ;
        assert(((w + 3) / 4) * ((h + 3) / 4) <= 1025 * 1025) by (nonlinear_arith)
            requires
                1 <= w <= 4096,
                1 <= h <= 4096,
        ;
        let blocks = (w * h + 15) / 16;
        let block_size: u64 = if b[10] == 0 { 8 } else { 16 };
        blocks >= ((w + 3) / 4) * ((h + 3) / 4) && le32_exec(b, 84) >= blocks * block_size
    } else {
        true
    }
}

/// `image_blp::parser::load_blp_from_buf`, then `convert::blp_to_image` of
/// mipmap 0 and its RGBA pixels handed over to this crate's `image`
/// version. Only bytes that [`blp_safe`] admits are handed to it.
#[verifier::external_body]
fn load_blp(bytes: &[u8]) -> (r: Option<Picture>)
    requires
        blp_safe(bytes@),
    ensures
        match r {
            Some(p) => blp_decoded(bytes@) == Some(p@),
            None => blp_decoded(bytes@) is None,
        },
{
    let blp = image_blp::parser::load_blp_from_buf(bytes).ok()?;
    let rgba = image_blp::convert::blp_to_image(&blp, 0).ok()?.to_rgba8();
    Some(Picture { width: rgba.width(), height: rgba.height(), pixels: rgba.into_raw() })
}

// ------------------------------------------------------------------ scaling

/// The picture `DynamicImage::resize` (triangle filter) makes of `p` to fit
/// within `w` x `h`.
pub uninterp spec fn fitted(p: (u32, u32, Seq<u8>), w: u32, h: u32) -> (u32, u32, Seq<u8>);

/// The picture `DynamicImage::resize_to_fill` (Lanczos filter) makes of `p`
/// to cover `size` x `size`.
pub uninterp spec fn filled(p: (u32, u32, Seq<u8>), size: u32) -> (u32, u32, Seq<u8>);

/// `x` is `num / den` rounded: within one of it, and at least 1.
pub open spec fn near(x: int, num: int, den: int) -> bool {
    1 <= x && (x - 1) * den <= num && num <= (x + 1) * den
}

/// The size of a `d`-sized picture scaled, keeping its proportions, to the
/// largest size within `w` x `h`: the side whose bound binds takes it, the
/// other is scaled by the same ratio and rounded.
pub open spec fn fit_size(d: (u32, u32), w: u32, h: u32, r: (u32, u32)) -> bool {
    if w * d.1 <= h * d.0 {
        r.0 == w && near(r.1 as int, d.1 * w, d.0 as int)
    } else {
        r.1 == h && near(r.0 as int, d.0 * h, d.1 as int)
    }
}

/// `DynamicImage::resize` (triangle filter) of the RGBA picture: scaled,
/// keeping its proportions, to the largest size that fits within `w` x
/// `h` (`resize_dimensions` with the smaller of the two ratios; the binding
/// side comes out exact, the other rounded).
#[verifier::external_body]
fn resize_within(p: Picture, w: u32, h: u32) -> (r: Option<Picture>)
    requires
        p@.0 >= 1,
        p@.1 >= 1,
        whole(p@),
        w >= 1,
        h >= 1,
    ensures
        r is Some,
        r matches Some(q) ==> q@ == fitted(p@, w, h) && fit_size((p@.0, p@.1), w, h, (q@.0, q@.1)),
{
    let img = image::RgbaImage::from_raw(p.width, p.height, p.pixels)?;
    let out = image::DynamicImage::ImageRgba8(img).resize(w, h, image::imageops::FilterType::Triangle).into_rgba8();
    Some(Picture { width: out.width(), height: out.height(), pixels: out.into_raw() })
}

/// `DynamicImage::resize_to_fill` (Lanczos filter) of the RGBA picture:
/// scaled to cover `size` x `size`, then cropped to exactly that.
#[verifier::external_body]
fn resize_to_fill(p: &Picture, size: u32) -> (r: Option<Picture>)
    requires
        p@.0 >= 1,
        p@.1 >= 1,
        whole(p@),
        size >= 1,
    ensures
        r is Some,
        r matches Some(q) ==> q@ == filled(p@, size) && q@.0 == size && q@.1 == size,
{
    let img = image::RgbaImage::from_raw(p.width, p.height, p.pixels.clone())?;
    let out = image::DynamicImage::ImageRgba8(img).resize_to_fill(size, size, image::imageops::FilterType::Lanczos3).into_rgba8();
    Some(Picture { width: out.width(), height: out.height(), pixels: out.into_raw() })
}

// ------------------------------------------------------------------ encoding

/// The big-endian number in the two bytes at `i`.
pub open spec fn be16(b: Seq<u8>, i: int) -> int {
    b[i] as int * 256 + b[i + 1] as int
}

/// The big-endian number in the four bytes at `i`.
pub open spec fn be32(b: Seq<u8>, i: int) -> int {
    b[i] as int * 16777216 + b[i + 1] as int * 65536 + b[i + 2] as int * 256 + b[i + 3] as int
}

/// The eight bytes every PNG file starts with.
pub open spec fn png_signature() -> Seq<u8> {
    seq![137u8, 80u8, 78u8, 71u8, 13u8, 10u8, 26u8, 10u8]
}

/// Bytes that start as a PNG file: the signature, then the `IHDR` chunk
/// (its length, its name, then width and height).
pub open spec fn is_png_file(b: Seq<u8>) -> bool {
    b.len() >= 24 && b.take(8) == png_signature()
        && b[12] == 73u8 && b[13] == 72u8 && b[14] == 68u8 && b[15] == 82u8
}

/// Width a PNG file's header gives.
pub open spec fn png_width(b: Seq<u8>) -> int {
    be32(b, 16)
}

/// Height a PNG file's header gives.
pub open spec fn png_height(b: Seq<u8>) -> int {
    be32(b, 20)
}

/// Bytes that form a JPEG file as the encoder lays it out: the
/// start-of-image marker `FF D8` first, the 14-byte JFIF segment, the
/// baseline frame header `FF C0` at byte 20, and the end-of-image marker
/// `FF D9` last.
pub open spec fn is_jpeg_file(b: Seq<u8>) -> bool {
    b.len() >= 31 && b[0] == 0xFFu8 && b[1] == 0xD8u8 && b[20] == 0xFFu8 && b[21] == 0xC0u8
        && b[b.len() - 2] == 0xFFu8 && b[b.len() - 1] == 0xD9u8
}

/// Width the JPEG frame header gives.
pub open spec fn jpeg_width(b: Seq<u8>) -> int {
    be16(b, 27)
}

/// Height the JPEG frame header gives.
pub open spec fn jpeg_height(b: Seq<u8>) -> int {
    be16(b, 25)
}

/// The PNG file `ImageBuffer::write_to` makes of an RGBA picture.
pub uninterp spec fn png_encoding(p: (u32, u32, Seq<u8>)) -> Seq<u8>;

/// The JPEG file `JpegEncoder::encode_image` makes of the RGB pixels of a
/// picture at the given quality.
pub uninterp spec fn jpeg_encoding(p: (u32, u32, Seq<u8>), quality: u8) -> Seq<u8>;

/// `ImageBuffer::write_to` with `ImageFormat::Png` on the RGBA pixels,
/// into an empty buffer: the PNG encoder writes the signature, then the
/// `IHDR` chunk with the picture's width and height. Writing into memory
/// fails only on a picture with a zero side.
#[verifier::external_body]
fn png_bytes(p: &Picture) -> (r: Option<Vec<u8>>)
    requires
        whole(p@),
    ensures
        r matches Some(b) ==> b@ == png_encoding(p@)
            && is_png_file(b@) && png_width(b@) == p@.0 && png_height(b@) == p@.1,
        p@.0 >= 1 && p@.1 >= 1 ==> r is Some,
{
    let img = image::RgbaImage::from_raw(p.width, p.height, p.pixels.clone())?;
    let mut out = Vec::new();
    img.write_to(&mut std::io::Cursor::new(&mut out), image::ImageFormat::Png).ok().map(|_| out)
}

/// `JpegEncoder::encode_image` on the RGB pixels at the given quality, into
/// an empty buffer: the start-of-image marker, the JFIF segment, the frame
/// header with height and width, ..., the end-of-image marker. Writing into
/// memory fails only when a side is 0 or over 65535.
#[verifier::external_body]
fn jpeg_bytes(p: &Picture, quality: u8) -> (r: Option<Vec<u8>>)
    requires
        whole(p@),
    ensures
        r matches Some(b) ==> b@ == jpeg_encoding(p@, quality)
            && is_jpeg_file(b@) && jpeg_width(b@) == p@.0 && jpeg_height(b@) == p@.1,
        1 <= p@.0 <= 65535 && 1 <= p@.1 <= 65535 ==> r is Some,
{
    let img = image::RgbaImage::from_raw(p.width, p.height, p.pixels.clone())?;
    let rgb = image::DynamicImage::ImageRgba8(img).to_rgb8();
    let mut out = Vec::new();
    image::codecs::jpeg::JpegEncoder::new_with_quality(&mut out, quality).encode_image(&rgb).ok().map(|_| out)
}

// ------------------------------------------------------------------ icons

/// A PNG file of a 32px square icon.
pub open spec fn is_icon_png(b: Seq<u8>) -> bool {
    is_png_file(b) && png_width(b) == ICON_SIZE && png_height(b) == ICON_SIZE
}

/// The icon of a picture: scaled to cover a 32px square, cropped to it,
/// and encoded as PNG.
pub open spec fn icon_of_picture(p: (u32, u32, Seq<u8>)) -> Seq<u8> {
    png_encoding(filled(p, ICON_SIZE))
}

/// The icon of a decoded picture: none when nothing was decoded or a side
/// is zero.
pub open spec fn icon_of_decoded(d: Option<(u32, u32, Seq<u8>)>) -> Option<Seq<u8>> {
    match d {
        Some(p) => if p.0 >= 1 && p.1 >= 1 { Some(icon_of_picture(p)) } else { None },
        None => None,
    }
}

pub open spec fn bytes_view(r: Option<Vec<u8>>) -> Option<Seq<u8>> {
    match r {
        Some(b) => Some(b@),
        None => None,
    }
}

/// A picture as a 32px PNG square (scaled to cover it, then cropped).
pub fn icon_png(p: &Picture) -> (r: Option<Vec<u8>>)
    requires
        p@.0 >= 1,
        p@.1 >= 1,
    ensures
        bytes_view(r) == Some(icon_of_picture(p@)),
        r matches Some(b) && is_icon_png(b@),
{
    proof { use_type_invariant(p); }
    let small = match resize_to_fill(p, ICON_SIZE) {
        Some(q) => q,
        None => return None,
    };
    proof { use_type_invariant(&small); }
    png_bytes(&small)
}

fn icon_of(p: Option<Picture>) -> (r: Option<Vec<u8>>)
    ensures
        bytes_view(r) == icon_of_decoded(match p { Some(q) => Some(q@), None => None }),
        r matches Some(b) ==> is_icon_png(b@),
{
    match p {
        Some(q) => {
            if q.width() == 0 || q.height() == 0 {
                None
            } else {
                icon_png(&q)
            }
        },
        None => None,
    }
}

/// A fetched icon as a 32px PNG square; nothing past 2 MiB is decoded.
pub fn icon_png_from_bytes(bytes: &[u8]) -> (r: Option<Vec<u8>>)
    ensures
        bytes_view(r) == (if bytes@.len() > ICON_MAX_BYTES { None } else { icon_of_decoded(decoded(bytes@)) }),
        r matches Some(b) ==> is_icon_png(b@),
{
    if bytes.len() > ICON_MAX_BYTES {
        return None;
    }
    icon_of(load_from_memory(bytes))
}

/// Does the file name have extension `ext` (given with its dot, lower
/// case), in any case? As `Path::extension` reads it, the name must hold
/// more than the extension.
pub open spec fn has_ext(file_name: Seq<char>, ext: Seq<char>) -> bool {
    file_name.len() > ext.len() && ends_with(lower(file_name), ext)
}

fn has_ext_exec(l: &Vec<char>, ext: &str) -> (r: bool)
    ensures
        r == (l@.len() > ext@.len() && ends_with(l@, ext@)),
{
    let e = chars_of(ext);
    l.len() > e.len() && ends_with_exec(l, &e)
}

/// The format `image` takes a file for by its extension, among those this
/// build decodes (`png`/`apng`, `jpg`/`jpeg`/`jfif`, `tga`).
pub open spec fn format_of_name(file_name: Seq<char>) -> Option<TextureFormat> {
    if has_ext(file_name, ".png"@) || has_ext(file_name, ".apng"@) {
        Some(TextureFormat::Png)
    } else if has_ext(file_name, ".jpg"@) || has_ext(file_name, ".jpeg"@) || has_ext(file_name, ".jfif"@) {
        Some(TextureFormat::Jpeg)
    } else if has_ext(file_name, ".tga"@) {
        Some(TextureFormat::Tga)
    } else {
        None
    }
}

/// How a texture file is decoded, by its extension: BLP (only bytes that
/// [`blp_safe`] admits), or the `image` format the extension names; a
/// file with any other extension is not decoded.
pub open spec fn texture_decoded(file_name: Seq<char>, bytes: Seq<u8>) -> Option<(u32, u32, Seq<u8>)> {
    if has_ext(file_name, ".blp"@) {
        if blp_safe(bytes) { blp_decoded(bytes) } else { None }
    } else {
        match format_of_name(file_name) {
            Some(f) => decoded_as(bytes, f),
            None => None,
        }
    }
}

/// An icon texture from the addon's own files (BLP, TGA, PNG or JPEG, told
/// apart by the file's extension) as a 32px PNG square.
pub fn icon_png_from_file(file_name: &str, bytes: &[u8]) -> (r: Option<Vec<u8>>)
    ensures
        bytes_view(r) == icon_of_decoded(texture_decoded(file_name@, bytes@)),
        r matches Some(b) ==> is_icon_png(b@),
{
    let l = lower_exec(&chars_of(file_name));
    proof {
        assert(l@.len() == file_name@.len());
    }
    let format = if has_ext_exec(&l, ".png") || has_ext_exec(&l, ".apng") {
        Some(TextureFormat::Png)
    } else if has_ext_exec(&l, ".jpg") || has_ext_exec(&l, ".jpeg") || has_ext_exec(&l, ".jfif") {
        Some(TextureFormat::Jpeg)
    } else if has_ext_exec(&l, ".tga") {
        Some(TextureFormat::Tga)
    } else {
        None
    };
    let p = if has_ext_exec(&l, ".blp") {
        if blp_safe_exec(bytes) { load_blp(bytes) } else { None }
    } else {
        match format {
            Some(f) => load_as(bytes, f),
            None => None,
        }
    };
    icon_of(p)
}

// ------------------------------------------------------------------ previews

/// The preview of a picture: kept as it is up to 720px wide (none when it
/// is over 65535px tall, the JPEG limit), else scaled to fit 720 x 2880;
/// then encoded as JPEG at quality 82.
pub open spec fn preview_of_decoded(d: Option<(u32, u32, Seq<u8>)>) -> Option<Seq<u8>> {
    match d {
        Some(p) => if p.0 == 0 || p.1 == 0 {
            None
        } else if p.0 > PREVIEW_WIDTH {
            Some(jpeg_encoding(fitted(p, PREVIEW_WIDTH, PREVIEW_MAX_HEIGHT), PREVIEW_QUALITY))
        } else if p.1 > 65535 {
            None
        } else {
            Some(jpeg_encoding(p, PREVIEW_QUALITY))
        },
        None => None,
    }
}

/// The size a preview of a `d`-sized picture has: unchanged up to 720px
/// wide; a wider one scaled, keeping its proportions, to fit 720 x 2880.
pub open spec fn preview_size_ok(d: (u32, u32), w: int, h: int) -> bool {
    if d.0 <= PREVIEW_WIDTH {
        w == d.0 && h == d.1
    } else {
        0 <= w <= u32::MAX && 0 <= h <= u32::MAX
            && fit_size(d, PREVIEW_WIDTH, PREVIEW_MAX_HEIGHT, (w as u32, h as u32))
    }
}

/// A picture fitted within 720 x 2880 is at most 720 x 2881.
proof fn lemma_fit_bounded(d0: int, d1: int, w: int, h: int)
    requires
        d0 >= 1,
        d1 >= 1,
        0 <= w,
        0 <= h,
        fit_size((d0 as u32, d1 as u32), PREVIEW_WIDTH, PREVIEW_MAX_HEIGHT, (w as u32, h as u32)),
        d0 <= u32::MAX,
        d1 <= u32::MAX,
        w <= u32::MAX,
        h <= u32::MAX,
    ensures
        1 <= w <= 720,
        1 <= h <= 2881,
{
    if 720 * d1 <= 2880 * d0 {
        assert(h - 1 <= 2880) by (nonlinear_arith)
            requires
                (h - 1) * d0 <= d1 * 720,
                720 * d1 <= 2880 * d0,
                d0 >= 1,
        ;
    } else {
        assert(w - 1 < 720) by (nonlinear_arith)
            requires
                (w - 1) * d1 <= d0 * 2880,
                720 * d1 > 2880 * d0,
                d1 >= 1,
        ;
    }
}

/// A fetched preview as a JPEG no wider than 720px (wider pictures are
/// scaled down, keeping their proportions, narrower ones kept as they
/// are); nothing past 8 MiB is decoded.
pub fn preview_jpeg_from_bytes(bytes: &[u8]) -> (r: Option<Vec<u8>>)
    ensures
        bytes_view(r) == (if bytes@.len() > PREVIEW_MAX_BYTES { None } else { preview_of_decoded(decoded(bytes@)) }),
        r matches Some(b) ==> is_jpeg_file(b@) && (decoded(bytes@) matches Some(d)
            && preview_size_ok((d.0, d.1), jpeg_width(b@), jpeg_height(b@))),
{
    if bytes.len() > PREVIEW_MAX_BYTES {
        return None;
    }
    let img = match load_from_memory(bytes) {
        Some(i) => i,
        None => return None,
    };
    proof { use_type_invariant(&img); }
    if img.width() == 0 || img.height() == 0 {
        return None;
    }
    let ghost d0 = img@.0;
    let ghost d1 = img@.1;
    if img.width() > PREVIEW_WIDTH {
        let small = match resize_within(img, PREVIEW_WIDTH, PREVIEW_MAX_HEIGHT) {
            Some(q) => q,
            None => return None,
        };
        proof {
            use_type_invariant(&small);
            lemma_fit_bounded(d0 as int, d1 as int, small@.0 as int, small@.1 as int);
        }
        jpeg_bytes(&small, PREVIEW_QUALITY)
    } else if img.height() > 65535 {
        None
    } else {
        jpeg_bytes(&img, PREVIEW_QUALITY)
    }
}

} // verus!
