//! What image bytes are: a raster format, an SVG document or neither.

use std::io::Cursor;

use vstd::prelude::*;
use vstd::string::*;
use vstd::utf8::*;

use crate::caseless;
use crate::caseless::{bytes_hold, same_ignoring_case};

verus! {

/// Longest image, in bytes: 16 MiB.
pub const MAX_IMAGE_BYTES: u64 = 16777216;

/// Most pixels of a raster image. It keeps the decoder's worst RGBA frame
/// below 64 MiB.
pub const MAX_RASTER_PIXELS: u64 = 16777216;

/// Largest width or height of a raster image.
pub const MAX_RASTER_DIMENSION: u32 = 8192;

/// How much of a document is searched for an SVG tag.
pub const SVG_HEAD_BYTES: usize = 256;

/// Image format that a signature gives away.
#[derive(Debug, Clone, Copy, PartialEq, Eq, Structural)]
pub enum ImageFormat {
    Png,
    Jpeg,
    Gif,
    WebP,
    Bmp,
    /// A format that is never shown.
    Other,
}

/// What the bytes of an image hold.
#[derive(Debug, Clone, Copy, PartialEq, Eq, Structural)]
pub enum ImageKind {
    Raster,
    Svg,
}

/// Why raster bytes are refused.
#[derive(Debug, Clone, Copy, PartialEq, Eq, Structural)]
pub enum RasterImageError {
    NotImage,
    TooManyPixels,
}

/// `b` starts with `prefix`.
pub open spec fn begins(b: Seq<u8>, prefix: Seq<u8>) -> bool {
    prefix.len() <= b.len() && b.take(prefix.len() as int) == prefix
}

/// `b` has the signature of `format`, one of the formats that can be shown.
pub open spec fn signed(b: Seq<u8>, format: ImageFormat) -> bool {
    match format {
        ImageFormat::Png => begins(b, seq![0x89, 0x50, 0x4e, 0x47, 0x0d, 0x0a, 0x1a, 0x0a]),
        ImageFormat::Jpeg => begins(b, seq![0xff, 0xd8, 0xff]),
        ImageFormat::Gif => begins(b, seq![0x47, 0x49, 0x46, 0x38, 0x39, 0x61]) || begins(
            b,
            seq![0x47, 0x49, 0x46, 0x38, 0x37, 0x61],
        ),
        ImageFormat::WebP => b.len() >= 12 && begins(b, seq![0x52, 0x49, 0x46, 0x46]) && begins(
            b.skip(8),
            seq![0x57, 0x45, 0x42, 0x50],
        ),
        ImageFormat::Bmp => begins(b, seq![0x42, 0x4d]),
        ImageFormat::Other => false,
    }
}

/// The format that `image::guess_format` reads off the first bytes of an
/// image, `None` where it knows no such signature.
pub uninterp spec fn guessed_format(bytes: Seq<u8>) -> Option<ImageFormat>;

/// `image::guess_format` compares the start of `bytes` with a fixed table of
/// signatures. A format that can be shown is guessed exactly where its own
/// signature stands; which bytes have another format's signature is left to
/// the name.
#[verifier::external_body]
fn guess_format(bytes: &[u8]) -> (format: Option<ImageFormat>)
    ensures
        format == guessed_format(bytes@),
        format == Some(ImageFormat::Png) <==> signed(bytes@, ImageFormat::Png),
        format == Some(ImageFormat::Jpeg) <==> signed(bytes@, ImageFormat::Jpeg),
        format == Some(ImageFormat::Gif) <==> signed(bytes@, ImageFormat::Gif),
        format == Some(ImageFormat::WebP) <==> signed(bytes@, ImageFormat::WebP),
        format == Some(ImageFormat::Bmp) <==> signed(bytes@, ImageFormat::Bmp),
{
    match image::guess_format(bytes) {
        Ok(image::ImageFormat::Png) => Some(ImageFormat::Png),
        Ok(image::ImageFormat::Jpeg) => Some(ImageFormat::Jpeg),
        Ok(image::ImageFormat::Gif) => Some(ImageFormat::Gif),
        Ok(image::ImageFormat::WebP) => Some(ImageFormat::WebP),
        Ok(image::ImageFormat::Bmp) => Some(ImageFormat::Bmp),
        Ok(_) => Some(ImageFormat::Other),
        Err(_) => None,
    }
}

/// Width and height that `image::ImageReader::into_dimensions` reads from the
/// header of `bytes` as an image of `format`, `None` where the header is
/// refused.
pub uninterp spec fn header_dimensions(bytes: Seq<u8>, format: ImageFormat) -> Option<(u32, u32)>;

/// `image::ImageReader::into_dimensions` on a reader over `bytes` that was
/// told the format. The result is a function of the bytes and the format; it
/// is named, not described.
#[verifier::external_body]
fn read_dimensions(bytes: &[u8], format: ImageFormat) -> (size: Option<(u32, u32)>)
    requires
        format != ImageFormat::Other,
    ensures
        size == header_dimensions(bytes@, format),
{
    let format = match format {
        ImageFormat::Png => image::ImageFormat::Png,
        ImageFormat::Jpeg => image::ImageFormat::Jpeg,
        ImageFormat::Gif => image::ImageFormat::Gif,
        ImageFormat::WebP => image::ImageFormat::WebP,
        ImageFormat::Bmp => image::ImageFormat::Bmp,
        ImageFormat::Other => return None,
    };
    image::ImageReader::with_format(Cursor::new(bytes), format).into_dimensions().ok()
}

/// Whether images of `format` are shown.
pub fn is_safe_raster_format(format: ImageFormat) -> (yes: bool)
    ensures
        yes == (format != ImageFormat::Other),
{
    match format {
        ImageFormat::Other => false,
        _ => true,
    }
}

/// The format that a media type declares.
pub open spec fn format_of_mime(mime: Seq<u8>) -> Option<ImageFormat> {
    if caseless::alike(mime, encode_utf8("image/png"@)) {
        Some(ImageFormat::Png)
    } else if caseless::alike(mime, encode_utf8("image/jpeg"@)) {
        Some(ImageFormat::Jpeg)
    } else if caseless::alike(mime, encode_utf8("image/gif"@)) {
        Some(ImageFormat::Gif)
    } else if caseless::alike(mime, encode_utf8("image/webp"@)) {
        Some(ImageFormat::WebP)
    } else if caseless::alike(mime, encode_utf8("image/bmp"@)) {
        Some(ImageFormat::Bmp)
    } else {
        None
    }
}

/// The format that a media type declares.
pub fn raster_format_for_mime(mime: &str) -> (format: Option<ImageFormat>)
    ensures
        format == format_of_mime(encode_utf8(mime@)),
{
    if same_ignoring_case(mime, "image/png") {
        Some(ImageFormat::Png)
    } else if same_ignoring_case(mime, "image/jpeg") {
        Some(ImageFormat::Jpeg)
    } else if same_ignoring_case(mime, "image/gif") {
        Some(ImageFormat::Gif)
    } else if same_ignoring_case(mime, "image/webp") {
        Some(ImageFormat::WebP)
    } else if same_ignoring_case(mime, "image/bmp") {
        Some(ImageFormat::Bmp)
    } else {
        None
    }
}

/// File name extension of a format.
pub open spec fn extension_of(format: ImageFormat) -> Seq<char> {
    match format {
        ImageFormat::Png => "png"@,
        ImageFormat::Jpeg => "jpg"@,
        ImageFormat::Gif => "gif"@,
        ImageFormat::WebP => "webp"@,
        ImageFormat::Bmp => "bmp"@,
        ImageFormat::Other => "img"@,
    }
}

/// File name extension of a format.
pub fn raster_extension(format: ImageFormat) -> (extension: &'static str)
    ensures
        extension@ == extension_of(format),
{
    match format {
        ImageFormat::Png => "png",
        ImageFormat::Jpeg => "jpg",
        ImageFormat::Gif => "gif",
        ImageFormat::WebP => "webp",
        ImageFormat::Bmp => "bmp",
        ImageFormat::Other => "img",
    }
}

/// An image of this size fits the decode budget.
pub open spec fn fits_budget(size: (u32, u32)) -> bool {
    size.0 <= MAX_RASTER_DIMENSION && size.1 <= MAX_RASTER_DIMENSION && size.0 * size.1
        <= MAX_RASTER_PIXELS
}

/// The verdict on bytes of a guessed format whose header gives `size`.
pub open spec fn raster_verdict(format: Option<ImageFormat>, size: Option<(u32, u32)>) -> Result<
    ImageFormat,
    RasterImageError,
> {
    match format {
        None => Err(RasterImageError::NotImage),
        Some(ImageFormat::Other) => Err(RasterImageError::NotImage),
        Some(format) => match size {
            None => Err(RasterImageError::NotImage),
            Some(size) => if fits_budget(size) {
                Ok(format)
            } else {
                Err(RasterImageError::TooManyPixels)
            },
        },
    }
}

/// The size that matters to the verdict on `bytes`.
pub open spec fn size_of_guess(bytes: Seq<u8>) -> Option<(u32, u32)> {
    match guessed_format(bytes) {
        Some(format) => header_dimensions(bytes, format),
        None => None,
    }
}

/// The verdict on bytes of a guessed format whose header gives `size`.
pub fn judge_raster(format: Option<ImageFormat>, size: Option<(u32, u32)>) -> (verdict: Result<
    ImageFormat,
    RasterImageError,
>)
    ensures
        verdict == raster_verdict(format, size),
{
    let format = match format {
        Some(format) => format,
        None => {
            return Err(RasterImageError::NotImage);
        },
    };
    if !is_safe_raster_format(format) {
        return Err(RasterImageError::NotImage);
    }
    match size {
        Some((width, height)) => {
            if width > MAX_RASTER_DIMENSION || height > MAX_RASTER_DIMENSION {
                return Err(RasterImageError::TooManyPixels);
            }
            assert(width * height <= 8192 * 8192) by (nonlinear_arith)
                requires
                    width <= 8192,
                    height <= 8192,
            ;
            if width as u64 * height as u64 > MAX_RASTER_PIXELS {
                Err(RasterImageError::TooManyPixels)
            } else {
                Ok(format)
            }
        },
        None => Err(RasterImageError::NotImage),
    }
}

/// Checks raster bytes: a format that can be shown, a readable header and a
/// size within the decode budget.
pub fn validate_raster_image(bytes: &[u8]) -> (verdict: Result<ImageFormat, RasterImageError>)
    ensures
        verdict == raster_verdict(guessed_format(bytes@), size_of_guess(bytes@)),
        verdict matches Ok(format) ==> signed(bytes@, format),
{
    let guess = guess_format(bytes);
    let size = match guess {
        Some(format) => if is_safe_raster_format(format) {
            read_dimensions(bytes, format)
        } else {
            None
        },
        None => None,
    };
    judge_raster(guess, size)
}

/// White space of ASCII.
pub open spec fn is_blank(b: u8) -> bool {
    b == 0x20 || b == 0x09 || b == 0x0a || b == 0x0c || b == 0x0d
}

/// `b` without the blanks at its start.
pub open spec fn unblanked(b: Seq<u8>) -> Seq<u8>
    decreases b.len(),
{
    if b.len() > 0 && is_blank(b[0]) {
        unblanked(b.drop_first())
    } else {
        b
    }
}

/// The part of a document that is searched for an SVG tag.
pub open spec fn svg_head(bytes: Seq<u8>) -> Seq<u8> {
    unblanked(
        if bytes.len() > SVG_HEAD_BYTES {
            bytes.take(SVG_HEAD_BYTES as int)
        } else {
            bytes
        },
    )
}

/// `<svg`.
pub open spec fn svg_tag() -> Seq<u8> {
    seq![0x3c, 0x73, 0x76, 0x67]
}

/// `<?xml`.
pub open spec fn xml_tag() -> Seq<u8> {
    seq![0x3c, 0x3f, 0x78, 0x6d, 0x6c]
}

/// The document opens with an SVG tag, or with an XML declaration that an SVG
/// tag soon follows.
pub open spec fn opens_svg(bytes: Seq<u8>) -> bool {
    let head = svg_head(bytes);
    begins(head, svg_tag()) || (begins(head, xml_tag()) && caseless::has_part(head, svg_tag()))
}

/// What `bytes` of a guessed format hold.
pub open spec fn kind_of(format: Option<ImageFormat>, bytes: Seq<u8>) -> Option<ImageKind> {
    if format is Some && format != Some(ImageFormat::Other) {
        Some(ImageKind::Raster)
    } else if opens_svg(bytes) {
        Some(ImageKind::Svg)
    } else {
        None
    }
}

fn bytes_begin(bytes: &[u8], prefix: &[u8]) -> (yes: bool)
    ensures
        yes == begins(bytes@, prefix@),
{
    if prefix.len() > bytes.len() {
        return false;
    }
    let mut i: usize = 0;
    while i < prefix.len()
        invariant
            i <= prefix@.len() <= bytes@.len(),
            forall|j: int| 0 <= j < i ==> bytes@[j] == prefix@[j],
        decreases prefix@.len() - i,
    {
        if bytes[i] != prefix[i] {
            assert(bytes@.take(prefix@.len() as int)[i as int] != prefix@[i as int]);
            return false;
        }
        i = i + 1;
    }
    assert(bytes@.take(prefix@.len() as int) =~= prefix@);
    true
}

/// Whether a tag that opens an SVG document occurs in `bytes`.
pub fn contains_svg_tag(bytes: &[u8]) -> (yes: bool)
    ensures
        yes == caseless::has_part(bytes@, svg_tag()),
{
    let tag: [u8; 4] = [0x3c, 0x73, 0x76, 0x67];
    assert(tag@ =~= svg_tag());
    bytes_hold(bytes, &tag)
}

/// What `bytes` of a guessed format hold.
pub fn kind_of_guess(format: Option<ImageFormat>, bytes: &[u8]) -> (kind: Option<ImageKind>)
    ensures
        kind == kind_of(format, bytes@),
{
    if let Some(format) = format {
        if is_safe_raster_format(format) {
            return Some(ImageKind::Raster);
        }
    }
    let end: usize = if bytes.len() > SVG_HEAD_BYTES {
        SVG_HEAD_BYTES
    } else {
        bytes.len()
    };
    let mut at: usize = 0;
    let ghost whole = bytes@.take(end as int);
    assert(whole.skip(0) =~= whole);
    assert(bytes@.take(bytes@.len() as int) =~= bytes@);
    while at < end && (bytes[at] == 0x20 || bytes[at] == 0x09 || bytes[at] == 0x0a || bytes[at]
        == 0x0c || bytes[at] == 0x0d)
        invariant
            at <= end <= bytes@.len(),
            whole == bytes@.take(end as int),
            unblanked(whole.skip(at as int)) == unblanked(whole),
        decreases end - at,
    {
        assert(whole.skip(at as int).drop_first() =~= whole.skip(at + 1));
        at = at + 1;
    }
    let head = vstd::slice::slice_subrange(bytes, at, end);
    assert(head@ =~= whole.skip(at as int));
    assert(head@ == svg_head(bytes@));
    let svg: [u8; 4] = [0x3c, 0x73, 0x76, 0x67];
    let xml: [u8; 5] = [0x3c, 0x3f, 0x78, 0x6d, 0x6c];
    assert(svg@ =~= svg_tag());
    assert(xml@ =~= xml_tag());
    if bytes_begin(head, &svg) || (bytes_begin(head, &xml) && contains_svg_tag(head)) {
        Some(ImageKind::Svg)
    } else {
        None
    }
}

/// What `bytes` hold.
pub fn image_kind(bytes: &[u8]) -> (kind: Option<ImageKind>)
    ensures
        kind == kind_of(guessed_format(bytes@), bytes@),
        kind == Some(ImageKind::Raster) <==> exists|format: ImageFormat| signed(bytes@, format),
        opens_svg(bytes@) ==> kind == Some(ImageKind::Svg),
{
    let guess = guess_format(bytes);
    proof {
        if opens_svg(bytes@) {
            svg_is_not_raster(bytes@);
        }
        if guess is Some && guess != Some(ImageFormat::Other) {
            assert(signed(bytes@, guess->0));
        }
    }
    kind_of_guess(guess, bytes)
}

/// No document that opens as SVG has the signature of a raster format: its
/// bytes cannot pass for a raster image.
pub proof fn svg_is_not_raster(bytes: Seq<u8>)
    requires
        opens_svg(bytes),
    ensures
        forall|format: ImageFormat| !signed(bytes, format),
{
    let head = if bytes.len() > SVG_HEAD_BYTES {
        bytes.take(SVG_HEAD_BYTES as int)
    } else {
        bytes
    };
    let rest = unblanked(head);
    assert(rest[0] == 0x3c) by {
        if begins(rest, svg_tag()) {
            assert(rest.take(4)[0] == svg_tag()[0]);
        } else {
            assert(rest.take(5)[0] == xml_tag()[0]);
        }
    }
    assert(head.len() > 0 && (is_blank(head[0]) || head[0] == 0x3c));
    assert(bytes[0] == head[0]);
    assert forall|format: ImageFormat| !signed(bytes, format) by {
        if signed(bytes, format) {
            match format {
                ImageFormat::Png => {
                    assert(bytes.take(8)[0] == 0x89);
                },
                ImageFormat::Jpeg => {
                    assert(bytes.take(3)[0] == 0xff);
                },
                ImageFormat::Gif => {
                    assert(bytes.take(6)[0] == 0x47);
                },
                ImageFormat::WebP => {
                    assert(bytes.take(4)[0] == 0x52);
                },
                ImageFormat::Bmp => {
                    assert(bytes.take(2)[0] == 0x42);
                },
                ImageFormat::Other => {},
            }
        }
    }
}

/// An approved raster image is no larger than the decode budget.
pub proof fn approved_raster_fits(format: Option<ImageFormat>, size: Option<(u32, u32)>)
    requires
        raster_verdict(format, size) is Ok,
    ensures
        size matches Some((width, height)) && width <= MAX_RASTER_DIMENSION && height
            <= MAX_RASTER_DIMENSION && width * height <= MAX_RASTER_PIXELS,
{
}

proof fn lemma_mime_literals()
    ensures
        encode_utf8("image/png"@) =~= seq![105u8, 109, 97, 103, 101, 47, 112, 110, 103],
        encode_utf8("image/jpeg"@) =~= seq![105u8, 109, 97, 103, 101, 47, 106, 112, 101, 103],
        encode_utf8("image/gif"@) =~= seq![105u8, 109, 97, 103, 101, 47, 103, 105, 102],
        encode_utf8("image/webp"@) =~= seq![105u8, 109, 97, 103, 101, 47, 119, 101, 98, 112],
        encode_utf8("image/bmp"@) =~= seq![105u8, 109, 97, 103, 101, 47, 98, 109, 112],
{
    reveal_strlit("image/png");
    reveal_strlit("image/jpeg");
    reveal_strlit("image/gif");
    reveal_strlit("image/webp");
    reveal_strlit("image/bmp");
    is_ascii_chars_encode_utf8("image/png"@);
    is_ascii_chars_encode_utf8("image/jpeg"@);
    is_ascii_chars_encode_utf8("image/gif"@);
    is_ascii_chars_encode_utf8("image/webp"@);
    is_ascii_chars_encode_utf8("image/bmp"@);
}

/// The formats are named `image/` and the format, in either case; no other name
/// is a format.
pub proof fn formats_go_by_their_mime(mime: Seq<u8>)
    ensures
        caseless::alike(mime, seq![105u8, 109, 97, 103, 101, 47, 112, 110, 103]) <==> format_of_mime(
            mime,
        ) == Some(ImageFormat::Png),
        caseless::alike(mime, seq![105u8, 109, 97, 103, 101, 47, 106, 112, 101, 103])
            <==> format_of_mime(mime) == Some(ImageFormat::Jpeg),
        caseless::alike(mime, seq![105u8, 109, 97, 103, 101, 47, 103, 105, 102]) <==> format_of_mime(
            mime,
        ) == Some(ImageFormat::Gif),
        caseless::alike(mime, seq![105u8, 109, 97, 103, 101, 47, 119, 101, 98, 112])
            <==> format_of_mime(mime) == Some(ImageFormat::WebP),
        caseless::alike(mime, seq![105u8, 109, 97, 103, 101, 47, 98, 109, 112]) <==> format_of_mime(
            mime,
        ) == Some(ImageFormat::Bmp),
        format_of_mime(mime) != Some(ImageFormat::Other),
{
    lemma_mime_literals();
    if mime.len() > 6 {
        let l = caseless::lower(mime[6]);
        assert(caseless::lower(112) == 112 && caseless::lower(106) == 106 && caseless::lower(103)
            == 103 && caseless::lower(119) == 119 && caseless::lower(98) == 98);
        if caseless::alike(mime, encode_utf8("image/png"@)) {
            assert(l == 112);
        }
        if caseless::alike(mime, encode_utf8("image/jpeg"@)) {
            assert(l == 106);
        }
        if caseless::alike(mime, encode_utf8("image/gif"@)) {
            assert(l == 103);
        }
        if caseless::alike(mime, encode_utf8("image/webp"@)) {
            assert(l == 119);
        }
        if caseless::alike(mime, encode_utf8("image/bmp"@)) {
            assert(l == 98);
        }
    }
}

/// A picture is shown exactly where its format is one that is shown and its
/// header gives a size that is neither too long a side nor too many pixels. What
/// has no such format or no size is no picture; what has both is too large.
pub proof fn pictures_are_shown_within_the_budget(
    format: Option<ImageFormat>,
    size: Option<(u32, u32)>,
)
    ensures
        ({
            let shown = format is Some && format->0 != ImageFormat::Other;
            let small = (size matches Some((w, h)) && w <= 8192 && h <= 8192 && w * h
                <= 16777216);
            let verdict = raster_verdict(format, size);
            &&& verdict is Ok <==> shown && small
            &&& verdict is Ok ==> Some(verdict->Ok_0) == format
            &&& verdict == Err::<ImageFormat, RasterImageError>(RasterImageError::TooManyPixels)
                <==> shown && size is Some && !small
            &&& verdict == Err::<ImageFormat, RasterImageError>(RasterImageError::NotImage)
                <==> !shown || size is None
        }),
{
}

/// Each format has its own extension.
pub proof fn extensions_tell_the_format(a: ImageFormat, b: ImageFormat)
    ensures
        extension_of(a) == extension_of(b) ==> a == b,
        a == ImageFormat::Png ==> extension_of(a) == "png"@,
        a == ImageFormat::Jpeg ==> extension_of(a) == "jpg"@,
        a == ImageFormat::Gif ==> extension_of(a) == "gif"@,
        a == ImageFormat::WebP ==> extension_of(a) == "webp"@,
        a == ImageFormat::Bmp ==> extension_of(a) == "bmp"@,
{
    reveal_strlit("png");
    reveal_strlit("jpg");
    reveal_strlit("gif");
    reveal_strlit("webp");
    reveal_strlit("bmp");
    reveal_strlit("img");
    assert("png"@[0] == 'p' && "jpg"@[0] == 'j' && "gif"@[0] == 'g' && "webp"@[0] == 'w' && "bmp"@[0]
        == 'b' && "img"@[0] == 'i');
}

proof fn lemma_unblanked(blanks: Seq<u8>, rest: Seq<u8>)
    requires
        forall|k: int|
            0 <= k < blanks.len() ==> #[trigger] blanks[k] == 32 || blanks[k] == 9 || blanks[k]
                == 10 || blanks[k] == 12 || blanks[k] == 13,
        rest.len() > 0,
        !is_blank(rest[0]),
    ensures
        unblanked(blanks + rest) == rest,
    decreases blanks.len(),
{
    let all = blanks + rest;
    if blanks.len() > 0 {
        assert(all[0] == blanks[0]);
        assert(all.drop_first() =~= blanks.drop_first() + rest);
        lemma_unblanked(blanks.drop_first(), rest);
    } else {
        assert(all =~= rest);
    }
}

/// A document is SVG where, past white space, it starts with the tag; or with an
/// XML declaration, and has the tag, in either case, further on. Only its
/// beginning counts.
pub proof fn svg_starts_with_its_tag(blanks: Seq<u8>, between: Seq<u8>, tag: Seq<u8>, rest: Seq<u8>)
    requires
        forall|k: int|
            0 <= k < blanks.len() ==> #[trigger] blanks[k] == 32 || blanks[k] == 9 || blanks[k]
                == 10 || blanks[k] == 12 || blanks[k] == 13,
        caseless::alike(tag, seq![60u8, 115, 118, 103]),
        blanks.len() + between.len() + rest.len() <= 240,
    ensures
        opens_svg(blanks + seq![60u8, 115, 118, 103] + rest),
        opens_svg(blanks + (seq![60u8, 63, 120, 109, 108] + between + tag + rest)),
{
    let plain = seq![60u8, 115, 118, 103] + rest;
    assert(blanks + seq![60u8, 115, 118, 103] + rest =~= blanks + plain);
    lemma_unblanked(blanks, plain);
    assert(plain.take(4) =~= svg_tag());
    let xml = seq![60u8, 63, 120, 109, 108] + between + tag + rest;
    lemma_unblanked(blanks, xml);
    assert(xml.take(5) =~= xml_tag());
    caseless::parts_are_found(
        seq![60u8, 63, 120, 109, 108] + between,
        tag,
        rest,
        seq![60u8, 115, 118, 103],
    );
    assert(svg_tag() =~= seq![60u8, 115, 118, 103]);
}

/// What does not start with an angle bracket past white space is no SVG.
pub proof fn other_documents_are_not_svg(blanks: Seq<u8>, rest: Seq<u8>)
    requires
        forall|k: int|
            0 <= k < blanks.len() ==> #[trigger] blanks[k] == 32 || blanks[k] == 9 || blanks[k]
                == 10 || blanks[k] == 12 || blanks[k] == 13,
        rest.len() > 0,
        !is_blank(rest[0]),
        rest[0] != 60,
        blanks.len() + rest.len() <= 256,
    ensures
        !opens_svg(blanks + rest),
{
    lemma_unblanked(blanks, rest);
    assert(svg_tag()[0] == 60 && xml_tag()[0] == 60);
    if begins(rest, svg_tag()) {
        assert(rest.take(4)[0] == svg_tag()[0]);
    }
    if begins(rest, xml_tag()) {
        assert(rest.take(5)[0] == xml_tag()[0]);
    }
}

/// What has a format that is shown is a raster picture; what has none may be
/// SVG, by its text alone; the rest is no picture.
pub proof fn pictures_are_raster_or_svg(format: Option<ImageFormat>, bytes: Seq<u8>)
    ensures
        kind_of(format, bytes) == Some(ImageKind::Raster) <==> format is Some && format->0
            != ImageFormat::Other,
        kind_of(format, bytes) == Some(ImageKind::Svg) <==> (format is None || format->0
            == ImageFormat::Other) && opens_svg(bytes),
{
}

} // verus!
