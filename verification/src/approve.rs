//! Approval of image bytes before a decoder sees them.
//!
//! A decoder may fall back to its SVG renderer for bytes that do not look like
//! a raster image, whatever the file is called. So the bytes decide, never the
//! extension.

use vstd::prelude::*;
use vstd::string::*;
use vstd::utf8::*;

use crate::caseless;
use crate::caseless::same_ignoring_case;
use crate::hex;
use crate::hex::decimal;
use crate::image_source;
use crate::image_source::{content_cache_path, decode_data_image_url};
use crate::raster;
use crate::raster::{
    image_kind, judge_raster, kind_of_guess, raster_extension, raster_format_for_mime,
    validate_raster_image, ImageFormat, ImageKind, RasterImageError, MAX_IMAGE_BYTES,
    MAX_RASTER_DIMENSION, MAX_RASTER_PIXELS,
};
use crate::text;

verus! {

/// Why a local image is refused.
#[derive(Debug, PartialEq, Eq)]
pub enum LocalImageError {
    TooLarge,
    TooManyPixels,
    NotImage,
    UnsafeSvg,
    Io(String),
}

/// Why a remote image is refused.
#[derive(Debug, PartialEq, Eq)]
pub enum RemoteImageError {
    UnsafeUrl(String),
    UnsafeAddress(String),
    RedirectLimit,
    Network(String),
    Status(u16),
    TooLarge,
    TooManyPixels,
    NotImage,
    UnsafeSvg,
    Io(String),
}

/// What the SVG validator says of a document.
#[derive(Debug, Clone, Copy, PartialEq, Eq, Structural)]
pub struct SvgCheck {
    /// Longest document that the validator inspects.
    pub max_bytes: usize,
    /// The document is safe to render.
    pub safe: bool,
}

/// Bytes that may be written to the cache, and the name to write them under.
#[derive(Debug, PartialEq, Eq)]
pub struct CacheEntry {
    pub name: String,
    pub bytes: Vec<u8>,
}

impl vstd::std_specs::convert::FromSpecImpl<RasterImageError> for LocalImageError {
    open spec fn obeys_from_spec() -> bool {
        true
    }

    open spec fn from_spec(error: RasterImageError) -> Self {
        match error {
            RasterImageError::NotImage => LocalImageError::NotImage,
            RasterImageError::TooManyPixels => LocalImageError::TooManyPixels,
        }
    }
}

impl From<RasterImageError> for LocalImageError {
    fn from(error: RasterImageError) -> (e: Self) {
        match error {
            RasterImageError::NotImage => LocalImageError::NotImage,
            RasterImageError::TooManyPixels => LocalImageError::TooManyPixels,
        }
    }
}

impl vstd::std_specs::convert::FromSpecImpl<RasterImageError> for RemoteImageError {
    open spec fn obeys_from_spec() -> bool {
        true
    }

    open spec fn from_spec(error: RasterImageError) -> Self {
        match error {
            RasterImageError::NotImage => RemoteImageError::NotImage,
            RasterImageError::TooManyPixels => RemoteImageError::TooManyPixels,
        }
    }
}

impl From<RasterImageError> for RemoteImageError {
    fn from(error: RasterImageError) -> (e: Self) {
        match error {
            RasterImageError::NotImage => RemoteImageError::NotImage,
            RasterImageError::TooManyPixels => RemoteImageError::TooManyPixels,
        }
    }
}

impl RemoteImageError {
    /// The text of the error.
    pub open spec fn text(self) -> Seq<char> {
        match self {
            RemoteImageError::UnsafeUrl(msg) => "unsafe remote image URL: "@ + msg@,
            RemoteImageError::UnsafeAddress(msg) => "unsafe remote image address: "@ + msg@,
            RemoteImageError::RedirectLimit => "remote image redirected too many times"@,
            RemoteImageError::Network(msg) => "network error: "@ + msg@,
            RemoteImageError::Status(code) => "http status "@ + hex::decimal_text(code as int),
            RemoteImageError::TooLarge => "image exceeds "@ + hex::decimal_text(
                MAX_IMAGE_BYTES as int,
            ) + " bytes"@,
            RemoteImageError::TooManyPixels => "image exceeds the "@ + hex::decimal_text(
                MAX_RASTER_DIMENSION as int,
            ) + "px / "@ + hex::decimal_text(MAX_RASTER_PIXELS as int)
                + "-pixel decode budget"@,
            RemoteImageError::NotImage => "response was not an image"@,
            RemoteImageError::UnsafeSvg => "response contained an unsafe SVG"@,
            RemoteImageError::Io(msg) => "io error: "@ + msg@,
        }
    }

    /// The text of the error.
    pub fn message(&self) -> (out: String)
        ensures
            out@ == self.text(),
    {
        match self {
            RemoteImageError::UnsafeUrl(msg) => joined("unsafe remote image URL: ", msg.as_str()),
            RemoteImageError::UnsafeAddress(msg) => joined(
                "unsafe remote image address: ",
                msg.as_str(),
            ),
            RemoteImageError::RedirectLimit => text::own("remote image redirected too many times"),
            RemoteImageError::Network(msg) => joined("network error: ", msg.as_str()),
            RemoteImageError::Status(code) => joined(
                "http status ",
                decimal(*code as u64).as_str(),
            ),
            RemoteImageError::TooLarge => {
                let mut out = joined("image exceeds ", decimal(MAX_IMAGE_BYTES).as_str());
                out.append(" bytes");
                out
            },
            RemoteImageError::TooManyPixels => {
                let mut out = joined(
                    "image exceeds the ",
                    decimal(MAX_RASTER_DIMENSION as u64).as_str(),
                );
                out.append("px / ");
                out.append(decimal(MAX_RASTER_PIXELS).as_str());
                out.append("-pixel decode budget");
                out
            },
            RemoteImageError::NotImage => text::own("response was not an image"),
            RemoteImageError::UnsafeSvg => text::own("response contained an unsafe SVG"),
            RemoteImageError::Io(msg) => joined("io error: ", msg.as_str()),
        }
    }
}

/// `a` followed by `b`.
pub fn joined(a: &str, b: &str) -> (out: String)
    ensures
        out@ == a@ + b@,
{
    let mut out = text::own(a);
    out.append(b);
    out
}

/// The decision on reading a local file of `len` bytes. Only plain files of
/// bounded length are read.
pub fn admit_local_file(is_file: bool, len: u64) -> (admitted: Result<(), LocalImageError>)
    ensures
        admitted == admission(is_file, len),
{
    if !is_file {
        return Err(LocalImageError::NotImage);
    }
    admit_local_length(len)
}

/// The decision on local bytes that were read.
pub fn admit_local_length(len: u64) -> (admitted: Result<(), LocalImageError>)
    ensures
        admitted == admission(true, len),
{
    if len > MAX_IMAGE_BYTES {
        Err(LocalImageError::TooLarge)
    } else {
        Ok(())
    }
}

/// What is said of a file before its bytes are read, or of bytes that were.
pub open spec fn admission(is_file: bool, len: u64) -> Result<(), LocalImageError> {
    if !is_file {
        Err(LocalImageError::NotImage)
    } else if len > MAX_IMAGE_BYTES {
        Err(LocalImageError::TooLarge)
    } else {
        Ok(())
    }
}

/// The local error for a raster error.
pub open spec fn local_error(error: RasterImageError) -> LocalImageError {
    match error {
        RasterImageError::NotImage => LocalImageError::NotImage,
        RasterImageError::TooManyPixels => LocalImageError::TooManyPixels,
    }
}

/// The remote error for a raster error.
pub open spec fn remote_error(error: RasterImageError) -> RemoteImageError {
    match error {
        RasterImageError::NotImage => RemoteImageError::NotImage,
        RasterImageError::TooManyPixels => RemoteImageError::TooManyPixels,
    }
}

/// Extension under which local bytes are approved, given what the signature
/// and the header say of them.
pub open spec fn local_verdict(
    format: Option<ImageFormat>,
    size: Option<(u32, u32)>,
    bytes: Seq<u8>,
    svg: SvgCheck,
) -> Result<Seq<char>, LocalImageError> {
    match raster::kind_of(format, bytes) {
        Some(ImageKind::Raster) => match raster::raster_verdict(format, size) {
            Ok(format) => Ok(raster::extension_of(format)),
            Err(error) => Err(local_error(error)),
        },
        Some(ImageKind::Svg) => if bytes.len() > svg.max_bytes {
            Err(LocalImageError::TooLarge)
        } else if !valid_utf8(bytes) {
            Err(LocalImageError::NotImage)
        } else if !svg.safe {
            Err(LocalImageError::UnsafeSvg)
        } else {
            Ok("svg"@)
        },
        None => Err(LocalImageError::NotImage),
    }
}

/// Extension under which local bytes are approved, given what the signature
/// and the header say of them.
pub fn judge_local(
    format: Option<ImageFormat>,
    size: Option<(u32, u32)>,
    bytes: &[u8],
    svg: SvgCheck,
) -> (verdict: Result<&'static str, LocalImageError>)
    ensures
        match verdict {
            Ok(extension) => local_verdict(format, size, bytes@, svg) == Ok::<
                Seq<char>,
                LocalImageError,
            >(extension@),
            Err(error) => local_verdict(format, size, bytes@, svg) == Err::<
                Seq<char>,
                LocalImageError,
            >(error),
        },
{
    match kind_of_guess(format, bytes) {
        Some(ImageKind::Raster) => match judge_raster(format, size) {
            Ok(format) => Ok(raster_extension(format)),
            Err(error) => Err(LocalImageError::from(error)),
        },
        Some(ImageKind::Svg) => {
            if bytes.len() > svg.max_bytes {
                Err(LocalImageError::TooLarge)
            } else if text::utf8_text(bytes).is_none() {
                Err(LocalImageError::NotImage)
            } else if !svg.safe {
                Err(LocalImageError::UnsafeSvg)
            } else {
                Ok("svg")
            }
        },
        None => Err(LocalImageError::NotImage),
    }
}

/// Approves local bytes, and names the cache file that holds them from then
/// on.
pub fn materialize_validated_local_bytes(bytes: &[u8], svg: SvgCheck) -> (name: Result<
    String,
    LocalImageError,
>)
    ensures
        match local_verdict(
            raster::guessed_format(bytes@),
            raster::size_of_guess(bytes@),
            bytes@,
            svg,
        ) {
            Ok(extension) => name matches Ok(n) && n@ == image_source::content_file_name(
                "local"@,
                image_source::sha256(bytes@),
                extension,
            ),
            Err(error) => name == Err::<String, LocalImageError>(error),
        },
        raster::opens_svg(bytes@) && name is Ok ==> svg.safe && bytes@.len() <= svg.max_bytes,
{
    let extension = match image_kind(bytes) {
        Some(ImageKind::Raster) => match validate_raster_image(bytes) {
            Ok(format) => raster_extension(format),
            Err(error) => {
                return Err(LocalImageError::from(error));
            },
        },
        Some(ImageKind::Svg) => {
            if bytes.len() > svg.max_bytes {
                return Err(LocalImageError::TooLarge);
            }
            if text::utf8_text(bytes).is_none() {
                return Err(LocalImageError::NotImage);
            }
            if !svg.safe {
                return Err(LocalImageError::UnsafeSvg);
            }
            "svg"
        },
        None => {
            return Err(LocalImageError::NotImage);
        },
    };
    Ok(content_cache_path("local", bytes, extension))
}

/// Extension under which a `data:` image of a declared media type is approved.
pub open spec fn data_verdict(
    mime: Seq<char>,
    format: Option<ImageFormat>,
    size: Option<(u32, u32)>,
    bytes: Seq<u8>,
    svg: SvgCheck,
) -> Option<Seq<char>> {
    if caseless::alike(encode_utf8(mime), encode_utf8("image/svg+xml"@)) {
        if bytes.len() <= svg.max_bytes && valid_utf8(bytes) && svg.safe {
            Some("svg"@)
        } else {
            None
        }
    } else {
        match (raster::format_of_mime(encode_utf8(mime)), raster::raster_verdict(format, size)) {
            (Some(expected), Ok(found)) => if found == expected {
                Some(raster::extension_of(found))
            } else {
                None
            },
            _ => None,
        }
    }
}

/// Extension under which a `data:` image is approved, given the verdict on its
/// bytes as a raster image.
pub fn judge_data(
    mime: &str,
    found: Result<ImageFormat, RasterImageError>,
    bytes: &[u8],
    svg: SvgCheck,
) -> (extension: Option<&'static str>)
    ensures
        forall|format: Option<ImageFormat>, size: Option<(u32, u32)>|
            found == #[trigger] raster::raster_verdict(format, size) ==> match extension {
                Some(e) => data_verdict(mime@, format, size, bytes@, svg) == Some(e@),
                None => data_verdict(mime@, format, size, bytes@, svg) is None,
            },
        extension is Some && !caseless::alike(encode_utf8(mime@), encode_utf8("image/svg+xml"@))
            ==> found is Ok,
{
    if same_ignoring_case(mime, "image/svg+xml") {
        if bytes.len() > svg.max_bytes {
            return None;
        }
        if text::utf8_text(bytes).is_none() {
            return None;
        }
        if !svg.safe {
            return None;
        }
        return Some("svg");
    }
    match (raster_format_for_mime(mime), found) {
        (Some(expected), Ok(found)) => {
            if found == expected {
                Some(raster_extension(found))
            } else {
                None
            }
        },
        _ => None,
    }
}

/// Extension under which the `data:` image at `url` is approved.
pub open spec fn data_url_verdict(url: Seq<char>, svg: SvgCheck) -> Option<(Seq<char>, Seq<u8>)> {
    match image_source::data_image(url, image_source::payload_decoded(url)) {
        None => None,
        Some((mime, bytes)) => match data_verdict(
            mime,
            raster::guessed_format(bytes),
            raster::size_of_guess(bytes),
            bytes,
            svg,
        ) {
            Some(extension) => Some((extension, bytes)),
            None => None,
        },
    }
}

/// Decodes and approves a `data:` image, and names the cache file that holds
/// it from then on. SVG bytes under the media type of a raster format are
/// refused.
pub fn materialize_safe_data_image(url: &str, svg: SvgCheck) -> (entry: Option<CacheEntry>)
    ensures
        match data_url_verdict(url@, svg) {
            Some((extension, bytes)) => entry matches Some(e) && e.bytes@ == bytes && e.name@
                == image_source::content_file_name(
                "data"@,
                image_source::sha256(bytes),
                extension,
            ),
            None => entry is None,
        },
        entry matches Some(e) ==> raster::opens_svg(e.bytes@) ==> svg.safe && e.bytes@.len()
            <= svg.max_bytes,
{
    let (mime, bytes) = match decode_data_image_url(url) {
        Some(image) => image,
        None => {
            return None;
        },
    };
    let found = validate_raster_image(bytes.as_slice());
    proof {
        if raster::opens_svg(bytes@) {
            raster::svg_is_not_raster(bytes@);
        }
    }
    match judge_data(mime, found, bytes.as_slice(), svg) {
        Some(extension) => {
            let name = content_cache_path("data", bytes.as_slice(), extension);
            Some(CacheEntry { name, bytes })
        },
        None => None,
    }
}

/// The verdict on bytes of a remote image.
pub open spec fn remote_verdict(
    format: Option<ImageFormat>,
    size: Option<(u32, u32)>,
    bytes: Seq<u8>,
    svg_safe: bool,
) -> Result<(), RemoteImageError> {
    match raster::kind_of(format, bytes) {
        Some(ImageKind::Raster) => match raster::raster_verdict(format, size) {
            Ok(_) => Ok(()),
            Err(error) => Err(remote_error(error)),
        },
        Some(ImageKind::Svg) => if valid_utf8(bytes) && svg_safe {
            Ok(())
        } else {
            Err(RemoteImageError::UnsafeSvg)
        },
        None => Err(RemoteImageError::NotImage),
    }
}

/// The verdict on bytes of a remote image, given what the signature and the
/// header say of them.
pub fn judge_remote(
    format: Option<ImageFormat>,
    size: Option<(u32, u32)>,
    bytes: &[u8],
    svg_safe: bool,
) -> (verdict: Result<(), RemoteImageError>)
    ensures
        verdict == remote_verdict(format, size, bytes@, svg_safe),
{
    match kind_of_guess(format, bytes) {
        Some(ImageKind::Raster) => match judge_raster(format, size) {
            Ok(_) => Ok(()),
            Err(error) => Err(RemoteImageError::from(error)),
        },
        Some(ImageKind::Svg) => {
            if text::utf8_text(bytes).is_some() && svg_safe {
                Ok(())
            } else {
                Err(RemoteImageError::UnsafeSvg)
            }
        },
        None => Err(RemoteImageError::NotImage),
    }
}

/// Approves the bytes of a remote image.
pub fn validate_image_bytes(bytes: &[u8], svg_safe: bool) -> (verdict: Result<
    (),
    RemoteImageError,
>)
    ensures
        verdict == remote_verdict(
            raster::guessed_format(bytes@),
            raster::size_of_guess(bytes@),
            bytes@,
            svg_safe,
        ),
        raster::opens_svg(bytes@) && verdict is Ok ==> svg_safe,
{
    match image_kind(bytes) {
        Some(ImageKind::Raster) => match validate_raster_image(bytes) {
            Ok(_) => Ok(()),
            Err(error) => Err(RemoteImageError::from(error)),
        },
        Some(ImageKind::Svg) => {
            if text::utf8_text(bytes).is_some() && svg_safe {
                Ok(())
            } else {
                Err(RemoteImageError::UnsafeSvg)
            }
        },
        None => Err(RemoteImageError::NotImage),
    }
}

/// The error of an approved image that could not be written.
pub fn write_error(error: RemoteImageError) -> (out: LocalImageError)
    ensures
        match error {
            RemoteImageError::Io(message) => out == LocalImageError::Io(message),
            _ => out matches LocalImageError::Io(m) && m@
                == "could not materialize validated image"@,
        },
{
    match error {
        RemoteImageError::Io(message) => LocalImageError::Io(message),
        _ => LocalImageError::Io(text::own("could not materialize validated image")),
    }
}

/// Name of the temporary file from which the cache file `name` is renamed.
/// Process and sequence number keep concurrent writers apart.
pub fn part_file_name(name: &str, process: u32, sequence: u64) -> (out: String)
    ensures
        out@ == part_name(name@, process, sequence),
{
    let mut out = joined(name, ".part-");
    out.append(decimal(process as u64).as_str());
    out.append("-");
    out.append(decimal(sequence).as_str());
    out
}

/// Whether a cache file that could not be replaced may stand: only where it
/// already holds exactly the approved bytes.
pub fn existing_copy_stands(existing: &Option<Vec<u8>>, bytes: &[u8]) -> (yes: bool)
    ensures
        yes == (existing matches Some(e) && e@ == bytes@),
{
    match existing {
        Some(e) => {
            if e.len() != bytes.len() {
                return false;
            }
            let mut i: usize = 0;
            while i < bytes.len()
                invariant
                    i <= bytes@.len() == e@.len(),
                    *existing == Some(*e),
                    forall|j: int| 0 <= j < i ==> e@[j] == bytes@[j],
                decreases bytes@.len() - i,
            {
                if e[i] != bytes[i] {
                    assert(e@[i as int] != bytes@[i as int]);
                    return false;
                }
                i = i + 1;
            }
            assert(e@ =~= bytes@);
            true
        },
        None => false,
    }
}

/// The remote and the local approval agree on raster images, and on documents
/// that the local length limit admits.
pub proof fn approvals_agree(
    format: Option<ImageFormat>,
    size: Option<(u32, u32)>,
    bytes: Seq<u8>,
    svg: SvgCheck,
)
    requires
        bytes.len() <= svg.max_bytes,
    ensures
        local_verdict(format, size, bytes, svg) is Ok <==> remote_verdict(
            format,
            size,
            bytes,
            svg.safe,
        ) is Ok,
{
}

/// A local picture is approved under the extension of its format where it is a
/// raster picture within the budget, and as SVG where its text is UTF-8, within
/// the limit and safe; everything else has its own reason.
pub proof fn local_pictures_are_approved(
    format: Option<ImageFormat>,
    size: Option<(u32, u32)>,
    bytes: Seq<u8>,
    svg: SvgCheck,
)
    ensures
        ({
            let verdict = local_verdict(format, size, bytes, svg);
            let shown = format is Some && format->0 != ImageFormat::Other;
            let small = (size matches Some((w, h)) && w <= 8192 && h <= 8192 && w * h
                <= 16777216);
            let tag = raster::opens_svg(bytes);
            &&& shown && small ==> verdict == Ok::<Seq<char>, LocalImageError>(
                raster::extension_of(format->0),
            )
            &&& shown && size is Some && !small ==> verdict == Err::<Seq<char>, LocalImageError>(
                LocalImageError::TooManyPixels,
            )
            &&& shown && size is None ==> verdict == Err::<Seq<char>, LocalImageError>(
                LocalImageError::NotImage,
            )
            &&& !shown && !tag ==> verdict == Err::<Seq<char>, LocalImageError>(
                LocalImageError::NotImage,
            )
            &&& !shown && tag && bytes.len() > svg.max_bytes ==> verdict == Err::<
                Seq<char>,
                LocalImageError,
            >(LocalImageError::TooLarge)
            &&& !shown && tag && bytes.len() <= svg.max_bytes && !valid_utf8(bytes) ==> verdict
                == Err::<Seq<char>, LocalImageError>(LocalImageError::NotImage)
            &&& !shown && tag && bytes.len() <= svg.max_bytes && valid_utf8(bytes) ==> verdict == (
            if svg.safe {
                Ok::<Seq<char>, LocalImageError>("svg"@)
            } else {
                Err::<Seq<char>, LocalImageError>(LocalImageError::UnsafeSvg)
            })
        }),
{
    raster::pictures_are_raster_or_svg(format, bytes);
    raster::pictures_are_shown_within_the_budget(format, size);
}

/// A remote picture is approved where it is a raster picture within the budget,
/// or SVG in UTF-8 that is safe; everything else has its own reason.
pub proof fn remote_pictures_are_approved(
    format: Option<ImageFormat>,
    size: Option<(u32, u32)>,
    bytes: Seq<u8>,
    svg_safe: bool,
)
    ensures
        ({
            let verdict = remote_verdict(format, size, bytes, svg_safe);
            let shown = format is Some && format->0 != ImageFormat::Other;
            let small = (size matches Some((w, h)) && w <= 8192 && h <= 8192 && w * h
                <= 16777216);
            let tag = raster::opens_svg(bytes);
            &&& verdict is Ok <==> (shown && small) || (!shown && tag && valid_utf8(bytes)
                && svg_safe)
            &&& shown && size is Some && !small ==> verdict == Err::<(), RemoteImageError>(
                RemoteImageError::TooManyPixels,
            )
            &&& shown && size is None ==> verdict == Err::<(), RemoteImageError>(
                RemoteImageError::NotImage,
            )
            &&& !shown && !tag ==> verdict == Err::<(), RemoteImageError>(
                RemoteImageError::NotImage,
            )
            &&& !shown && tag && !(valid_utf8(bytes) && svg_safe) ==> verdict == Err::<
                (),
                RemoteImageError,
            >(RemoteImageError::UnsafeSvg)
        }),
{
    raster::pictures_are_raster_or_svg(format, bytes);
    raster::pictures_are_shown_within_the_budget(format, size);
}

/// A data URL is approved where the picture is what its type says: SVG that is
/// safe, or a raster picture of the very format that is declared. Other types
/// are refused.
pub proof fn data_pictures_are_what_they_declare(
    mime: Seq<char>,
    format: Option<ImageFormat>,
    size: Option<(u32, u32)>,
    bytes: Seq<u8>,
    svg: SvgCheck,
)
    ensures
        ({
            let verdict = data_verdict(mime, format, size, bytes, svg);
            let declared = raster::format_of_mime(encode_utf8(mime));
            let small = (size matches Some((w, h)) && w <= 8192 && h <= 8192 && w * h
                <= 16777216);
            let says_svg = caseless::alike(encode_utf8(mime), encode_utf8("image/svg+xml"@));
            &&& says_svg ==> (verdict is Some <==> bytes.len() <= svg.max_bytes && valid_utf8(bytes)
                && svg.safe)
            &&& says_svg && verdict is Some ==> verdict == Some("svg"@)
            &&& !says_svg ==> (verdict is Some <==> declared is Some && declared == format && small)
            &&& !says_svg && verdict is Some ==> verdict == Some(raster::extension_of(format->0))
        }),
{
    raster::formats_go_by_their_mime(encode_utf8(mime));
    raster::pictures_are_shown_within_the_budget(format, size);
}

/// A refused remote picture says why: with the detail it was given, with the
/// status, or with the limit.
pub proof fn refusals_say_why(msg: String, code: u16)
    ensures
        RemoteImageError::UnsafeUrl(msg).text() == "unsafe remote image URL: "@ + msg@,
        RemoteImageError::UnsafeAddress(msg).text() == "unsafe remote image address: "@ + msg@,
        RemoteImageError::Network(msg).text() == "network error: "@ + msg@,
        RemoteImageError::Io(msg).text() == "io error: "@ + msg@,
        RemoteImageError::Status(code).text().take(12) == "http status "@,
        hex::spelled_number(RemoteImageError::Status(code).text().skip(12)) == code,
        RemoteImageError::RedirectLimit.text() == "remote image redirected too many times"@,
        RemoteImageError::NotImage.text() == "response was not an image"@,
        RemoteImageError::UnsafeSvg.text() == "response contained an unsafe SVG"@,
        RemoteImageError::TooLarge.text() == "image exceeds "@ + hex::decimal_text(16777216)
            + " bytes"@,
        RemoteImageError::TooManyPixels.text() == "image exceeds the "@ + hex::decimal_text(8192)
            + "px / "@ + hex::decimal_text(16777216) + "-pixel decode budget"@,
{
    reveal_strlit("http status ");
    let t = RemoteImageError::Status(code).text();
    hex::decimal_spells_its_number(code as int);
    assert(t.take(12) =~= "http status "@);
    assert(t.skip(12) =~= hex::decimal_text(code as int));
}

/// The name of the partial file that becomes the cached file `name`.
pub open spec fn part_name(name: Seq<char>, process: u32, sequence: u64) -> Seq<char> {
    name + ".part-"@ + hex::decimal_text(process as int) + "-"@ + hex::decimal_text(
        sequence as int,
    )
}

/// Files up to the limit are read, larger ones and what is no file are not.
pub proof fn files_up_to_the_limit_are_read(is_file: bool, len: u64)
    ensures
        admission(is_file, len) is Ok <==> is_file && len <= 16777216,
        admission(is_file, len) == Err::<(), LocalImageError>(LocalImageError::TooLarge) <==> is_file
            && len > 16777216,
        admission(is_file, len) == Err::<(), LocalImageError>(LocalImageError::NotImage)
            <==> !is_file,
{
}

proof fn lemma_first_dash(a: Seq<char>, x: Seq<char>, b: Seq<char>, y: Seq<char>)
    requires
        a + seq!['-'] + x == b + seq!['-'] + y,
        forall|k: int| 0 <= k < a.len() ==> #[trigger] a[k] != '-',
        forall|k: int| 0 <= k < b.len() ==> #[trigger] b[k] != '-',
    ensures
        a == b,
        x == y,
{
    let s = a + seq!['-'] + x;
    let t = b + seq!['-'] + y;
    if a.len() < b.len() {
        assert(s[a.len() as int] == '-');
        assert(t[a.len() as int] == b[a.len() as int]);
    }
    if b.len() < a.len() {
        assert(t[b.len() as int] == '-');
        assert(s[b.len() as int] == a[b.len() as int]);
    }
    assert(s.take(a.len() as int) =~= a);
    assert(t.take(b.len() as int) =~= b);
    assert(s.skip(a.len() + 1int) =~= x);
    assert(t.skip(b.len() + 1int) =~= y);
}

/// Partial files of one name are told apart by the process and by the sequence
/// number, and none is the file itself.
pub proof fn partial_files_are_told_apart(name: Seq<char>, p: u32, s: u64, q: u32, t: u64)
    ensures
        part_name(name, p, s) == part_name(name, q, t) ==> p == q && s == t,
        part_name(name, p, s) != name,
        part_name(name, p, s).take(name.len() as int) == name,
        part_name(name, p, s).subrange(name.len() as int, name.len() + 6int) == ".part-"@,
{
    reveal_strlit(".part-");
    reveal_strlit("-");
    let x = part_name(name, p, s);
    let y = part_name(name, q, t);
    hex::decimal_spells_its_number(p as int);
    hex::decimal_spells_its_number(q as int);
    hex::decimal_spells_its_number(s as int);
    hex::decimal_spells_its_number(t as int);
    assert("-"@ =~= seq!['-']);
    assert(x.take(name.len() as int) =~= name);
    assert(x.subrange(name.len() as int, name.len() + 6int) =~= ".part-"@);
    if x == y {
        assert(x.skip(name.len() + 6int) =~= hex::decimal_text(p as int) + seq!['-']
            + hex::decimal_text(s as int));
        assert(y.skip(name.len() + 6int) =~= hex::decimal_text(q as int) + seq!['-']
            + hex::decimal_text(t as int));
        lemma_first_dash(
            hex::decimal_text(p as int),
            hex::decimal_text(s as int),
            hex::decimal_text(q as int),
            hex::decimal_text(t as int),
        );
    }
}

} // verus!
