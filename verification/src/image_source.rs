//! Where the pixels of an image come from: classification of destinations,
//! names of cache files, and `data:` URLs.
//!
//! Every image that a document controls is copied into a cache before it is
//! decoded. A destination is only classified here; nothing is read.

use vstd::prelude::*;
use vstd::string::*;
use vstd::utf8::*;

use base64::engine::general_purpose::STANDARD;
use base64::Engine;
use sha2::{Digest, Sha256};

use crate::caseless;
use crate::caseless::{alike_at, same_ignoring_case, starts_with_ascii_case_insensitive};
use crate::hex;
use crate::hex::{hex_encode, percent_decode_bytes, percent_decode_path};
use crate::path;
use crate::path::{is_absolute, join, local_path};
use crate::pieces;
use crate::pieces::cut_at;
use crate::raster::MAX_IMAGE_BYTES;
use crate::text;

verus! {

/// Longest `data:` URL, in bytes: 24 MiB.
pub const MAX_DATA_IMAGE_URL_BYTES: usize = 25165824;

/// How an image destination is shown.
#[derive(Debug, PartialEq, Eq)]
pub enum ResolvedImage {
    /// A file of the image cache.
    File(String),
    /// A path that the document controls. Its bytes are approved before they
    /// are shown.
    Local(String),
    /// A `data:` URL. It is decoded and approved before it is shown.
    Data,
    /// A destination that never reaches the decoder.
    Blocked,
}

/// `url` is an HTTPS URL.
pub open spec fn names_https(url: Seq<char>) -> bool {
    caseless::leads(encode_utf8(text::trimmed(url)), encode_utf8("https://"@))
}

/// `url` is an HTTP or HTTPS URL.
pub open spec fn names_http(url: Seq<char>) -> bool {
    names_https(url) || caseless::leads(
        encode_utf8(text::trimmed(url)),
        encode_utf8("http://"@),
    )
}

/// `url` is a `data:` URL.
pub open spec fn names_data(url: Seq<char>) -> bool {
    caseless::leads(encode_utf8(text::trimmed(url)), encode_utf8("data:"@))
}

/// Whether `url` is an HTTP or HTTPS URL.
pub fn is_http_url(url: &str) -> (yes: bool)
    ensures
        yes == names_http(url@),
{
    is_https_url(url) || starts_with_ascii_case_insensitive(url.trim(), "http://")
}

/// Whether `url` is an HTTPS URL.
pub fn is_https_url(url: &str) -> (yes: bool)
    ensures
        yes == names_https(url@),
{
    starts_with_ascii_case_insensitive(url.trim(), "https://")
}

/// Whether `url` is a `data:` URL.
pub fn is_data_url(url: &str) -> (yes: bool)
    ensures
        yes == names_data(url@),
{
    starts_with_ascii_case_insensitive(url.trim(), "data:")
}

/// The SHA-256 digest of `bytes`.
pub uninterp spec fn sha256(bytes: Seq<u8>) -> Seq<u8>;

/// `sha2::Sha256::digest`: the digest, which has 32 bytes and depends on the
/// input alone.
#[verifier::external_body]
fn digest(bytes: &[u8]) -> (d: Vec<u8>)
    ensures
        d@ == sha256(bytes@),
        d@.len() == 32,
{
    Sha256::digest(bytes).to_vec()
}

/// Where the first `?` or `#` of `b` is, or its end.
pub open spec fn path_end(b: Seq<u8>, i: int) -> int
    decreases b.len() - i,
{
    if i >= b.len() || b[i] == 0x3f || b[i] == 0x23 {
        i
    } else {
        path_end(b, i + 1)
    }
}

/// Behind the last `.` of the first `end` bytes of `b`, or its start.
pub open spec fn suffix_start(b: Seq<u8>, end: int) -> int
    decreases end,
{
    if end <= 0 || b[end - 1] == 0x2e {
        end
    } else {
        suffix_start(b, end - 1)
    }
}

/// The extension of the path of a URL: what stands behind the last `.` before
/// the query and the fragment.
pub open spec fn url_suffix(b: Seq<u8>) -> Seq<u8> {
    let end = path_end(b, 0);
    b.subrange(suffix_start(b, end), end)
}

/// The cache file extension for a known extension.
pub open spec fn known_extension(suffix: Seq<u8>) -> Option<Seq<char>> {
    if caseless::alike(suffix, encode_utf8("png"@)) {
        Some("png"@)
    } else if caseless::alike(suffix, encode_utf8("jpg"@)) || caseless::alike(
        suffix,
        encode_utf8("jpeg"@),
    ) {
        Some("jpg"@)
    } else if caseless::alike(suffix, encode_utf8("gif"@)) {
        Some("gif"@)
    } else if caseless::alike(suffix, encode_utf8("webp"@)) {
        Some("webp"@)
    } else if caseless::alike(suffix, encode_utf8("svg"@)) {
        Some("svg"@)
    } else if caseless::alike(suffix, encode_utf8("bmp"@)) {
        Some("bmp"@)
    } else {
        None
    }
}

/// The cache file extension for a URL.
pub open spec fn extension_of_url(url: Seq<char>) -> Option<Seq<char>> {
    let b = encode_utf8(text::trimmed(url));
    if caseless::leads(b, encode_utf8("data:image/svg"@)) {
        Some("svg"@)
    } else if caseless::leads(b, encode_utf8("data:"@)) {
        None
    } else {
        known_extension(url_suffix(b))
    }
}

fn suffix_is(bytes: &[u8], start: usize, end: usize, word: &str) -> (yes: bool)
    requires
        start <= end <= bytes@.len(),
    ensures
        yes == caseless::alike(bytes@.subrange(start as int, end as int), encode_utf8(word@)),
{
    let part = word.as_bytes();
    part.len() == end - start && alike_at(bytes, start, part)
}

/// The cache file extension for a URL.
pub fn image_extension(url: &str) -> (extension: Option<&'static str>)
    ensures
        match extension {
            Some(e) => extension_of_url(url@) == Some(e@),
            None => extension_of_url(url@) is None,
        },
{
    let trimmed = url.trim();
    if starts_with_ascii_case_insensitive(trimmed, "data:image/svg") {
        return Some("svg");
    }
    if starts_with_ascii_case_insensitive(trimmed, "data:") {
        return None;
    }
    let bytes = trimmed.as_bytes();
    let mut end: usize = 0;
    while end < bytes.len() && bytes[end] != 0x3f && bytes[end] != 0x23
        invariant
            end <= bytes@.len(),
            path_end(bytes@, end as int) == path_end(bytes@, 0),
        decreases bytes@.len() - end,
    {
        end = end + 1;
    }
    let mut start: usize = end;
    while start > 0 && bytes[start - 1] != 0x2e
        invariant
            start <= end <= bytes@.len(),
            suffix_start(bytes@, start as int) == suffix_start(bytes@, end as int),
        decreases start,
    {
        start = start - 1;
    }
    assert(bytes@.subrange(start as int, end as int) == url_suffix(bytes@));
    if suffix_is(bytes, start, end, "png") {
        Some("png")
    } else if suffix_is(bytes, start, end, "jpg") || suffix_is(bytes, start, end, "jpeg") {
        Some("jpg")
    } else if suffix_is(bytes, start, end, "gif") {
        Some("gif")
    } else if suffix_is(bytes, start, end, "webp") {
        Some("webp")
    } else if suffix_is(bytes, start, end, "svg") {
        Some("svg")
    } else if suffix_is(bytes, start, end, "bmp") {
        Some("bmp")
    } else {
        None
    }
}

/// Name of the cache file for a URL whose digest is `digest`.
pub open spec fn url_file_name(digest: Seq<u8>, extension: Option<Seq<char>>) -> Seq<char> {
    let stem = "v3-"@ + hex::hex_text(digest);
    match extension {
        Some(e) => stem + "."@ + e,
        None => stem,
    }
}

/// Name of the cache file for a URL.
pub open spec fn cached_url(url: Seq<char>) -> Seq<char> {
    url_file_name(
        sha256(encode_utf8(text::trimmed(url))),
        extension_of_url(text::trimmed(url)),
    )
}

/// Name of the cache file for a URL whose digest is given.
pub fn cache_file_name(digest: &[u8], extension: Option<&str>) -> (name: String)
    ensures
        name@ == url_file_name(
            digest@,
            match extension {
                Some(e) => Some(e@),
                None => None,
            },
        ),
{
    let mut name = text::own("v3-");
    name.append(hex_encode(digest).as_str());
    if let Some(extension) = extension {
        name.append(".");
        name.append(extension);
    }
    name
}

/// Name of the cache file for a URL.
pub fn cache_path_for_url(url: &str) -> (name: String)
    ensures
        name@ == cached_url(url@),
{
    let trimmed = url.trim();
    let digest = digest(trimmed.as_bytes());
    cache_file_name(digest.as_slice(), image_extension(trimmed))
}

/// Name of the cache file for content whose digest is `digest`.
pub open spec fn content_file_name(
    namespace: Seq<char>,
    digest: Seq<u8>,
    extension: Seq<char>,
) -> Seq<char> {
    "v3-"@ + namespace + "-"@ + hex::hex_text(digest) + "."@ + extension
}

/// Name of the cache file for content.
pub fn content_cache_path(namespace: &str, bytes: &[u8], extension: &str) -> (name: String)
    ensures
        name@ == content_file_name(namespace@, sha256(bytes@), extension@),
{
    let digest = digest(bytes);
    let mut name = text::own("v3-");
    name.append(namespace);
    name.append("-");
    name.append(hex_encode(digest.as_slice()).as_str());
    name.append(".");
    name.append(extension);
    name
}

/// `s` without `prefix`, where it starts so.
pub open spec fn without_prefix(s: Seq<char>, prefix: Seq<char>) -> Seq<char> {
    if prefix.len() <= s.len() && s.take(prefix.len() as int) == prefix {
        s.skip(prefix.len() as int)
    } else {
        s
    }
}

/// The path that a local destination names, still percent-encoded.
pub open spec fn local_part(url: Seq<char>) -> Seq<char> {
    let rest = without_prefix(url, "file://"@);
    if rest == url {
        url
    } else {
        without_prefix(rest, "localhost"@)
    }
}

/// How an image destination is shown.
pub open spec fn resolution(url: Seq<char>) -> ResolvedView {
    let trimmed = text::trimmed(url);
    if names_https(trimmed) {
        ResolvedView::File(cached_url(trimmed))
    } else if names_http(trimmed) {
        ResolvedView::Blocked
    } else if names_data(trimmed) {
        ResolvedView::Data
    } else {
        ResolvedView::Local(hex::decoded_path(local_part(trimmed)))
    }
}

/// View of `ResolvedImage`.
pub enum ResolvedView {
    File(Seq<char>),
    Local(Seq<char>),
    Data,
    Blocked,
}

impl View for ResolvedImage {
    type V = ResolvedView;

    open spec fn view(&self) -> ResolvedView {
        match *self {
            ResolvedImage::File(name) => ResolvedView::File(name@),
            ResolvedImage::Local(path) => ResolvedView::Local(path@),
            ResolvedImage::Data => ResolvedView::Data,
            ResolvedImage::Blocked => ResolvedView::Blocked,
        }
    }
}

fn strip<'a>(s: &'a str, prefix: &str) -> (t: &'a str)
    requires
        encode_utf8(prefix@).len() == prefix@.len(),
    ensures
        t@ == without_prefix(s@, prefix@),
{
    let whole = s.as_bytes();
    let part = prefix.as_bytes();
    if part.len() > whole.len() {
        proof {
            if prefix@.len() <= s@.len() && s@.take(prefix@.len() as int) == prefix@ {
                lemma_prefix_bytes(s@, prefix@);
            }
        }
        return s;
    }
    let mut i: usize = 0;
    while i < part.len()
        invariant
            i <= part@.len() <= whole@.len(),
            whole@ == encode_utf8(s@),
            part@ == encode_utf8(prefix@),
            forall|j: int| 0 <= j < i ==> whole@[j] == part@[j],
        decreases part@.len() - i,
    {
        if whole[i] != part[i] {
            proof {
                if prefix@.len() <= s@.len() && s@.take(prefix@.len() as int) == prefix@ {
                    lemma_prefix_bytes(s@, prefix@);
                    assert(encode_utf8(s@).take(part@.len() as int)[i as int] == whole@[i as int]);
                }
            }
            return s;
        }
        i = i + 1;
    }
    proof {
        lemma_ascii_by_length(prefix@);
        assert forall|j: int| 0 <= j < part@.len() implies #[trigger] encode_utf8(s@)[j] < 0x80 by {
            assert(whole@[j] == part@[j]);
        }
        pieces::lemma_ascii_start(s@, part@.len() as int);
        text::lemma_boundary_ends(s@);
        text::lemma_boundary_ends(s@.skip(part@.len() as int));
        if part@.len() < whole@.len() {
            assert(whole@[part@.len() as int] == encode_utf8(s@.skip(part@.len() as int))[0]);
        }
    }
    let t = text::slice(s, part.len(), whole.len());
    proof {
        let n = part@.len() as int;
        assert(encode_utf8(t@) =~= encode_utf8(s@.skip(n)));
        text::lemma_encode_injective(t@, s@.skip(n));
        text::lemma_encode_concat(s@.take(n), s@.skip(n));
        assert(s@.take(n) + s@.skip(n) =~= s@);
        assert(encode_utf8(s@.take(n)) =~= part@);
        text::lemma_encode_injective(s@.take(n), prefix@);
    }
    t
}

proof fn lemma_prefix_bytes(s: Seq<char>, prefix: Seq<char>)
    requires
        prefix.len() <= s.len(),
        s.take(prefix.len() as int) == prefix,
    ensures
        encode_utf8(prefix).len() <= encode_utf8(s).len(),
        encode_utf8(s).take(encode_utf8(prefix).len() as int) == encode_utf8(prefix),
{
    let n = prefix.len() as int;
    text::lemma_encode_concat(s.take(n), s.skip(n));
    assert(s.take(n) + s.skip(n) =~= s);
    assert(encode_utf8(s).take(encode_utf8(prefix).len() as int) =~= encode_utf8(prefix));
}

proof fn lemma_ascii_by_length(s: Seq<char>)
    requires
        encode_utf8(s).len() == s.len(),
    ensures
        forall|i: int| 0 <= i < s.len() ==> #[trigger] encode_utf8(s)[i] < 0x80,
    decreases s.len(),
{
    if s.len() > 0 {
        encode_utf8_first_scalar(s);
        let head = encode_scalar(s[0] as u32);
        let rest = s.drop_first();
        text::lemma_encode_empty(rest);
        assert(encode_utf8(s) =~= head + encode_utf8(rest));
        assert(head.len() == 1);
        lemma_ascii_by_length(rest);
        assert forall|i: int| 0 <= i < s.len() implies #[trigger] encode_utf8(s)[i] < 0x80 by {
            if i > 0 {
                assert(encode_utf8(s)[i] == encode_utf8(rest)[i - 1]);
            }
        }
    }
}

/// How an image destination is shown: a cache file by its name, a local path
/// as the document writes it. HTTPS goes to the cache, plain HTTP is
/// never followed, and everything else is data or a local path.
pub fn resolve_image_source(url: &str) -> (resolved: ResolvedImage)
    ensures
        resolved@ == resolution(url@),
{
    let trimmed = url.trim();
    if is_https_url(trimmed) {
        return ResolvedImage::File(cache_path_for_url(trimmed));
    }
    if is_http_url(trimmed) {
        return ResolvedImage::Blocked;
    }
    if is_data_url(trimmed) {
        return ResolvedImage::Data;
    }
    proof {
        reveal_strlit("file://");
        reveal_strlit("localhost");
        is_ascii_chars_encode_utf8("file://"@);
        is_ascii_chars_encode_utf8("localhost"@);
    }
    let rest = strip(trimmed, "file://");
    let path = if rest.as_bytes().len() == trimmed.as_bytes().len() {
        proof {
            if rest@ != trimmed@ {
                text::lemma_encode_concat("file://"@, rest@);
                assert("file://"@ + rest@ =~= trimmed@);
            }
        }
        trimmed
    } else {
        strip(rest, "localhost")
    };
    ResolvedImage::Local(percent_decode_path(path))
}

/// How an image destination is shown in a document of the directory `base`,
/// with the image cache in `cache_dir`.
pub open spec fn resolution_in(
    base: Option<Seq<char>>,
    url: Seq<char>,
    cache_dir: Seq<char>,
) -> ResolvedView {
    match resolution(url) {
        ResolvedView::File(name) => ResolvedView::File(path::joined(cache_dir, name)),
        ResolvedView::Local(local) => ResolvedView::Local(
            path::located(base, local, path::rooted(local)),
        ),
        other => other,
    }
}

/// How an image destination is shown in a document of the directory `base`,
/// with the image cache in `cache_dir`. A relative path is read in `base`, an
/// absolute one is left alone.
pub fn resolve_image_source_in(base: Option<&str>, url: &str, cache_dir: &str) -> (resolved:
    ResolvedImage)
    ensures
        resolved@ == resolution_in(path::dir_text(base), url@, cache_dir@),
{
    match resolve_image_source(url) {
        ResolvedImage::File(name) => ResolvedImage::File(join(cache_dir, name.as_str())),
        ResolvedImage::Local(local) => {
            let absolute = is_absolute(local.as_str());
            ResolvedImage::Local(local_path(base, local.as_str(), absolute))
        },
        ResolvedImage::Data => ResolvedImage::Data,
        ResolvedImage::Blocked => ResolvedImage::Blocked,
    }
}

/// Media type and other parameters, and payload, of a `data:` URL.
pub open spec fn data_parts(url: Seq<char>) -> Option<(Seq<char>, Seq<char>)> {
    if names_data(url) {
        pieces::cut(text::trimmed(url).skip(5), ',')
    } else {
        None
    }
}

/// Media type and other parameters, and payload, of a `data:` URL.
pub fn data_url_parts<'a>(url: &'a str) -> (parts: Option<(&'a str, &'a str)>)
    ensures
        match parts {
            Some((meta, payload)) => data_parts(url@) == Some((meta@, payload@)),
            None => data_parts(url@) is None,
        },
{
    if !is_data_url(url) {
        return None;
    }
    let trimmed = url.trim();
    proof {
        reveal_strlit("data:");
        is_ascii_chars_encode_utf8("data:"@);
        let b = encode_utf8(trimmed@);
        let d = encode_utf8("data:"@);
        assert forall|i: int| 0 <= i < 5 implies #[trigger] b[i] < 0x80 by {
            assert(b.take(5)[i] == b[i]);
            assert(caseless::lower(b.take(5)[i]) == caseless::lower(d[i]));
        }
        pieces::lemma_ascii_start(trimmed@, 5);
        text::lemma_boundary_ends(trimmed@);
        text::lemma_boundary_ends(trimmed@.skip(5));
        if 5 < b.len() {
            assert(b[5] == encode_utf8(trimmed@.skip(5))[0]);
        }
    }
    let rest = text::slice(trimmed, 5, trimmed.as_bytes().len());
    proof {
        assert(encode_utf8(rest@) =~= encode_utf8(trimmed@.skip(5)));
        text::lemma_encode_injective(rest@, trimmed@.skip(5));
    }
    cut_at(rest, 0x2c)
}

/// The declared media type.
pub open spec fn declared_mime(meta: Seq<char>) -> Seq<char> {
    match pieces::cut(meta, ';') {
        Some((mime, _)) => text::trimmed(mime),
        None => text::trimmed(meta),
    }
}

/// One of the parameters says `base64`.
pub open spec fn lists_base64(parameters: Seq<char>) -> bool
    decreases parameters.len(),
{
    match pieces::cut(parameters, ';') {
        Some((first, rest)) => caseless::alike(
            encode_utf8(text::trimmed(first)),
            encode_utf8("base64"@),
        ) || (rest.len() < parameters.len() && lists_base64(rest)),
        None => caseless::alike(encode_utf8(text::trimmed(parameters)), encode_utf8("base64"@)),
    }
}

/// The payload is declared to be base64.
pub open spec fn declares_base64(meta: Seq<char>) -> bool {
    match pieces::cut(meta, ';') {
        Some((_, parameters)) => lists_base64(parameters),
        None => false,
    }
}

fn says_base64(parameters: &str) -> (yes: bool)
    ensures
        yes == lists_base64(parameters@),
{
    let mut rest = parameters;
    loop
        invariant
            lists_base64(rest@) == lists_base64(parameters@),
        decreases rest@.len(),
    {
        proof {
            pieces::lemma_cut_shrinks(rest@, ';');
        }
        match cut_at(rest, 0x3b) {
            Some((first, behind)) => {
                if same_ignoring_case(first.trim(), "base64") {
                    return true;
                }
                rest = behind;
            },
            None => {
                return same_ignoring_case(rest.trim(), "base64");
            },
        }
    }
}

/// What standard base64 decodes `payload` to, `None` where it is refused.
pub uninterp spec fn base64_decoded(payload: Seq<u8>) -> Option<Seq<u8>>;

/// `base64::Engine::decode` of the standard engine, with padding required.
/// The result depends on the payload alone; it is named, not described.
#[verifier::external_body]
fn decode_base64(payload: &[u8]) -> (bytes: Option<Vec<u8>>)
    ensures
        match bytes {
            Some(b) => base64_decoded(payload@) == Some(b@),
            None => base64_decoded(payload@) is None,
        },
{
    STANDARD.decode(payload).ok()
}

/// Media type and bytes of a `data:` image whose payload base64 decodes to
/// `decoded`.
pub open spec fn data_image(url: Seq<char>, decoded: Option<Seq<u8>>) -> Option<
    (Seq<char>, Seq<u8>),
> {
    if encode_utf8(url).len() > MAX_DATA_IMAGE_URL_BYTES {
        None
    } else {
        match data_parts(url) {
            None => None,
            Some((meta, payload)) => {
                let bytes = if declares_base64(meta) {
                    decoded
                } else {
                    Some(hex::unescaped(encode_utf8(payload), 0))
                };
                match bytes {
                    Some(b) => if b.len() <= MAX_IMAGE_BYTES {
                        Some((declared_mime(meta), b))
                    } else {
                        None
                    },
                    None => None,
                }
            },
        }
    }
}

/// What base64 decodes the payload of a `data:` URL to.
pub open spec fn payload_decoded(url: Seq<char>) -> Option<Seq<u8>> {
    match data_parts(url) {
        Some((_, payload)) => base64_decoded(encode_utf8(payload)),
        None => None,
    }
}

fn mime_of<'a>(meta: &'a str) -> (mime: &'a str)
    ensures
        mime@ == declared_mime(meta@),
{
    match cut_at(meta, 0x3b) {
        Some((mime, _)) => mime.trim(),
        None => meta.trim(),
    }
}

fn meta_says_base64(meta: &str) -> (yes: bool)
    ensures
        yes == declares_base64(meta@),
{
    match cut_at(meta, 0x3b) {
        Some((_, parameters)) => says_base64(parameters),
        None => false,
    }
}

/// The bytes of an optional vector.
pub open spec fn opt_vec(bytes: Option<Vec<u8>>) -> Option<Seq<u8>> {
    match bytes {
        Some(b) => Some(b@),
        None => None,
    }
}

/// Media type and bytes of a `data:` image whose payload base64 decodes to
/// `decoded`.
pub fn decode_data_image_with<'a>(url: &'a str, decoded: Option<Vec<u8>>) -> (image: Option<
    (&'a str, Vec<u8>),
>)
    ensures
        match image {
            Some((mime, bytes)) => data_image(url@, opt_vec(decoded)) == Some((mime@, bytes@)),
            None => data_image(url@, opt_vec(decoded)) is None,
        },
{
    if url.as_bytes().len() > MAX_DATA_IMAGE_URL_BYTES {
        return None;
    }
    let (meta, payload) = match data_url_parts(url) {
        Some(parts) => parts,
        None => {
            return None;
        },
    };
    let bytes = if meta_says_base64(meta) {
        match decoded {
            Some(bytes) => bytes,
            None => {
                return None;
            },
        }
    } else {
        percent_decode_bytes(payload)
    };
    if bytes.len() as u64 <= MAX_IMAGE_BYTES {
        Some((mime_of(meta), bytes))
    } else {
        None
    }
}

/// Decodes a bounded `data:` image URL.
pub fn decode_data_image_url<'a>(url: &'a str) -> (image: Option<(&'a str, Vec<u8>)>)
    ensures
        match image {
            Some((mime, bytes)) => data_image(url@, payload_decoded(url@)) == Some((mime@, bytes@)),
            None => data_image(url@, payload_decoded(url@)) is None,
        },
{
    if url.as_bytes().len() > MAX_DATA_IMAGE_URL_BYTES {
        return None;
    }
    let decoded = match data_url_parts(url) {
        Some((meta, payload)) => if meta_says_base64(meta) {
            decode_base64(payload.as_bytes())
        } else {
            None
        },
        None => None,
    };
    decode_data_image_with(url, decoded)
}

/// Plain HTTP never reaches the decoder.
pub proof fn plain_http_is_blocked(url: Seq<char>)
    requires
        names_http(url),
        !names_https(url),
    ensures
        resolution(url) == ResolvedView::Blocked,
{
    text::trim_is_idempotent(url);
}

/// HTTPS goes to the cache, under the name of its digest.
pub proof fn https_is_cached(url: Seq<char>)
    requires
        names_https(url),
    ensures
        resolution(url) == ResolvedView::File(cached_url(url)),
{
    text::trim_is_idempotent(url);
}

/// White space around a destination does not matter.
pub proof fn resolution_ignores_margins(url: Seq<char>)
    ensures
        resolution(text::trimmed(url)) == resolution(url),
        cached_url(text::trimmed(url)) == cached_url(url),
{
    text::trim_is_idempotent(url);
}

/// Content of one namespace and one extension is stored under one name only
/// where the digests agree.
pub proof fn content_names_follow_digests(
    namespace: Seq<char>,
    extension: Seq<char>,
    a: Seq<u8>,
    b: Seq<u8>,
)
    requires
        a.len() == b.len(),
        content_file_name(namespace, a, extension) == content_file_name(namespace, b, extension),
    ensures
        a == b,
{
    let x = content_file_name(namespace, a, extension);
    let y = content_file_name(namespace, b, extension);
    let at = ("v3-"@ + namespace + "-"@).len() as int;
    hex::hex_length(a);
    hex::hex_length(b);
    let n = hex::hex_text(a).len() as int;
    assert(x.subrange(at, at + n) =~= hex::hex_text(a));
    assert(y.subrange(at, at + n) =~= hex::hex_text(b));
    hex::hex_is_injective(a, b);
}

proof fn lemma_scheme_literals()
    ensures
        encode_utf8("https://"@) =~= seq![104u8, 116, 116, 112, 115, 58, 47, 47],
        encode_utf8("http://"@) =~= seq![104u8, 116, 116, 112, 58, 47, 47],
        encode_utf8("data:"@) =~= seq![100u8, 97, 116, 97, 58],
{
    reveal_strlit("https://");
    reveal_strlit("http://");
    reveal_strlit("data:");
    is_ascii_chars_encode_utf8("https://"@);
    is_ascii_chars_encode_utf8("http://"@);
    is_ascii_chars_encode_utf8("data:"@);
}

/// A URL goes by the scheme that it starts with past white space, in either
/// case.
pub proof fn urls_go_by_their_scheme(url: Seq<char>)
    ensures
        ({
            let b = encode_utf8(text::trimmed(url));
            let https = seq![104u8, 116, 116, 112, 115, 58, 47, 47];
            let http = seq![104u8, 116, 116, 112, 58, 47, 47];
            let data = seq![100u8, 97, 116, 97, 58];
            &&& names_https(url) <==> b.len() >= 8 && caseless::alike(b.take(8), https)
            &&& names_http(url) <==> (b.len() >= 8 && caseless::alike(b.take(8), https)) || (b.len()
                >= 7 && caseless::alike(b.take(7), http))
            &&& names_data(url) <==> b.len() >= 5 && caseless::alike(b.take(5), data)
        }),
{
    lemma_scheme_literals();
}

/// No URL is of two kinds.
pub proof fn schemes_exclude_each_other(url: Seq<char>)
    ensures
        !(names_http(url) && names_data(url)),
{
    urls_go_by_their_scheme(url);
    let b = encode_utf8(text::trimmed(url));
    if names_http(url) && names_data(url) {
        assert(b.take(5)[0] == b[0] && b.take(7)[0] == b[0]);
        assert(caseless::lower(b[0]) == caseless::lower(100));
        if b.len() >= 8 && caseless::alike(b.take(8), seq![104u8, 116, 116, 112, 115, 58, 47, 47]) {
            assert(caseless::lower(b.take(8)[0]) == caseless::lower(104));
        } else {
            assert(caseless::lower(b.take(7)[0]) == caseless::lower(104));
        }
    }
}

/// The suffix of a URL is what stands behind the last dot of its path; a query
/// and a fragment do not count.
pub proof fn suffixes_end_the_path(path: Seq<u8>, suffix: Seq<u8>, rest: Seq<u8>)
    requires
        forall|k: int| 0 <= k < path.len() ==> #[trigger] path[k] != 63 && path[k] != 35,
        forall|k: int|
            0 <= k < suffix.len() ==> #[trigger] suffix[k] != 63 && suffix[k] != 35 && suffix[k]
                != 46,
        rest.len() == 0 || rest[0] == 63 || rest[0] == 35,
    ensures
        url_suffix(path + seq![46u8] + suffix + rest) == suffix,
{
    let b = path + seq![46u8] + suffix + rest;
    let d = path.len() as int;
    let e = d + 1 + suffix.len();
    assert forall|k: int| 0 <= k < e implies #[trigger] b[k] != 63 && b[k] != 35 by {
        if k < d {
            assert(b[k] == path[k]);
        } else if k > d {
            assert(b[k] == suffix[k - d - 1]);
        }
    }
    if rest.len() > 0 {
        assert(b[e] == rest[0]);
    }
    lemma_path_end(b, 0, e);
    assert forall|k: int| d < k < e implies #[trigger] b[k] != 46 by {
        assert(b[k] == suffix[k - d - 1]);
    }
    assert(b[d] == 46);
    lemma_suffix_start(b, d + 1, e);
    assert(b.subrange(d + 1, e) =~= suffix);
}

proof fn lemma_path_end(b: Seq<u8>, i: int, e: int)
    requires
        0 <= i <= e <= b.len(),
        forall|k: int| i <= k < e ==> #[trigger] b[k] != 63 && b[k] != 35,
        e == b.len() || b[e] == 63 || b[e] == 35,
    ensures
        path_end(b, i) == e,
    decreases e - i,
{
    if i < e {
        assert(b[i] != 63 && b[i] != 35);
        lemma_path_end(b, i + 1, e);
    }
}

proof fn lemma_suffix_start(b: Seq<u8>, s: int, end: int)
    requires
        0 < s <= end <= b.len(),
        b[s - 1] == 46,
        forall|k: int| s <= k < end ==> #[trigger] b[k] != 46,
    ensures
        suffix_start(b, end) == s,
    decreases end - s,
{
    if s < end {
        assert(b[end - 1] != 46);
        lemma_suffix_start(b, s, end - 1);
    }
}

proof fn lemma_extension_literals()
    ensures
        encode_utf8("png"@) =~= seq![112u8, 110, 103],
        encode_utf8("jpg"@) =~= seq![106u8, 112, 103],
        encode_utf8("jpeg"@) =~= seq![106u8, 112, 101, 103],
        encode_utf8("gif"@) =~= seq![103u8, 105, 102],
        encode_utf8("webp"@) =~= seq![119u8, 101, 98, 112],
        encode_utf8("svg"@) =~= seq![115u8, 118, 103],
        encode_utf8("bmp"@) =~= seq![98u8, 109, 112],
{
    reveal_strlit("png");
    reveal_strlit("jpg");
    reveal_strlit("jpeg");
    reveal_strlit("gif");
    reveal_strlit("webp");
    reveal_strlit("svg");
    reveal_strlit("bmp");
    is_ascii_chars_encode_utf8("png"@);
    is_ascii_chars_encode_utf8("jpg"@);
    is_ascii_chars_encode_utf8("jpeg"@);
    is_ascii_chars_encode_utf8("gif"@);
    is_ascii_chars_encode_utf8("webp"@);
    is_ascii_chars_encode_utf8("svg"@);
    is_ascii_chars_encode_utf8("bmp"@);
}

/// The suffixes of pictures are known in either case, each as itself and `jpeg`
/// as `jpg`; no other suffix is.
pub proof fn picture_suffixes_are_known(suffix: Seq<u8>)
    ensures
        caseless::alike(suffix, seq![112u8, 110, 103]) ==> known_extension(suffix) == Some("png"@),
        caseless::alike(suffix, seq![106u8, 112, 103]) ==> known_extension(suffix) == Some("jpg"@),
        caseless::alike(suffix, seq![106u8, 112, 101, 103]) ==> known_extension(suffix) == Some(
            "jpg"@,
        ),
        caseless::alike(suffix, seq![103u8, 105, 102]) ==> known_extension(suffix) == Some("gif"@),
        caseless::alike(suffix, seq![119u8, 101, 98, 112]) ==> known_extension(suffix) == Some(
            "webp"@,
        ),
        caseless::alike(suffix, seq![115u8, 118, 103]) ==> known_extension(suffix) == Some("svg"@),
        caseless::alike(suffix, seq![98u8, 109, 112]) ==> known_extension(suffix) == Some("bmp"@),
        known_extension(suffix) is Some ==> caseless::alike(
            suffix,
            encode_utf8(known_extension(suffix)->0),
        ) || caseless::alike(suffix, seq![106u8, 112, 101, 103]),
{
    lemma_extension_literals();
    if suffix.len() > 0 {
        let l = caseless::lower(suffix[0]);
        assert(caseless::lower(112) == 112 && caseless::lower(106) == 106 && caseless::lower(103)
            == 103 && caseless::lower(119) == 119 && caseless::lower(115) == 115
            && caseless::lower(98) == 98);
        if caseless::alike(suffix, encode_utf8("png"@)) {
            assert(l == 112);
        }
        if caseless::alike(suffix, encode_utf8("jpg"@)) {
            assert(l == 106);
        }
        if caseless::alike(suffix, encode_utf8("jpeg"@)) {
            assert(l == 106);
        }
        if caseless::alike(suffix, encode_utf8("gif"@)) {
            assert(l == 103);
        }
        if caseless::alike(suffix, encode_utf8("webp"@)) {
            assert(l == 119);
        }
        if caseless::alike(suffix, encode_utf8("svg"@)) {
            assert(l == 115);
        }
        if caseless::alike(suffix, encode_utf8("bmp"@)) {
            assert(l == 98);
        }
    }
}

/// The extension of a URL that is no data URL is that of its suffix; a data URL
/// has one only if it declares SVG.
pub proof fn extensions_follow_the_suffix(url: Seq<char>)
    ensures
        !names_data(url) ==> extension_of_url(url) == known_extension(
            url_suffix(encode_utf8(text::trimmed(url))),
        ),
        names_data(url) ==> extension_of_url(url) is None || extension_of_url(url) == Some("svg"@),
        names_data(url) && !caseless::leads(
            encode_utf8(text::trimmed(url)),
            seq![100u8, 97, 116, 97, 58, 105, 109, 97, 103, 101, 47, 115, 118, 103],
        ) ==> extension_of_url(url) is None,
        caseless::leads(
            encode_utf8(text::trimmed(url)),
            seq![100u8, 97, 116, 97, 58, 105, 109, 97, 103, 101, 47, 115, 118, 103],
        ) ==> extension_of_url(url) == Some("svg"@),
{
    lemma_scheme_literals();
    reveal_strlit("data:image/svg");
    is_ascii_chars_encode_utf8("data:image/svg"@);
    let full = seq![100u8, 97, 116, 97, 58, 105, 109, 97, 103, 101, 47, 115, 118, 103];
    assert(encode_utf8("data:image/svg"@) =~= full);
    let b = encode_utf8(text::trimmed(url));
    if caseless::leads(b, full) {
        assert forall|i: int| 0 <= i < 5 implies caseless::lower(#[trigger] b.take(5)[i])
            == caseless::lower(seq![100u8, 97, 116, 97, 58][i]) by {
            assert(b.take(5)[i] == b.take(14)[i]);
            assert(full[i] == seq![100u8, 97, 116, 97, 58][i]);
        }
        assert(caseless::leads(b, seq![100u8, 97, 116, 97, 58]));
    }
}

/// A cached file is named by the digest in hexadecimal, and by its extension if
/// it has one.
pub proof fn cached_names_hold_the_digest(digest: Seq<u8>, extension: Seq<char>)
    ensures
        ({
            let bare = url_file_name(digest, None);
            let full = url_file_name(digest, Some(extension));
            let n = 3 + 2 * digest.len() as int;
            &&& bare.len() == n && bare.skip(3) == hex::hex_text(digest)
            &&& full.take(n) == bare
            &&& full[n] == '.' && full.skip(n + 1) == extension
            &&& bare[0] == 'v' && bare[1] == '3' && bare[2] == '-'
        }),
{
    reveal_strlit("v3-");
    reveal_strlit(".");
    hex::hex_length(digest);
    let bare = url_file_name(digest, None);
    let full = url_file_name(digest, Some(extension));
    let n = 3 + 2 * digest.len() as int;
    assert(bare.skip(3) =~= hex::hex_text(digest));
    assert(full.take(n) =~= bare);
    assert(full.skip(n + 1) =~= extension);
}

/// The name of a cached URL holds the digest of the URL without its margins, and
/// the extension of the URL.
pub proof fn urls_are_cached_by_their_digest(url: Seq<char>)
    requires
        text::trimmed(url) == url,
    ensures
        cached_url(url) == url_file_name(sha256(encode_utf8(url)), extension_of_url(url)),
{
}

/// A `file:` URL is the path behind its scheme and behind `localhost`; what is
/// no such URL is a path itself.
pub proof fn file_urls_are_paths(path: Seq<char>)
    ensures
        path.len() > 0 && path[0] == '/' ==> local_part("file://"@ + path) == path,
        path.len() > 0 && path[0] == '/' ==> local_part("file://"@ + "localhost"@ + path) == path,
        path.len() < 7 || path.take(7) != "file://"@ ==> local_part(path) == path,
{
    reveal_strlit("file://");
    reveal_strlit("localhost");
    let a = "file://"@ + path;
    let b = "file://"@ + "localhost"@ + path;
    assert(a.take(7) =~= "file://"@ && a.skip(7) =~= path);
    assert(b.take(7) =~= "file://"@ && b.skip(7) =~= "localhost"@ + path);
    let c = "localhost"@ + path;
    assert(c.take(9) =~= "localhost"@ && c.skip(9) =~= path);
    assert(a.len() != path.len() && b.len() != c.len());
    if path.len() > 0 && path[0] == '/' {
        if path.len() >= 9 && path.take(9) == "localhost"@ {
            assert(path.take(9)[0] == '/' && "localhost"@[0] == 'l');
        }
    }
}

/// Where a picture comes from: from the cache for `https`, from nowhere for
/// plain `http`, from itself for `data:`, and from the disk, by its path with
/// the escapes decoded, for everything else.
pub proof fn pictures_come_from_their_scheme(url: Seq<char>)
    requires
        text::trimmed(url) == url,
    ensures
        names_https(url) <==> resolution(url) is File,
        names_http(url) && !names_https(url) <==> resolution(url) is Blocked,
        names_data(url) <==> resolution(url) is Data,
        !names_http(url) && !names_data(url) ==> resolution(url) == ResolvedView::Local(
            hex::decoded_path(local_part(url)),
        ),
{
    schemes_exclude_each_other(url);
}

/// A relative path is looked up below the base and a cached file below the cache
/// directory; an absolute path stands for itself.
pub proof fn places_are_looked_up_below(
    base: Seq<char>,
    url: Seq<char>,
    cache_dir: Seq<char>,
    name: Seq<char>,
)
    ensures
        resolution(url) == ResolvedView::File(name) ==> resolution_in(Some(base), url, cache_dir)
            == ResolvedView::File(path::joined(cache_dir, name)),
        resolution(url) == ResolvedView::Local(name) && name.len() > 0 && name[0] == '/'
            ==> resolution_in(Some(base), url, cache_dir) == ResolvedView::Local(name),
        resolution(url) == ResolvedView::Local(name) && !(name.len() > 0 && name[0] == '/')
            ==> resolution_in(Some(base), url, cache_dir) == ResolvedView::Local(
            path::joined(base, name),
        ),
        resolution(url) == ResolvedView::Local(name) ==> resolution_in(None, url, cache_dir)
            == ResolvedView::Local(name),
        resolution(url) is Blocked ==> resolution_in(Some(base), url, cache_dir) is Blocked,
        resolution(url) is Data ==> resolution_in(Some(base), url, cache_dir) is Data,
{
}

/// A data URL is its description up to the first comma, and its payload behind.
pub proof fn data_urls_part_at_the_comma(url: Seq<char>, meta: Seq<char>, payload: Seq<char>)
    requires
        names_data(url),
        text::trimmed(url).skip(5) == meta + seq![','] + payload,
        !meta.contains(','),
    ensures
        data_parts(url) == Some((meta, payload)),
{
    pieces::cuts_at_the_first(meta, ',', payload);
}

/// The type of a data URL stands before the first semicolon; it is base64 where
/// one of the parameters behind says so.
pub proof fn data_urls_declare_their_type(mime: Seq<char>, first: Seq<char>, rest: Seq<char>)
    requires
        !mime.contains(';'),
        !first.contains(';'),
    ensures
        declared_mime(mime) == text::trimmed(mime),
        declared_mime(mime + seq![';'] + rest) == text::trimmed(mime),
        !declares_base64(mime),
        declares_base64(mime + seq![';'] + rest) == lists_base64(rest),
        lists_base64(first) == caseless::alike(
            encode_utf8(text::trimmed(first)),
            seq![98u8, 97, 115, 101, 54, 52],
        ),
        lists_base64(first + seq![';'] + rest) == (caseless::alike(
            encode_utf8(text::trimmed(first)),
            seq![98u8, 97, 115, 101, 54, 52],
        ) || lists_base64(rest)),
{
    reveal_strlit("base64");
    is_ascii_chars_encode_utf8("base64"@);
    assert(encode_utf8("base64"@) =~= seq![98u8, 97, 115, 101, 54, 52]);
    pieces::cuts_at_the_first(mime, ';', rest);
    pieces::no_cut_without_it(mime, ';');
    pieces::cuts_at_the_first(first, ';', rest);
    pieces::no_cut_without_it(first, ';');
}

/// A data URL gives its declared type and its bytes: those that base64 gives
/// where it declares base64, and else those that its escapes spell. One that is
/// too long, has no payload, does not decode or decodes to too much gives
/// nothing.
pub proof fn data_urls_hold_their_picture(
    url: Seq<char>,
    decoded: Option<Seq<u8>>,
    meta: Seq<char>,
    payload: Seq<char>,
)
    requires
        data_parts(url) == Some((meta, payload)),
    ensures
        encode_utf8(url).len() > 25165824 ==> data_image(url, decoded) is None,
        encode_utf8(url).len() <= 25165824 && declares_base64(meta) ==> (match decoded {
            Some(b) => data_image(url, decoded) == (if b.len() <= 16777216 {
                Some((declared_mime(meta), b))
            } else {
                None
            }),
            None => data_image(url, decoded) is None,
        }),
        encode_utf8(url).len() <= 25165824 && !declares_base64(meta) ==> ({
            let b = hex::unescaped(encode_utf8(payload), 0);
            data_image(url, decoded) == (if b.len() <= 16777216 {
                Some((declared_mime(meta), b))
            } else {
                None
            })
        }),
        payload_decoded(url) == base64_decoded(encode_utf8(payload)),
{
}

} // verus!
