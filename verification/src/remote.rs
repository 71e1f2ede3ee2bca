//! Remote images: which URLs and addresses may be asked, and in which steps.
//!
//! Every hop of a redirect chain is parsed, resolved and checked again, so a
//! public URL cannot lead to a private address.

use vstd::prelude::*;
use vstd::string::*;
use vstd::utf8::*;

use crate::approve;
use crate::approve::{joined, validate_image_bytes, RemoteImageError};
use crate::caseless;
use crate::caseless::bytes_trail;
use crate::raster;
use crate::raster::MAX_IMAGE_BYTES;
use crate::text;

verus! {

/// Most redirects that are followed.
pub const MAX_REDIRECTS: usize = 3;

/// The port of HTTPS.
pub const HTTPS_PORT: u16 = 443;

/// The parts of a URL that decide whether it may be asked.
#[derive(Debug, PartialEq, Eq)]
pub struct RemoteUrl {
    /// The whole URL in normal form.
    pub text: String,
    pub scheme: String,
    pub username: String,
    pub has_password: bool,
    /// The explicit port, or else the one that the scheme implies.
    pub port: Option<u16>,
    pub host: Option<String>,
}

/// View of `RemoteUrl`.
pub struct UrlView {
    pub text: Seq<char>,
    pub scheme: Seq<char>,
    pub username: Seq<char>,
    pub has_password: bool,
    pub port: Option<u16>,
    pub host: Option<Seq<char>>,
}

impl View for RemoteUrl {
    type V = UrlView;

    open spec fn view(&self) -> UrlView {
        UrlView {
            text: self.text@,
            scheme: self.scheme@,
            username: self.username@,
            has_password: self.has_password,
            port: self.port,
            host: match self.host {
                Some(host) => Some(host@),
                None => None,
            },
        }
    }
}

/// The parts of the URL that `input` parses to, or the text of the error.
pub uninterp spec fn parsed_url(input: Seq<char>) -> Result<UrlView, Seq<char>>;

/// `reqwest::Url::parse`, with the parsed URL taken apart by `as_str`,
/// `scheme`, `username`, `password`, `port_or_known_default` and `host_str`,
/// and the error turned into its text. All of that depends on `input` alone;
/// it is named, not described.
#[verifier::external_body]
fn parse_url(input: &str) -> (url: Result<RemoteUrl, String>)
    ensures
        match url {
            Ok(u) => parsed_url(input@) == Ok::<UrlView, Seq<char>>(u@),
            Err(e) => parsed_url(input@) == Err::<UrlView, Seq<char>>(e@),
        },
{
    match reqwest::Url::parse(input) {
        Ok(url) => Ok(RemoteUrl {
            text: url.as_str().to_string(),
            scheme: url.scheme().to_string(),
            username: url.username().to_string(),
            has_password: url.password().is_some(),
            port: url.port_or_known_default(),
            host: url.host_str().map(|host| host.to_string()),
        }),
        Err(error) => Err(error.to_string()),
    }
}

/// The URL that `location` names when it is met at `base`, or the text of the
/// error.
pub uninterp spec fn joined_url(base: Seq<char>, location: Seq<char>) -> Result<
    Seq<char>,
    Seq<char>,
>;

/// `reqwest::Url::join` on the URL that `base` parses to. The result depends
/// on the two texts alone; it is named, not described.
#[verifier::external_body]
fn join_url(base: &str, location: &str) -> (url: Result<String, String>)
    ensures
        match url {
            Ok(u) => joined_url(base@, location@) == Ok::<Seq<char>, Seq<char>>(u@),
            Err(e) => joined_url(base@, location@) == Err::<Seq<char>, Seq<char>>(e@),
        },
{
    match reqwest::Url::parse(base).and_then(|url| url.join(location)) {
        Ok(url) => Ok(url.as_str().to_string()),
        Err(error) => Err(error.to_string()),
    }
}

/// `b` without the dots at its end.
pub open spec fn undotted(b: Seq<u8>) -> Seq<u8>
    decreases b.len(),
{
    if b.len() > 0 && b.last() == 0x2e {
        undotted(b.drop_last())
    } else {
        b
    }
}

/// `host` names this machine or one of its network.
pub open spec fn local_host(host: Seq<char>) -> bool {
    let b = undotted(encode_utf8(host));
    ||| caseless::alike(b, encode_utf8("localhost"@))
    ||| caseless::trails(b, encode_utf8(".localhost"@))
    ||| caseless::trails(b, encode_utf8(".local"@))
    ||| caseless::trails(b, encode_utf8(".internal"@))
    ||| caseless::trails(b, encode_utf8(".lan"@))
    ||| !b.contains(0x2e)
}

/// Whether `host` names this machine or one of its network.
pub fn is_local_hostname(host: &str) -> (yes: bool)
    ensures
        yes == local_host(host@),
{
    let bytes = host.as_bytes();
    let mut end: usize = bytes.len();
    assert(bytes@.take(end as int) =~= bytes@);
    while end > 0 && bytes[end - 1] == 0x2e
        invariant
            end <= bytes@.len(),
            undotted(bytes@.take(end as int)) == undotted(bytes@),
        decreases end,
    {
        assert(bytes@.take(end as int).drop_last() =~= bytes@.take(end - 1));
        end = end - 1;
    }
    let name = vstd::slice::slice_subrange(bytes, 0, end);
    assert(name@ =~= bytes@.take(end as int));
    let mut dotted = false;
    let mut i: usize = 0;
    while i < name.len()
        invariant
            i <= name@.len(),
            dotted == exists|j: int| 0 <= j < i && #[trigger] name@[j] == 0x2e,
        decreases name@.len() - i,
    {
        if name[i] == 0x2e {
            dotted = true;
        }
        i = i + 1;
    }
    let localhost = "localhost".as_bytes();
    assert(localhost@.len() == name@.len() ==> name@.skip(0) =~= name@);
    (name.len() == localhost.len() && bytes_trail(name, localhost)) || bytes_trail(
        name,
        ".localhost".as_bytes(),
    ) || bytes_trail(name, ".local".as_bytes()) || bytes_trail(name, ".internal".as_bytes())
        || bytes_trail(name, ".lan".as_bytes()) || !dotted
}

/// The verdict on a URL that was parsed.
pub open spec fn url_refusal(url: UrlView) -> Option<Refusal> {
    if url.scheme != "https"@ {
        Some(Refusal::Url("only HTTPS image URLs are allowed"@))
    } else if url.username.len() > 0 || url.has_password {
        Some(Refusal::Url("embedded credentials are not allowed"@))
    } else if url.port != Some(HTTPS_PORT) {
        Some(Refusal::Url("only the standard HTTPS port is allowed"@))
    } else {
        match url.host {
            None => Some(Refusal::Url("URL has no host"@)),
            Some(host) => if local_host(host) {
                Some(Refusal::Address(host + " is a local hostname"@))
            } else {
                None
            },
        }
    }
}

/// Why a URL or an address is not asked, and what is said of it.
pub enum Refusal {
    Url(Seq<char>),
    Address(Seq<char>),
    Network(Seq<char>),
}

impl Refusal {
    /// `error` reports this refusal.
    pub open spec fn reported(self, error: RemoteImageError) -> bool {
        match self {
            Refusal::Url(msg) => error matches RemoteImageError::UnsafeUrl(m) && m@ == msg,
            Refusal::Address(msg) => error matches RemoteImageError::UnsafeAddress(m) && m@ == msg,
            Refusal::Network(msg) => error matches RemoteImageError::Network(m) && m@ == msg,
        }
    }
}

/// `url` may be asked, as far as its text tells.
pub open spec fn askable(url: UrlView) -> bool {
    &&& url.scheme == "https"@
    &&& url.username.len() == 0
    &&& !url.has_password
    &&& url.port == Some(HTTPS_PORT)
    &&& url.host matches Some(host) && !local_host(host)
}

/// What comes of a parsed URL: the URL itself, or why it is not asked.
pub open spec fn url_outcome(parsed: Result<UrlView, Seq<char>>) -> Result<UrlView, Refusal> {
    match parsed {
        Err(msg) => Err(Refusal::Url(msg)),
        Ok(url) => match url_refusal(url) {
            Some(refusal) => Err(refusal),
            None => Ok(url),
        },
    }
}

/// `result` is what comes of a parsed URL.
pub open spec fn reports_url(
    result: Result<RemoteUrl, RemoteImageError>,
    outcome: Result<UrlView, Refusal>,
) -> bool {
    match (result, outcome) {
        (Ok(url), Ok(view)) => url@ == view,
        (Err(error), Err(refusal)) => refusal.reported(error),
        _ => false,
    }
}

/// Admits a parsed URL: HTTPS on its own port, without credentials, and not
/// by a local name.
pub fn admit_url(parsed: Result<RemoteUrl, String>) -> (url: Result<RemoteUrl, RemoteImageError>)
    ensures
        reports_url(
            url,
            url_outcome(
                match parsed {
                    Ok(u) => Ok(u@),
                    Err(e) => Err(e@),
                },
            ),
        ),
        url matches Ok(u) ==> askable(u@),
{
    let url = match parsed {
        Ok(url) => url,
        Err(error) => {
            return Err(RemoteImageError::UnsafeUrl(error));
        },
    };
    if url.scheme != text::own("https") {
        return Err(RemoteImageError::UnsafeUrl(text::own("only HTTPS image URLs are allowed")));
    }
    if !url.username.as_str().is_empty() || url.has_password {
        return Err(RemoteImageError::UnsafeUrl(text::own("embedded credentials are not allowed")));
    }
    if url.port != Some(HTTPS_PORT) {
        return Err(
            RemoteImageError::UnsafeUrl(text::own("only the standard HTTPS port is allowed")),
        );
    }
    match &url.host {
        None => {
            return Err(RemoteImageError::UnsafeUrl(text::own("URL has no host")));
        },
        Some(host) => {
            if is_local_hostname(host.as_str()) {
                return Err(
                    RemoteImageError::UnsafeAddress(joined(host.as_str(), " is a local hostname")),
                );
            }
        },
    }
    Ok(url)
}

/// Parses a URL and admits it.
pub fn parse_safe_remote_url(input: &str) -> (url: Result<RemoteUrl, RemoteImageError>)
    ensures
        reports_url(url, url_outcome(parsed_url(text::trimmed(input@)))),
        url matches Ok(u) ==> askable(u@),
{
    admit_url(parse_url(input.trim()))
}

/// What comes of a redirect from `current` to `location`.
pub open spec fn redirect_outcome(current: Seq<char>, location: Seq<char>) -> Result<
    UrlView,
    Refusal,
> {
    match joined_url(current, location) {
        Ok(next) => url_outcome(parsed_url(text::trimmed(next))),
        Err(msg) => Err(Refusal::Url(msg)),
    }
}

/// The URL that a redirect leads to, checked like the first one.
pub fn safe_redirect_target(current: &RemoteUrl, location: &str) -> (next: Result<
    RemoteUrl,
    RemoteImageError,
>)
    ensures
        reports_url(next, redirect_outcome(current@.text, location@)),
        next matches Ok(u) ==> askable(u@),
{
    match join_url(current.text.as_str(), location) {
        Ok(next) => parse_safe_remote_url(next.as_str()),
        Err(error) => Err(RemoteImageError::UnsafeUrl(error)),
    }
}

/// An address of the Internet Protocol.
#[derive(Debug, Clone, Copy, PartialEq, Eq)]
pub enum IpAddress {
    V4([u8; 4]),
    V6([u16; 8]),
}

/// An IPv4 address outside every private, reserved and documentation range.
pub open spec fn public_ipv4(o: Seq<u8>) -> bool {
    let a = o[0];
    let b = o[1];
    !(a == 0 || a == 10 || a == 127 || a >= 224 || (a == 100 && 64 <= b <= 127) || (a == 169 && b
        == 254) || (a == 172 && 16 <= b <= 31) || (a == 192 && (b == 0 || b == 88 || b == 168))
        || (a == 198 && (b == 18 || b == 19 || b == 51)) || (a == 203 && b == 0))
}

/// A global unicast IPv6 address outside the documentation range.
pub open spec fn public_ipv6(s: Seq<u16>) -> bool {
    0x2000 <= s[0] <= 0x3fff && !(s[0] == 0x2001 && s[1] == 0x0db8)
}

/// An address that may be asked.
pub open spec fn public_ip(ip: IpAddress) -> bool {
    match ip {
        IpAddress::V4(octets) => public_ipv4(octets@),
        IpAddress::V6(segments) => public_ipv6(segments@),
    }
}

/// Whether an address may be asked.
pub fn is_public_ip(ip: &IpAddress) -> (yes: bool)
    ensures
        yes == public_ip(*ip),
{
    match ip {
        IpAddress::V4(octets) => is_public_ipv4(octets),
        IpAddress::V6(segments) => is_public_ipv6(segments),
    }
}

/// Whether an IPv4 address may be asked.
pub fn is_public_ipv4(octets: &[u8; 4]) -> (yes: bool)
    ensures
        yes == public_ipv4(octets@),
{
    let a: u8 = octets[0];
    let b: u8 = octets[1];
    let c: u8 = octets[2];
    if a == 0 || a == 10 || a == 127 || a >= 224 || (a == 100 && 64 <= b && b <= 127) || (a == 169
        && b == 254) || (a == 172 && 16 <= b && b <= 31) || (a == 192 && (b == 0 || b == 88 || b
        == 168)) || (a == 198 && (b == 18 || b == 19 || b == 51)) || (a == 203 && b == 0) {
        return false;
    }
    // The documentation networks never turn examples into live requests.
    !((a == 192 && b == 0 && c == 2) || (a == 198 && b == 51 && c == 100) || (a == 203 && b == 0
        && c == 113))
}

/// Whether an IPv6 address may be asked.
pub fn is_public_ipv6(segments: &[u16; 8]) -> (yes: bool)
    ensures
        yes == public_ipv6(segments@),
{
    let first: u16 = segments[0];
    if first < 0x2000 || first > 0x3fff {
        return false;
    }
    !(first == 0x2001 && segments[1] == 0x0db8)
}

/// An address and a port.
#[derive(Debug, Clone, Copy, PartialEq, Eq)]
pub struct SocketAddress {
    pub ip: IpAddress,
    pub port: u16,
}

/// A host that is an address, with the text of the address.
#[derive(Debug, PartialEq, Eq)]
pub struct AddressLiteral {
    pub ip: IpAddress,
    pub text: String,
}

/// Where a request goes.
#[derive(Debug, PartialEq, Eq)]
pub struct SafeRemoteTarget {
    /// The name to pin to `addresses`, or `None` where the URL holds an
    /// address itself.
    pub hostname: Option<String>,
    pub addresses: Vec<SocketAddress>,
}

/// The addresses of `ips` at `port`.
pub open spec fn at_port(ips: Seq<IpAddress>, port: u16) -> Seq<SocketAddress> {
    Seq::new(ips.len(), |i: int| SocketAddress { ip: ips[i], port })
}

/// What comes of resolving `url`, whose host reads as `literal` or is looked
/// up as `lookup`: the name to pin and the addresses, or why it is not asked.
pub open spec fn target_outcome(
    url: UrlView,
    literal: Option<AddressLiteral>,
    lookup: Result<Seq<IpAddress>, Seq<char>>,
) -> Result<(Option<Seq<char>>, Seq<SocketAddress>), Refusal> {
    match (url.host, url.port) {
        (None, _) => Err(Refusal::Url("URL has no host"@)),
        (Some(_), None) => Err(Refusal::Url("URL has no HTTPS port"@)),
        (Some(host), Some(port)) => match literal {
            Some(address) => if public_ip(address.ip) {
                Ok((None, seq![SocketAddress { ip: address.ip, port }]))
            } else {
                Err(Refusal::Address(address.text@ + " is not public"@))
            },
            None => match lookup {
                Err(msg) => Err(
                    Refusal::Network("DNS lookup failed for "@ + host + ": "@ + msg),
                ),
                Ok(ips) => if ips.len() == 0 {
                    Err(Refusal::Network("DNS lookup returned no addresses for "@ + host))
                } else if exists|i: int| 0 <= i < ips.len() && !public_ip(#[trigger] ips[i]) {
                    Err(
                        Refusal::Address(
                            "DNS for "@ + host + " includes a non-public address"@,
                        ),
                    )
                } else {
                    Ok((Some(host), at_port(ips, port)))
                },
            },
        },
    }
}

impl SafeRemoteTarget {
    /// Every address may be asked, and there is one.
    pub open spec fn all_public(self) -> bool {
        self.addresses@.len() > 0 && forall|i: int|
            0 <= i < self.addresses@.len() ==> public_ip(#[trigger] self.addresses@[i].ip)
    }
}

/// Where the request for `url` goes. A whole answer is refused when one of its
/// addresses is not public: picking the public ones would leave room for mixed
/// answers.
pub fn resolve_safe_remote_target(
    url: &RemoteUrl,
    literal: &Option<AddressLiteral>,
    lookup: &Result<Vec<IpAddress>, String>,
) -> (target: Result<SafeRemoteTarget, RemoteImageError>)
    ensures
        match target_outcome(
            url@,
            *literal,
            match *lookup {
                Ok(ips) => Ok(ips@),
                Err(e) => Err(e@),
            },
        ) {
            Ok((name, addresses)) => target matches Ok(t) && t.addresses@ == addresses && (
            match t.hostname {
                Some(n) => name == Some(n@),
                None => name is None,
            }),
            Err(refusal) => target matches Err(e) && refusal.reported(e),
        },
        target matches Ok(t) ==> t.all_public(),
{
    let host = match &url.host {
        Some(host) => host,
        None => {
            return Err(RemoteImageError::UnsafeUrl(text::own("URL has no host")));
        },
    };
    let port: u16 = match url.port {
        Some(port) => port,
        None => {
            return Err(RemoteImageError::UnsafeUrl(text::own("URL has no HTTPS port")));
        },
    };
    if let Some(address) = literal {
        if !is_public_ip(&address.ip) {
            return Err(
                RemoteImageError::UnsafeAddress(joined(address.text.as_str(), " is not public")),
            );
        }
        let mut addresses: Vec<SocketAddress> = Vec::new();
        addresses.push(SocketAddress { ip: address.ip, port });
        return Ok(SafeRemoteTarget { hostname: None, addresses });
    }
    let ips = match lookup {
        Ok(ips) => ips,
        Err(error) => {
            let mut msg = joined("DNS lookup failed for ", host.as_str());
            msg.append(": ");
            msg.append(error.as_str());
            return Err(RemoteImageError::Network(msg));
        },
    };
    if ips.len() == 0 {
        return Err(
            RemoteImageError::Network(
                joined("DNS lookup returned no addresses for ", host.as_str()),
            ),
        );
    }
    let mut addresses: Vec<SocketAddress> = Vec::new();
    let mut i: usize = 0;
    while i < ips.len()
        invariant
            i <= ips@.len(),
            url.host == Some(*host),
            url.port == Some(port),
            *literal is None,
            *lookup == Ok::<Vec<IpAddress>, String>(*ips),
            addresses@ == at_port(ips@.take(i as int), port),
            forall|j: int| 0 <= j < i ==> public_ip(#[trigger] ips@[j]),
        decreases ips@.len() - i,
    {
        if !is_public_ip(&ips[i]) {
            assert(!public_ip(ips@[i as int]));
            let mut msg = joined("DNS for ", host.as_str());
            msg.append(" includes a non-public address");
            return Err(RemoteImageError::UnsafeAddress(msg));
        }
        addresses.push(SocketAddress { ip: ips[i], port });
        assert(addresses@ =~= at_port(ips@.take(i + 1), port));
        i = i + 1;
    }
    assert(ips@.take(i as int) =~= ips@);
    assert forall|j: int| 0 <= j < addresses@.len() implies public_ip(
        #[trigger] addresses@[j].ip,
    ) by {
        assert(public_ip(ips@[j]));
    }
    Ok(SafeRemoteTarget { hostname: Some(host.clone()), addresses })
}

/// The `Location` header of a response.
#[derive(Debug, PartialEq, Eq)]
pub enum Location {
    Missing,
    /// Bytes that are not text.
    NotText,
    Text(String),
}

/// What comes of a redirect from `current`.
pub open spec fn header_outcome(current: Seq<char>, location: Location) -> Result<
    UrlView,
    Refusal,
> {
    match location {
        Location::Missing => Err(Refusal::Url("redirect has no Location header"@)),
        Location::NotText => Err(Refusal::Url("redirect Location is not text"@)),
        Location::Text(l) => redirect_outcome(current, l@),
    }
}

/// The URL that a redirect response leads to.
pub fn next_safe_redirect(current: &RemoteUrl, location: &Location) -> (next: Result<
    RemoteUrl,
    RemoteImageError,
>)
    ensures
        reports_url(next, header_outcome(current@.text, *location)),
        next matches Ok(u) ==> askable(u@),
{
    match location {
        Location::Missing => Err(
            RemoteImageError::UnsafeUrl(text::own("redirect has no Location header")),
        ),
        Location::NotText => Err(
            RemoteImageError::UnsafeUrl(text::own("redirect Location is not text")),
        ),
        Location::Text(location) => safe_redirect_target(current, location.as_str()),
    }
}

/// A fetch under way: the URL to ask next and the redirects followed so far.
#[derive(Debug, PartialEq, Eq)]
pub struct Fetch {
    pub current: RemoteUrl,
    pub redirects: usize,
}

/// What a response head asks for.
#[derive(Debug, PartialEq, Eq)]
pub enum HeadStep {
    /// Ask again, at another URL.
    Redirected(Fetch),
    /// Read the body, no more than one byte beyond the limit.
    ReadBody,
}

impl Fetch {
    /// The next URL may be asked, and the redirects are within the limit.
    pub open spec fn ok(self) -> bool {
        askable(self.current@) && self.redirects <= MAX_REDIRECTS
    }
}

/// `fetch` is how a fetch starts whose URL came out as `url`.
pub open spec fn fetch_started(
    cached: bool,
    url: Result<UrlView, Refusal>,
    fetch: Result<Option<Fetch>, RemoteImageError>,
) -> bool {
    &&& cached ==> fetch == Ok::<Option<Fetch>, RemoteImageError>(None)
    &&& !cached ==> match url {
        Ok(view) => fetch matches Ok(Some(f)) && f.current@ == view && f.redirects == 0 && f.ok(),
        Err(refusal) => fetch matches Err(e) && refusal.reported(e),
    }
}

/// `step` is what follows from the outcome of a response head.
pub open spec fn head_handled(
    redirects: int,
    outcome: HeadOutcome,
    step: Result<HeadStep, RemoteImageError>,
) -> bool {
    match outcome {
        HeadOutcome::Ask(url) => step matches Ok(HeadStep::Redirected(f)) && f.current@ == url
            && f.redirects == redirects + 1 && f.ok(),
        HeadOutcome::Read => step == Ok::<HeadStep, RemoteImageError>(HeadStep::ReadBody),
        HeadOutcome::Refuse(refusal) => step matches Err(e) && refusal.reported(e),
        HeadOutcome::Fail(error) => step == Err::<HeadStep, RemoteImageError>(error),
    }
}

/// Starts the fetch of `url`. There is nothing to do where the cache file is
/// there already.
pub fn start_fetch(url: &str, cached: bool) -> (fetch: Result<Option<Fetch>, RemoteImageError>)
    ensures
        fetch_started(cached, url_outcome(parsed_url(text::trimmed(url@))), fetch),
{
    if cached {
        return Ok(None);
    }
    match parse_safe_remote_url(url) {
        Ok(current) => Ok(Some(Fetch { current, redirects: 0 })),
        Err(error) => Err(error),
    }
}

/// What a response head asks for, in terms of the outcome of its redirect.
pub open spec fn head_outcome(
    redirects: int,
    status: u16,
    length: Option<u64>,
    redirect: Result<UrlView, Refusal>,
) -> HeadOutcome {
    if 300 <= status < 400 {
        if redirects >= MAX_REDIRECTS {
            HeadOutcome::Fail(RemoteImageError::RedirectLimit)
        } else {
            match redirect {
                Ok(url) => HeadOutcome::Ask(url),
                Err(refusal) => HeadOutcome::Refuse(refusal),
            }
        }
    } else if !(200 <= status < 300) {
        HeadOutcome::Fail(RemoteImageError::Status(status))
    } else if length matches Some(n) && n > MAX_IMAGE_BYTES {
        HeadOutcome::Fail(RemoteImageError::TooLarge)
    } else {
        HeadOutcome::Read
    }
}

/// Outcome of a response head.
pub enum HeadOutcome {
    Ask(UrlView),
    Read,
    Refuse(Refusal),
    Fail(RemoteImageError),
}

/// What the head of a response asks for.
pub fn on_response(fetch: Fetch, status: u16, location: &Location, length: Option<u64>) -> (step:
    Result<HeadStep, RemoteImageError>)
    requires
        fetch.ok(),
    ensures
        head_handled(
            fetch.redirects as int,
            head_outcome(
                fetch.redirects as int,
                status,
                length,
                header_outcome(fetch.current@.text, *location),
            ),
            step,
        ),
{
    if 300 <= status && status < 400 {
        if fetch.redirects >= MAX_REDIRECTS {
            return Err(RemoteImageError::RedirectLimit);
        }
        return match next_safe_redirect(&fetch.current, location) {
            Ok(current) => Ok(
                HeadStep::Redirected(Fetch { current, redirects: fetch.redirects + 1 }),
            ),
            Err(error) => Err(error),
        };
    }
    if !(200 <= status && status < 300) {
        return Err(RemoteImageError::Status(status));
    }
    if let Some(length) = length {
        if length > MAX_IMAGE_BYTES {
            return Err(RemoteImageError::TooLarge);
        }
    }
    Ok(HeadStep::ReadBody)
}

/// The verdict on a body that was read.
pub open spec fn body_verdict(bytes: Seq<u8>, svg_safe: bool) -> Result<(), RemoteImageError> {
    if bytes.len() > MAX_IMAGE_BYTES {
        Err(RemoteImageError::TooLarge)
    } else {
        approve::remote_verdict(
            raster::guessed_format(bytes),
            raster::size_of_guess(bytes),
            bytes,
            svg_safe,
        )
    }
}

/// The verdict on a body that was read.
pub fn on_body(bytes: &[u8], svg_safe: bool) -> (verdict: Result<(), RemoteImageError>)
    ensures
        verdict == body_verdict(bytes@, svg_safe),
        raster::opens_svg(bytes@) && verdict is Ok ==> svg_safe,
{
    if bytes.len() as u64 > MAX_IMAGE_BYTES {
        return Err(RemoteImageError::TooLarge);
    }
    validate_image_bytes(bytes, svg_safe)
}

/// A URL is asked only if nothing in it is refused.
pub proof fn askable_is_unrefused(url: UrlView)
    ensures
        askable(url) <==> url_refusal(url) is None,
{
}

/// After the last redirect that is followed, another one ends the fetch.
pub proof fn redirects_are_bounded(
    redirects: int,
    status: u16,
    length: Option<u64>,
    redirect: Result<UrlView, Refusal>,
)
    requires
        head_outcome(redirects, status, length, redirect) is Ask,
    ensures
        redirects + 1 <= MAX_REDIRECTS,
{
}

/// No address of a target that may be asked is private, and the target of an
/// answer with a private address is refused.
pub proof fn mixed_answers_are_refused(
    url: UrlView,
    ips: Seq<IpAddress>,
    i: int,
)
    requires
        askable(url),
        0 <= i < ips.len(),
        !public_ip(ips[i]),
    ensures
        target_outcome(url, None, Ok(ips)) matches Err(Refusal::Address(_)),
{
}

/// Loopback, private, link-local, shared and documentation networks are never
/// asked.
pub proof fn private_networks_are_not_public(o: Seq<u8>)
    requires
        o.len() == 4,
        ({
            ||| o[0] == 127
            ||| o[0] == 10
            ||| o[0] == 172 && 16 <= o[1] <= 31
            ||| o[0] == 192 && o[1] == 168
            ||| o[0] == 169 && o[1] == 254
            ||| o[0] == 100 && 64 <= o[1] <= 127
            ||| o[0] == 192 && o[1] == 0 && o[2] == 2
            ||| o[0] == 198 && o[1] == 51 && o[2] == 100
            ||| o[0] == 203 && o[1] == 0 && o[2] == 113
        }),
    ensures
        !public_ipv4(o),
{
}

/// Of IPv6, nothing outside global unicast is asked, nor the documentation
/// range.
pub proof fn only_global_unicast_is_public(s: Seq<u16>)
    requires
        s.len() == 8,
        s[0] < 0x2000 || s[0] > 0x3fff || (s[0] == 0x2001 && s[1] == 0x0db8),
    ensures
        !public_ipv6(s),
{
}

/// The number that four octets write.
pub open spec fn ipv4_number(o: Seq<u8>) -> int {
    o[0] * 0x100_0000 + o[1] * 0x1_0000 + o[2] * 0x100 + o[3]
}

/// An IPv4 address may be asked if and only if it lies in none of the networks
/// that are not public: 0/8, 10/8, 100.64/10, 127/8, 169.254/16, 172.16/12,
/// 192.0/16, 192.88/16, 192.168/16, 198.18/15, 198.51/16, 203.0/16 and all
/// from 224.0.0.0 on.
pub proof fn ipv4_outside_reserved_networks_is_public(o: Seq<u8>)
    requires
        o.len() == 4,
    ensures
        ({
            let n = ipv4_number(o);
            public_ipv4(o) <==> {
                ||| 0x0100_0000 <= n <= 0x09ff_ffff
                ||| 0x0b00_0000 <= n <= 0x643f_ffff
                ||| 0x6480_0000 <= n <= 0x7eff_ffff
                ||| 0x8000_0000 <= n <= 0xa9fd_ffff
                ||| 0xa9ff_0000 <= n <= 0xac0f_ffff
                ||| 0xac20_0000 <= n <= 0xbfff_ffff
                ||| 0xc001_0000 <= n <= 0xc057_ffff
                ||| 0xc059_0000 <= n <= 0xc0a7_ffff
                ||| 0xc0a9_0000 <= n <= 0xc611_ffff
                ||| 0xc614_0000 <= n <= 0xc632_ffff
                ||| 0xc634_0000 <= n <= 0xcaff_ffff
                ||| 0xcb01_0000 <= n <= 0xdfff_ffff
            }
        }),
{
}

/// An IPv6 address may be asked if and only if it is in 2000::/3 and not in
/// 2001:db8::/32.
pub proof fn ipv6_global_unicast_is_public(s: Seq<u16>)
    requires
        s.len() == 8,
    ensures
        public_ipv6(s) <==> s[0] / 0x2000 == 1 && s[0] * 0x1_0000 + s[1] != 0x2001_0db8,
{
}

/// A host that was looked up is asked if and only if the answer holds an
/// address and all its addresses are public; then it is pinned to exactly
/// those, in order, on the port of the URL.
pub proof fn public_answers_are_pinned(
    url: UrlView,
    ips: Seq<IpAddress>,
    host: Seq<char>,
    port: u16,
)
    requires
        url.host == Some(host),
        url.port == Some(port),
    ensures
        target_outcome(url, None, Ok(ips)) is Ok <==> ips.len() > 0 && forall|i: int|
            0 <= i < ips.len() ==> public_ip(#[trigger] ips[i]),
        target_outcome(url, None, Ok(ips)) matches Ok((name, addresses)) ==> {
            &&& name == Some(host)
            &&& addresses.len() == ips.len()
            &&& forall|i: int|
                0 <= i < ips.len() ==> (#[trigger] addresses[i]).ip == ips[i] && addresses[i].port
                    == port
        },
{
}

/// A host that is an address is asked if and only if the address is public,
/// whatever a lookup says; no name is pinned.
pub proof fn public_literals_are_asked(
    url: UrlView,
    literal: AddressLiteral,
    lookup: Result<Seq<IpAddress>, Seq<char>>,
    port: u16,
)
    requires
        url.host is Some,
        url.port == Some(port),
    ensures
        target_outcome(url, Some(literal), lookup) is Ok <==> public_ip(literal.ip),
        target_outcome(url, Some(literal), lookup) matches Ok((name, addresses)) ==> name is None
            && addresses.len() == 1 && addresses[0].ip == literal.ip && addresses[0].port == port,
{
}

/// What of an address is public is what its kind says.
pub proof fn addresses_are_judged_by_kind(ip: IpAddress)
    ensures
        ip matches IpAddress::V4(o) ==> public_ip(ip) == public_ipv4(o@),
        ip matches IpAddress::V6(s) ==> public_ip(ip) == public_ipv6(s@),
{
}

/// A URL is asked if and only if it is HTTPS on port 443, without a user and a
/// password, and its host is a name that is not local.
pub proof fn only_plain_https_is_asked(url: UrlView)
    ensures
        url_outcome(Ok(url)) is Ok <==> {
            &&& url.scheme == "https"@
            &&& url.username.len() == 0
            &&& !url.has_password
            &&& url.port == Some(443u16)
            &&& url.host matches Some(host) && !local_host(host)
        },
        url_outcome(Ok(url)) matches Ok(u) ==> u == url,
{
}

/// A response is followed, read or refused by its status: three hundreds are
/// followed up to the third time, two hundreds are read unless they announce
/// more than the limit, and all others end the fetch with their status.
pub proof fn responses_by_status(
    redirects: int,
    status: u16,
    length: Option<u64>,
    next: UrlView,
)
    ensures
        ({
            let step = head_outcome(redirects, status, length, Ok(next));
            let fits = length matches Some(n) ==> n <= 16777216;
            &&& step is Ask <==> 300 <= status <= 399 && redirects <= 2
            &&& step is Ask ==> step == HeadOutcome::Ask(next)
            &&& step is Read <==> 200 <= status <= 299 && fits
            &&& step == HeadOutcome::Fail(RemoteImageError::RedirectLimit) <==> 300 <= status
                <= 399 && redirects > 2
            &&& step == HeadOutcome::Fail(RemoteImageError::TooLarge) <==> 200 <= status <= 299
                && !fits
            &&& step == HeadOutcome::Fail(RemoteImageError::Status(status)) <==> status < 200
                || status > 399
        }),
{
}

/// A redirect that leads nowhere safe is refused as the URL itself would be.
pub proof fn unsafe_redirects_are_refused(
    redirects: int,
    status: u16,
    length: Option<u64>,
    refusal: Refusal,
)
    requires
        300 <= status <= 399,
        redirects <= 2,
    ensures
        head_outcome(redirects, status, length, Err(refusal)) == HeadOutcome::Refuse(refusal),
{
}

/// Dots at the end of a host, and the case of its letters, do not make a local
/// name public: what is left without the dots ends in no dot, and only dots
/// were taken.
pub proof fn undotting_takes_only_dots(b: Seq<u8>)
    ensures
        ({
            let u = undotted(b);
            &&& u.len() <= b.len()
            &&& u == b.take(u.len() as int)
            &&& forall|i: int| u.len() <= i < b.len() ==> #[trigger] b[i] == 0x2e
            &&& u.len() > 0 ==> u.last() != 0x2e
        }),
    decreases b.len(),
{
    if b.len() > 0 && b.last() == 0x2e {
        undotting_takes_only_dots(b.drop_last());
        let u = undotted(b);
        assert(u =~= b.take(u.len() as int));
        assert forall|i: int| u.len() <= i < b.len() implies #[trigger] b[i] == 0x2e by {
            if i < b.len() - 1 {
                assert(b.drop_last()[i] == 0x2e);
            }
        }
    } else {
        assert(b =~= b.take(b.len() as int));
    }
}

/// A fetch starts with its URL and no redirect behind it; a refused URL is not
/// asked, and what is cached is not fetched.
pub proof fn fetches_start_with_their_url(
    url: Result<UrlView, Refusal>,
    fetch: Result<Option<Fetch>, RemoteImageError>,
    cached: bool,
)
    requires
        fetch_started(cached, url, fetch),
    ensures
        cached ==> fetch is Ok && fetch->Ok_0 is None,
        !cached && url is Ok ==> fetch is Ok && fetch->Ok_0 is Some && (fetch->Ok_0->0).current@
            == url->Ok_0 && (fetch->Ok_0->0).redirects == 0,
        !cached && url is Err ==> fetch is Err,
{
}

/// A redirect is followed to its URL and counted; a good response is read; all
/// else ends the fetch with its error.
pub proof fn heads_lead_on_or_end_the_fetch(
    redirects: int,
    outcome: HeadOutcome,
    step: Result<HeadStep, RemoteImageError>,
)
    requires
        head_handled(redirects, outcome, step),
    ensures
        outcome matches HeadOutcome::Ask(url) ==> step is Ok && step->Ok_0 is Redirected
            && (step->Ok_0->Redirected_0).current@ == url && (step->Ok_0->Redirected_0).redirects
            == redirects + 1,
        outcome is Read <==> step is Ok && step->Ok_0 is ReadBody,
        outcome is Refuse || outcome is Fail <==> step is Err,
        outcome matches HeadOutcome::Fail(error) ==> step->Err_0 == error,
{
}

/// A body beyond the limit is refused as too large, whatever it is; any other
/// is judged by what it is.
pub proof fn bodies_are_judged_within_the_limit(bytes: Seq<u8>, svg_safe: bool)
    ensures
        bytes.len() > 16777216 ==> body_verdict(bytes, svg_safe) == Err::<(), RemoteImageError>(
            RemoteImageError::TooLarge,
        ),
        bytes.len() <= 16777216 ==> body_verdict(bytes, svg_safe) == approve::remote_verdict(
            raster::guessed_format(bytes),
            raster::size_of_guess(bytes),
            bytes,
            svg_safe,
        ),
{
}

/// A name is local where, without the dots at its end and in either case, it is
/// `localhost`, ends in one of the local domains, or has no dot at all; no other
/// name is.
pub proof fn local_names(host: Seq<char>)
    ensures
        ({
            let b = undotted(encode_utf8(host));
            let localhost = seq![108u8, 111, 99, 97, 108, 104, 111, 115, 116];
            local_host(host) <==> {
                ||| caseless::alike(b, localhost)
                ||| caseless::trails(b, seq![46u8] + localhost)
                ||| caseless::trails(b, seq![46u8, 108, 111, 99, 97, 108])
                ||| caseless::trails(b, seq![46u8, 105, 110, 116, 101, 114, 110, 97, 108])
                ||| caseless::trails(b, seq![46u8, 108, 97, 110])
                ||| forall|k: int| 0 <= k < b.len() ==> #[trigger] b[k] != 46
            }
        }),
{
    reveal_strlit("localhost");
    reveal_strlit(".localhost");
    reveal_strlit(".local");
    reveal_strlit(".internal");
    reveal_strlit(".lan");
    is_ascii_chars_encode_utf8("localhost"@);
    is_ascii_chars_encode_utf8(".localhost"@);
    is_ascii_chars_encode_utf8(".local"@);
    is_ascii_chars_encode_utf8(".internal"@);
    is_ascii_chars_encode_utf8(".lan"@);
    let localhost = seq![108u8, 111, 99, 97, 108, 104, 111, 115, 116];
    assert(encode_utf8("localhost"@) =~= localhost);
    assert(encode_utf8(".localhost"@) =~= seq![46u8] + localhost);
    assert(encode_utf8(".local"@) =~= seq![46u8, 108, 111, 99, 97, 108]);
    assert(encode_utf8(".internal"@) =~= seq![46u8, 105, 110, 116, 101, 114, 110, 97, 108]);
    assert(encode_utf8(".lan"@) =~= seq![46u8, 108, 97, 110]);
    let b = undotted(encode_utf8(host));
    if !b.contains(46) {
        assert forall|k: int| 0 <= k < b.len() implies #[trigger] b[k] != 46 by {
            assert(b.contains(b[k]));
        }
    }
}

/// A result tells its outcome: the URL that came out, or the refusal as the error
/// of its kind with what was said of it.
pub proof fn results_tell_their_outcome(
    result: Result<RemoteUrl, RemoteImageError>,
    outcome: Result<UrlView, Refusal>,
)
    requires
        reports_url(result, outcome),
    ensures
        result is Ok <==> outcome is Ok,
        outcome matches Ok(view) ==> result->Ok_0@ == view,
        outcome matches Err(Refusal::Url(msg)) ==> result->Err_0 is UnsafeUrl
            && (result->Err_0->UnsafeUrl_0)@ == msg,
        outcome matches Err(Refusal::Address(msg)) ==> result->Err_0 is UnsafeAddress
            && (result->Err_0->UnsafeAddress_0)@ == msg,
        outcome matches Err(Refusal::Network(msg)) ==> result->Err_0 is Network
            && (result->Err_0->Network_0)@ == msg,
{
}

/// A fetch is in order while its URL may be asked and no more than three
/// redirects were followed; a target, while it has addresses and all are public.
pub proof fn fetches_stay_in_order(fetch: Fetch, target: SafeRemoteTarget, i: int)
    ensures
        fetch.ok() <==> askable(fetch.current@) && fetch.redirects <= 3,
        target.all_public() ==> target.addresses@.len() > 0,
        target.all_public() && 0 <= i < target.addresses@.len() ==> public_ip(
            target.addresses@[i].ip,
        ),
        target.addresses@.len() == 1 && public_ip(target.addresses@[0].ip) ==> target.all_public(),
{
}

} // verus!
