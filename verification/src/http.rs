//! The agent's HTTP: where a server URL points, what a request looks like on
//! the wire and what a response says.
use vstd::prelude::*;
use vstd::slice::slice_subrange;
use vstd::string::*;

use crate::{bytes, numbers, text};

verus! {

/// The largest response that is accepted, in bytes.
pub const MAX_HTTP_RESPONSE_BYTES: usize = 16777216;

/// The default port of `http://` URLs.
pub const HTTP_DEFAULT_PORT: u16 = 80;

/// The default port of `https://` URLs.
pub const HTTPS_DEFAULT_PORT: u16 = 443;

/// Where requests go.
#[derive(Debug, PartialEq, Eq)]
pub struct HttpClient {
    pub host: String,
    pub port: u16,
    pub host_header: String,
    pub prefix: String,
    /// Whether the connection runs over TLS: the scheme of the URL decides, and
    /// nothing else.
    pub tls: bool,
}

/// The `Host` header: it carries no port where that is the scheme's default.
pub open spec fn host_header_of(host: Seq<char>, port: u16, default_port: u16) -> Seq<char> {
    if port == default_port {
        host
    } else {
        host + ":"@ + numbers::decimal(port as int)
    }
}

pub open spec fn invalid_url(base_url: Seq<char>) -> Seq<char> {
    "invalid server URL "@ + base_url
}

pub open spec fn invalid_port(base_url: Seq<char>) -> Seq<char> {
    "invalid port in "@ + base_url
}

/// The port that `port` spells.
pub open spec fn port_of(base_url: Seq<char>, port: Seq<char>) -> Result<u16, Seq<char>> {
    match numbers::as_u16(port) {
        Some(p) => Ok(p),
        None => Err(invalid_port(base_url)),
    }
}

/// Host, port and `Host` header of a bracketed authority.
pub open spec fn bracketed_authority(
    base_url: Seq<char>,
    authority: Seq<char>,
    default_port: u16,
) -> Result<(Seq<char>, u16, Seq<char>), Seq<char>> {
    match text::find_char(authority, ']', 0) {
        None => Err("invalid bracketed IPv6 address in "@ + base_url),
        Some(end) => {
            let host = authority.subrange(1, end);
            let rest = authority.skip(end + 1);
            let header = "["@ + host + "]"@;
            if host.len() == 0 {
                Err(invalid_url(base_url))
            } else if rest.len() == 0 {
                Ok((host, default_port, header))
            } else if rest[0] != ':' {
                Err(invalid_url(base_url))
            } else {
                match port_of(base_url, rest.skip(1)) {
                    Ok(port) => Ok((host, port, host_header_of(header, port, default_port))),
                    Err(e) => Err(e),
                }
            }
        },
    }
}

/// Host, port and `Host` header of the part of a URL between scheme and path.
pub open spec fn authority_of(
    base_url: Seq<char>,
    authority: Seq<char>,
    default_port: u16,
) -> Result<(Seq<char>, u16, Seq<char>), Seq<char>> {
    if authority.len() == 0 {
        Err(invalid_url(base_url))
    } else if authority[0] == '[' {
        bracketed_authority(base_url, authority, default_port)
    } else if text::find_char(authority, ']', 0) is Some {
        Err(invalid_url(base_url))
    } else {
        match text::rsplit_once(authority, ':') {
            None => Ok((authority, default_port, authority)),
            Some((host, port)) => if text::find_char(host, ':', 0) is Some {
                Err("IPv6 server URLs must use brackets, for example http://[::1]:8081"@)
            } else {
                match port_of(base_url, port) {
                    Err(e) => Err(e),
                    Ok(p) => if host.len() == 0 {
                        Err(invalid_url(base_url))
                    } else {
                        Ok((host, p, host_header_of(host, p, default_port)))
                    },
                }
            },
        }
    }
}

/// `s` without the slashes that trail it.
pub open spec fn without_slashes(s: Seq<char>) -> Seq<char>
    decreases s.len(),
{
    if s.len() > 0 && s.last() == '/' {
        without_slashes(s.drop_last())
    } else {
        s
    }
}

/// What goes in front of every request path: nothing where the URL names no path but
/// slashes.
pub open spec fn prefix_of(path: Seq<char>) -> Seq<char> {
    if without_slashes(path).len() == 0 {
        seq![]
    } else {
        "/"@ + without_slashes(path)
    }
}

/// Everything a client holds.
pub struct ClientView {
    pub host: Seq<char>,
    pub port: u16,
    pub host_header: Seq<char>,
    pub prefix: Seq<char>,
    pub tls: bool,
}

impl HttpClient {
    pub open spec fn contents(self) -> ClientView {
        ClientView {
            host: self.host@,
            port: self.port,
            host_header: self.host_header@,
            prefix: self.prefix@,
            tls: self.tls,
        }
    }
}

/// The client for what follows the scheme of a URL.
pub open spec fn client_behind(base_url: Seq<char>, rest: Seq<char>, tls: bool) -> Result<
    ClientView,
    Seq<char>,
> {
    let default_port = if tls {
        HTTPS_DEFAULT_PORT
    } else {
        HTTP_DEFAULT_PORT
    };
    let (authority, path) = match text::split_once(rest, '/') {
        Some(cut) => cut,
        None => (rest, seq![]),
    };
    match authority_of(base_url, authority, default_port) {
        Err(e) => Err(e),
        Ok((host, port, host_header)) => Ok(
            ClientView { host, port, host_header, prefix: prefix_of(path), tls },
        ),
    }
}

/// The client for a server URL. A URL without a scheme is refused: a default
/// would send the token out in the clear.
pub open spec fn client_of(base_url: Seq<char>) -> Result<ClientView, Seq<char>> {
    match text::strip_prefix(base_url, "https://"@) {
        Some(rest) => client_behind(base_url, rest, true),
        None => match text::strip_prefix(base_url, "http://"@) {
            Some(rest) => client_behind(base_url, rest, false),
            None => Err("server URL must start with http:// or https://: "@ + base_url),
        },
    }
}

/// The `Host` header for a host and port.
pub fn host_header(host: &str, port: u16, default_port: u16) -> (r: String)
    ensures
        r@ == host_header_of(host@, port, default_port),
{
    let mut out = host.to_owned();
    if port != default_port {
        out.append(":");
        numbers::push_decimal(&mut out, port as u64);
    }
    out
}

fn invalid_url_text(base_url: &str) -> (r: String)
    ensures
        r@ == invalid_url(base_url@),
{
    let mut e = "invalid server URL ".to_owned();
    e.append(base_url);
    e
}

fn read_port(base_url: &str, port: &[char]) -> (r: Result<u16, String>)
    ensures
        match r {
            Ok(p) => port_of(base_url@, port@) == Ok::<u16, Seq<char>>(p),
            Err(e) => port_of(base_url@, port@) == Err::<u16, Seq<char>>(e@),
        },
{
    match numbers::read_u16(port) {
        Some(p) => Ok(p),
        None => {
            let mut e = "invalid port in ".to_owned();
            e.append(base_url);
            Err(e)
        },
    }
}

/// The port that `port` spells. A broken one is reported, never defaulted.
pub fn parse_http_port(base_url: &str, port: &str) -> (r: Result<u16, String>)
    ensures
        match r {
            Ok(p) => port_of(base_url@, port@) == Ok::<u16, Seq<char>>(p),
            Err(e) => port_of(base_url@, port@) == Err::<u16, Seq<char>>(e@),
        },
{
    let chars = text::chars_of(port);
    read_port(base_url, chars.as_slice())
}

fn read_bracketed(base_url: &str, authority: &[char], default_port: u16) -> (r: Result<
    (String, u16, String),
    String,
>)
    requires
        authority@.len() > 0,
        authority@[0] == '[',
    ensures
        match r {
            Ok(a) => bracketed_authority(base_url@, authority@, default_port) == Ok::<
                (Seq<char>, u16, Seq<char>),
                Seq<char>,
            >((a.0@, a.1, a.2@)),
            Err(e) => bracketed_authority(base_url@, authority@, default_port) == Err::<
                (Seq<char>, u16, Seq<char>),
                Seq<char>,
            >(e@),
        },
{
    let n: usize = authority.len();
    match text::find(authority, ']') {
        None => {
            let mut e = "invalid bracketed IPv6 address in ".to_owned();
            e.append(base_url);
            Err(e)
        },
        Some(end) => {
            proof {
                text::lemma_find_char(authority@, ']', 0);
            }
            let host = slice_subrange(authority, 1, end);
            let rest = slice_subrange(authority, end + 1, n);
            assert(rest@ == authority@.skip(end + 1));
            if host.len() == 0 {
                return Err(invalid_url_text(base_url));
            }
            let host_text = text::string_of(host);
            let mut header = "[".to_owned();
            header.append(host_text.as_str());
            header.append("]");
            if rest.len() == 0 {
                return Ok((host_text, default_port, header));
            }
            if rest[0] != ':' {
                return Err(invalid_url_text(base_url));
            }
            let port_text = slice_subrange(rest, 1, rest.len());
            assert(port_text@ == rest@.skip(1));
            match read_port(base_url, port_text) {
                Ok(port) => {
                    let full = host_header(header.as_str(), port, default_port);
                    Ok((host_text, port, full))
                },
                Err(e) => Err(e),
            }
        },
    }
}

fn read_authority(base_url: &str, authority: &[char], default_port: u16) -> (r: Result<
    (String, u16, String),
    String,
>)
    ensures
        match r {
            Ok(a) => authority_of(base_url@, authority@, default_port) == Ok::<
                (Seq<char>, u16, Seq<char>),
                Seq<char>,
            >((a.0@, a.1, a.2@)),
            Err(e) => authority_of(base_url@, authority@, default_port) == Err::<
                (Seq<char>, u16, Seq<char>),
                Seq<char>,
            >(e@),
        },
{
    if authority.len() == 0 {
        return Err(invalid_url_text(base_url));
    }
    if authority[0] == '[' {
        return read_bracketed(base_url, authority, default_port);
    }
    if text::find(authority, ']').is_some() {
        return Err(invalid_url_text(base_url));
    }
    match text::rcut_once(authority, ':') {
        None => {
            let host = text::string_of(authority);
            let header = text::string_of(authority);
            Ok((host, default_port, header))
        },
        Some((host, port)) => {
            if text::find(host, ':').is_some() {
                return Err(
                    "IPv6 server URLs must use brackets, for example http://[::1]:8081".to_owned(),
                );
            }
            match read_port(base_url, port) {
                Err(e) => Err(e),
                Ok(p) => {
                    if host.len() == 0 {
                        return Err(invalid_url_text(base_url));
                    }
                    let host_text = text::string_of(host);
                    let header = host_header(host_text.as_str(), p, default_port);
                    Ok((host_text, p, header))
                },
            }
        },
    }
}

/// Host, port and `Host` header of the part of a URL between scheme and path.
pub fn parse_http_authority(base_url: &str, authority: &str, default_port: u16) -> (r: Result<
    (String, u16, String),
    String,
>)
    ensures
        match r {
            Ok(a) => authority_of(base_url@, authority@, default_port) == Ok::<
                (Seq<char>, u16, Seq<char>),
                Seq<char>,
            >((a.0@, a.1, a.2@)),
            Err(e) => authority_of(base_url@, authority@, default_port) == Err::<
                (Seq<char>, u16, Seq<char>),
                Seq<char>,
            >(e@),
        },
{
    let chars = text::chars_of(authority);
    read_authority(base_url, chars.as_slice(), default_port)
}

/// `path` without the slashes that trail it.
pub fn strip_slashes<'a>(path: &'a [char]) -> (r: &'a [char])
    ensures
        r@ == without_slashes(path@),
{
    let mut to: usize = path.len();
    assert(path@.take(to as int) == path@);
    while to > 0 && path[to - 1] == '/'
        invariant
            to <= path@.len(),
            without_slashes(path@) == without_slashes(path@.take(to as int)),
        decreases to,
    {
        assert(path@.take(to as int).drop_last() == path@.take(to - 1));
        to = to - 1;
    }
    let kept = slice_subrange(path, 0, to);
    assert(kept@ == path@.take(to as int));
    kept
}

fn read_prefix(path: &[char]) -> (r: String)
    ensures
        r@ == prefix_of(path@),
{
    let kept = strip_slashes(path);
    if kept.len() == 0 {
        let none = String::new();
        assert(none@ =~= seq![]);
        return none;
    }
    let mut out = "/".to_owned();
    out.append(text::string_of(kept).as_str());
    out
}

fn read_client(base_url: &str, rest: &[char], tls: bool) -> (r: Result<HttpClient, String>)
    ensures
        match r {
            Ok(c) => client_behind(base_url@, rest@, tls) == Ok::<ClientView, Seq<char>>(
                c.contents(),
            ),
            Err(e) => client_behind(base_url@, rest@, tls) == Err::<ClientView, Seq<char>>(e@),
        },
{
    let default_port: u16 = if tls {
        HTTPS_DEFAULT_PORT
    } else {
        HTTP_DEFAULT_PORT
    };
    let n: usize = rest.len();
    let (authority, path) = match text::cut_once(rest, '/') {
        Some(cut) => cut,
        None => {
            let empty = slice_subrange(rest, n, n);
            assert(empty@ =~= seq![]);
            (rest, empty)
        },
    };
    match read_authority(base_url, authority, default_port) {
        Err(e) => Err(e),
        Ok((host, port, host_header)) => {
            let prefix = read_prefix(path);
            Ok(HttpClient { host, port, host_header, prefix, tls })
        },
    }
}

impl HttpClient {
    /// The client for a server URL.
    pub fn new(base_url: &str) -> (r: Result<HttpClient, String>)
        ensures
            match r {
                Ok(c) => client_of(base_url@) == Ok::<ClientView, Seq<char>>(c.contents()),
                Err(e) => client_of(base_url@) == Err::<ClientView, Seq<char>>(e@),
            },
    {
        let url = text::chars_of(base_url);
        match text::after_prefix(url.as_slice(), "https://") {
            Some(rest) => read_client(base_url, rest, true),
            None => match text::after_prefix(url.as_slice(), "http://") {
                Some(rest) => read_client(base_url, rest, false),
                None => {
                    let mut e = "server URL must start with http:// or https://: ".to_owned();
                    e.append(base_url);
                    Err(e)
                },
            },
        }
    }

    /// The text of a request without further headers.
    pub fn request(
        &self,
        method: &str,
        path: &str,
        token: &str,
        body: Option<&str>,
        identity: &str,
        protocol: &str,
    ) -> (r: String)
        ensures
            r@ == request_of(
                self.contents(),
                method@,
                path@,
                token@,
                body_of(body),
                seq![],
                identity@,
                protocol@,
            ),
    {
        let none: Vec<(String, String)> = Vec::new();
        let text = self.request_with_headers(
            method,
            path,
            token,
            body,
            none.as_slice(),
            identity,
            protocol,
        );
        assert(header_views(none@) =~= seq![]);
        text
    }

    /// The text of a request: request line, headers, and the body after an empty
    /// line. `identity` names the running binary, `protocol` the version of the
    /// agent protocol.
    pub fn request_with_headers(
        &self,
        method: &str,
        path: &str,
        token: &str,
        body: Option<&str>,
        extra_headers: &[(String, String)],
        identity: &str,
        protocol: &str,
    ) -> (r: String)
        ensures
            r@ == request_of(
                self.contents(),
                method@,
                path@,
                token@,
                body_of(body),
                header_views(extra_headers@),
                identity@,
                protocol@,
            ),
    {
        let sent = match body {
            Some(b) => b,
            None => "",
        };
        proof {
            reveal_strlit("");
            assert(""@ =~= Seq::<char>::empty());
        }
        let extra = header_text(extra_headers);
        let mut out = method.to_owned();
        out.append(" ");
        out.append(self.prefix.as_str());
        out.append(path);
        out.append(" HTTP/1.1\r\nHost: ");
        out.append(self.host_header.as_str());
        out.append("\r\nAuthorization: Bearer ");
        out.append(token);
        out.append("\r\nUser-Agent: brocade-agent/");
        out.append(identity);
        out.append("\r\nX-Brocade-Protocol-Version: ");
        out.append(protocol);
        out.append("\r\nAccept: application/json\r\nContent-Type: application/json\r\n");
        out.append(extra.as_str());
        out.append("Content-Length: ");
        numbers::push_decimal(&mut out, sent.len() as u64);
        out.append("\r\nConnection: close\r\n\r\n");
        out.append(sent);
        out
    }
}

/// What is sent as the body.
pub open spec fn body_of(body: Option<&str>) -> Seq<char> {
    match body {
        Some(b) => b@,
        None => seq![],
    }
}

/// The contents of a list of headers.
pub open spec fn header_views(headers: Seq<(String, String)>) -> Seq<(Seq<char>, Seq<char>)> {
    headers.map_values(|h: (String, String)| (h.0@, h.1@))
}

/// Headers as they stand on the wire.
pub open spec fn header_lines(headers: Seq<(Seq<char>, Seq<char>)>) -> Seq<char>
    decreases headers.len(),
{
    if headers.len() == 0 {
        seq![]
    } else {
        header_lines(headers.drop_last()) + headers.last().0 + ": "@ + headers.last().1 + "\r\n"@
    }
}

/// A request as it stands on the wire.
pub open spec fn request_of(
    client: ClientView,
    method: Seq<char>,
    path: Seq<char>,
    token: Seq<char>,
    body: Seq<char>,
    headers: Seq<(Seq<char>, Seq<char>)>,
    identity: Seq<char>,
    protocol: Seq<char>,
) -> Seq<char> {
    method + " "@ + client.prefix + path + " HTTP/1.1\r\nHost: "@ + client.host_header
        + "\r\nAuthorization: Bearer "@ + token + "\r\nUser-Agent: brocade-agent/"@ + identity
        + "\r\nX-Brocade-Protocol-Version: "@ + protocol
        + "\r\nAccept: application/json\r\nContent-Type: application/json\r\n"@ + header_lines(
        headers,
    ) + "Content-Length: "@ + numbers::decimal(
        (vstd::utf8::encode_utf8(body).len() as usize) as int,
    ) + "\r\nConnection: close\r\n\r\n"@ + body
}

fn header_text(headers: &[(String, String)]) -> (r: String)
    ensures
        r@ == header_lines(header_views(headers@)),
{
    let mut out = String::new();
    let mut i: usize = 0;
    while i < headers.len()
        invariant
            i <= headers.len(),
            out@ == header_lines(header_views(headers@).take(i as int)),
        decreases headers.len() - i,
    {
        assert(header_views(headers@).take(i + 1).drop_last() == header_views(headers@).take(
            i as int,
        ));
        out.append(headers[i].0.as_str());
        out.append(": ");
        out.append(headers[i].1.as_str());
        out.append("\r\n");
        i = i + 1;
    }
    assert(header_views(headers@).take(i as int) == header_views(headers@));
    out
}

/// A host is always named: no accepted URL leaves it empty.
pub proof fn lemma_accepted_host_is_named(base_url: Seq<char>)
    ensures
        client_of(base_url) matches Ok(c) ==> c.host.len() > 0,
{
}

/// Encryption follows from the scheme alone: an accepted URL is a TLS one
/// exactly where it starts with `https://`.
pub proof fn lemma_scheme_decides_tls(base_url: Seq<char>)
    ensures
        client_of(base_url) matches Ok(c) ==> c.tls == text::starts_with(base_url, "https://"@),
{
}

proof fn lemma_no_slash_is_left(s: Seq<char>)
    ensures
        without_slashes(s).len() > 0 ==> without_slashes(s).last() != '/',
    decreases s.len(),
{
    if s.len() > 0 && s.last() == '/' {
        lemma_no_slash_is_left(s.drop_last());
    }
}

/// What goes in front of a request path is nothing, or begins with a slash and does not
/// end with one: joined with a path it never makes two slashes out of one.
pub proof fn lemma_prefix_never_ends_in_a_slash(base_url: Seq<char>)
    ensures
        client_of(base_url) matches Ok(c) ==> c.prefix.len() == 0 || (c.prefix[0] == '/'
            && c.prefix.last() != '/'),
{
    reveal_strlit("/");
    assert forall|path: Seq<char>|
        (#[trigger] prefix_of(path)).len() == 0 || (prefix_of(path)[0] == '/' && prefix_of(
            path,
        ).last() != '/') by {
        lemma_no_slash_is_left(path);
        let kept = without_slashes(path);
        if kept.len() > 0 {
            assert(prefix_of(path).last() == kept.last());
        }
    }
}

/// What is said where no address of a host could be connected to. `last` is the
/// error of the last attempt; there is none where the name has no address.
pub fn connect_failure(host: &str, port: u16, last: Option<&str>) -> (r: String)
    ensures
        r@ == match last {
            Some(error) => "connect "@ + host@ + ":"@ + numbers::decimal(port as int) + " failed: "@
                + error@,
            None => "resolve "@ + host@ + ":"@ + numbers::decimal(port as int)
                + " returned no addresses"@,
        },
{
    match last {
        Some(error) => {
            let mut e = "connect ".to_owned();
            e.append(host);
            e.append(":");
            numbers::push_decimal(&mut e, port as u64);
            e.append(" failed: ");
            e.append(error);
            e
        },
        None => {
            let mut e = "resolve ".to_owned();
            e.append(host);
            e.append(":");
            numbers::push_decimal(&mut e, port as u64);
            e.append(" returned no addresses");
            e
        },
    }
}

pub open spec fn too_long() -> Seq<char> {
    "HTTP response exceeds "@ + numbers::decimal(MAX_HTTP_RESPONSE_BYTES as int) + " byte limit"@
}

fn too_long_text() -> (r: String)
    ensures
        r@ == too_long(),
{
    let mut e = "HTTP response exceeds ".to_owned();
    numbers::push_decimal(&mut e, MAX_HTTP_RESPONSE_BYTES as u64);
    e.append(" byte limit");
    e
}

/// Adds what one read delivered to a response; refuses to grow it over the limit.
pub fn receive(raw: &mut Vec<u8>, read: &[u8]) -> (r: Result<(), String>)
    ensures
        match r {
            Ok(_) => old(raw)@.len() + read@.len() <= MAX_HTTP_RESPONSE_BYTES && final(raw)@ == old(
                raw,
            )@ + read@,
            Err(e) => old(raw)@.len() + read@.len() > MAX_HTTP_RESPONSE_BYTES && final(raw)@
                == old(raw)@ && e@ == (if old(raw)@.len() + read@.len() > usize::MAX {
                "HTTP response length overflow"@
            } else {
                too_long()
            }),
        },
{
    match raw.len().checked_add(read.len()) {
        None => Err("HTTP response length overflow".to_owned()),
        Some(n) => {
            if n > MAX_HTTP_RESPONSE_BYTES {
                return Err(too_long_text());
            }
            bytes::append(raw, read);
            Ok(())
        },
    }
}

/// A response: its status, its headers in the order of their lines, names in
/// lower case, and its decoded body.
#[derive(Debug, PartialEq, Eq)]
pub struct HttpResponse {
    pub status: u16,
    pub body: String,
    pub headers: Vec<(String, String)>,
}

/// The value of the last header at or before position `at` called `name`.
pub open spec fn header_at(
    headers: Seq<(Seq<char>, Seq<char>)>,
    name: Seq<char>,
    at: int,
) -> Option<Seq<char>>
    decreases at + 1,
{
    if at < 0 || at >= headers.len() {
        None
    } else if headers[at].0 == name {
        Some(headers[at].1)
    } else {
        header_at(headers, name, at - 1)
    }
}

/// The value of a header by its lower-case name: a later line wins.
pub open spec fn header_of(headers: Seq<(Seq<char>, Seq<char>)>, name: Seq<char>) -> Option<
    Seq<char>,
> {
    header_at(headers, name, headers.len() - 1)
}

fn look_up<'a>(headers: &'a Vec<(String, String)>, name: &[char]) -> (r: Option<&'a str>)
    ensures
        match r {
            Some(v) => header_of(header_views(headers@), name@) == Some(v@),
            None => header_of(header_views(headers@), name@) is None,
        },
{
    let mut i: usize = headers.len();
    while i > 0
        invariant
            i <= headers.len(),
            header_of(header_views(headers@), name@) == header_at(
                header_views(headers@),
                name@,
                i - 1,
            ),
        decreases i,
    {
        if text::same(name, headers[i - 1].0.as_str()) {
            return Some(headers[i - 1].1.as_str());
        }
        i = i - 1;
    }
    None
}

impl HttpResponse {
    /// The value of a header, whatever the case of its name.
    pub fn header(&self, name: &str) -> (r: Option<&str>)
        ensures
            match r {
                Some(v) => header_of(header_views(self.headers@), text::lower(name@)) == Some(v@),
                None => header_of(header_views(self.headers@), text::lower(name@)) is None,
            },
    {
        let chars = text::chars_of(name);
        let lowered = text::lowered(chars.as_slice());
        look_up(&self.headers, lowered.as_slice())
    }
}

/// The header that one line carries.
pub open spec fn header_line(line: Seq<char>) -> Option<(Seq<char>, Seq<char>)> {
    match text::split_once(line, ':') {
        Some((name, value)) => Some((text::lower(text::trim(name)), text::trim(value))),
        None => None,
    }
}

/// The headers that lines carry, in order.
pub open spec fn headers_in(lines: Seq<Seq<char>>) -> Seq<(Seq<char>, Seq<char>)>
    decreases lines.len(),
{
    if lines.len() == 0 {
        seq![]
    } else {
        let front = headers_in(lines.drop_last());
        match header_line(lines.last()) {
            Some(h) => front.push(h),
            None => front,
        }
    }
}

/// The status in a status line: its second word.
pub open spec fn status_of(head: Seq<char>) -> Result<u16, Seq<char>> {
    let lines = text::lines(head);
    if lines.len() == 0 || text::words(lines[0]).len() < 2 {
        Err("HTTP response missing status"@)
    } else {
        match numbers::as_u16(text::words(lines[0])[1]) {
            Some(status) => Ok(status),
            None => Err("HTTP response has invalid status"@),
        }
    }
}

/// The headers below a status line.
pub open spec fn headers_of(head: Seq<char>) -> Seq<(Seq<char>, Seq<char>)> {
    let lines = text::lines(head);
    if lines.len() == 0 {
        seq![]
    } else {
        headers_in(lines.skip(1))
    }
}

/// Whether a transfer encoding lists chunks, however that is spelt.
pub open spec fn names_chunked(value: Seq<char>) -> bool {
    exists|i: int|
        0 <= i < text::split_char(text::lower(value), ',').len() && text::trim(
            #[trigger] text::split_char(text::lower(value), ',')[i],
        ) == "chunked"@
}

/// Whether the body comes in chunks.
pub open spec fn is_chunked(headers: Seq<(Seq<char>, Seq<char>)>) -> bool {
    header_of(headers, "transfer-encoding"@) matches Some(value) && names_chunked(value)
}

/// Status and headers of a response head.
pub fn parse_head(head: &str) -> (r: Result<(u16, Vec<(String, String)>), String>)
    ensures
        match r {
            Ok(h) => status_of(head@) == Ok::<u16, Seq<char>>(h.0) && header_views(h.1@)
                == headers_of(head@),
            Err(e) => status_of(head@) == Err::<u16, Seq<char>>(e@),
        },
{
    let chars = text::chars_of(head);
    let lines = text::split_lines(chars.as_slice());
    let ghost all = text::views(lines@);
    assert(all.len() == lines@.len());
    if lines.len() == 0 {
        return Err("HTTP response missing status".to_owned());
    }
    let words = text::split_words(lines[0]);
    assert(text::views(words@).len() == words@.len());
    assert(all[0] == lines@[0]@);
    if words.len() < 2 {
        return Err("HTTP response missing status".to_owned());
    }
    assert(text::views(words@)[1] == words@[1]@);
    let status = match numbers::read_u16(words[1]) {
        Some(status) => status,
        None => {
            return Err("HTTP response has invalid status".to_owned());
        },
    };
    let mut headers: Vec<(String, String)> = Vec::new();
    let mut i: usize = 1;
    let ghost below = all.skip(1);
    while i < lines.len()
        invariant
            1 <= i <= lines.len(),
            all == text::views(lines@),
            below == all.skip(1),
            header_views(headers@) == headers_in(below.take(i - 1)),
        decreases lines.len() - i,
    {
        assert(below.take(i as int).drop_last() == below.take(i - 1));
        assert(below.take(i as int).last() == lines@[i as int]@);
        match text::cut_once(lines[i], ':') {
            Some((name, value)) => {
                let lowered = text::lowered(text::trimmed(name));
                let entry = (
                    text::string_of(lowered.as_slice()),
                    text::string_of(text::trimmed(value)),
                );
                let ghost before = headers@;
                headers.push(entry);
                assert(header_views(headers@) == header_views(before).push((entry.0@, entry.1@)));
            },
            None => {},
        }
        i = i + 1;
    }
    assert(below.take(i - 1) == below);
    Ok((status, headers))
}

fn lists_chunked(value: &str) -> (r: bool)
    ensures
        r == names_chunked(value@),
{
    let chars = text::chars_of(value);
    let lowered = text::lowered(chars.as_slice());
    let parts = text::split_at_char(lowered.as_slice(), ',');
    let ghost all = text::split_char(text::lower(value@), ',');
    let mut i: usize = 0;
    while i < parts.len()
        invariant
            i <= parts.len(),
            all == text::views(parts@),
            all == text::split_char(text::lower(value@), ','),
            forall|j: int| 0 <= j < i ==> text::trim(#[trigger] all[j]) != "chunked"@,
        decreases parts.len() - i,
    {
        assert(all[i as int] == parts@[i as int]@);
        if text::same(text::trimmed(parts[i]), "chunked") {
            assert(text::trim(text::split_char(text::lower(value@), ',')[i as int])
                == "chunked"@);
            return true;
        }
        i = i + 1;
    }
    false
}

/// Whether these headers announce a chunked body.
pub fn chunked(headers: &Vec<(String, String)>) -> (r: bool)
    ensures
        r == is_chunked(header_views(headers@)),
{
    let name = text::chars_of("transfer-encoding");
    match look_up(headers, name.as_slice()) {
        None => false,
        Some(value) => lists_chunked(value),
    }
}

/// The line ending of the protocol.
pub open spec fn crlf() -> Seq<u8> {
    seq![13u8, 10u8]
}

/// The size in a chunk's heading: hexadecimal, up to the first semicolon.
pub open spec fn chunk_size(line: Seq<char>) -> Result<int, numbers::NumberError> {
    let size_text = match text::split_once(line, ';') {
        Some((before, _)) => before,
        None => line,
    };
    numbers::parse_unsigned(text::trim(size_text), 16, usize::MAX as int)
}

pub open spec fn body_too_long() -> Seq<char> {
    "chunked response body exceeds "@ + numbers::decimal(MAX_HTTP_RESPONSE_BYTES as int)
        + " byte limit"@
}

/// What the chunks in `body` add to what is already `decoded`.
pub open spec fn decoded_chunks(body: Seq<u8>, decoded: Seq<u8>) -> Result<Seq<u8>, Seq<char>>
    decreases body.len(),
{
    match bytes::find_sub(body, crlf(), 0) {
        None => Err("chunked response missing chunk size"@),
        Some(k) => match bytes::utf8_text(body.take(k)) {
            Err(e) => Err(e),
            Ok(line) => match chunk_size(line) {
                Err(_) => Err("chunked response has invalid chunk size"@),
                Ok(size) => {
                    let rest = body.skip(k + 2);
                    if size == 0 {
                        Ok(decoded)
                    } else if decoded.len() + size > usize::MAX {
                        Err("chunked response body length overflow"@)
                    } else if decoded.len() + size > MAX_HTTP_RESPONSE_BYTES {
                        Err(body_too_long())
                    } else if rest.len() < size + 2 {
                        Err("chunked response ended inside a chunk"@)
                    } else if rest.subrange(size, size + 2) != crlf() {
                        Err("chunked response chunk missing trailing CRLF"@)
                    } else if 0 <= k && k + 2 <= body.len() && 0 < size {
                        decoded_chunks(rest.skip(size + 2), decoded + rest.take(size))
                    } else {
                        Ok(decoded)
                    }
                },
            },
        },
    }
}

/// The body that chunks carry. A body that is cut short is an error, never a
/// shorter body.
pub fn decode_chunked_body(body: &[u8]) -> (r: Result<Vec<u8>, String>)
    ensures
        match r {
            Ok(v) => decoded_chunks(body@, seq![]) == Ok::<Seq<u8>, Seq<char>>(v@),
            Err(e) => decoded_chunks(body@, seq![]) == Err::<Seq<u8>, Seq<char>>(e@),
        },
{
    let end: [u8; 2] = [13, 10];
    let mut decoded: Vec<u8> = Vec::new();
    let mut rest: &[u8] = body;
    assert(decoded@ =~= seq![]);
    assert(end@ =~= crlf());
    loop
        invariant
            end@ == crlf(),
            decoded@.len() <= MAX_HTTP_RESPONSE_BYTES,
            decoded_chunks(body@, seq![]) == decoded_chunks(rest@, decoded@),
        decreases rest@.len(),
    {
        let n: usize = rest.len();
        let k: usize = match bytes::find(rest, end.as_slice()) {
            None => {
                return Err("chunked response missing chunk size".to_owned());
            },
            Some(k) => k,
        };
        let heading = slice_subrange(rest, 0, k);
        assert(heading@ == rest@.take(k as int));
        let line = match bytes::from_utf8(vstd::slice::slice_to_vec(heading)) {
            Err(e) => {
                return Err(e);
            },
            Ok(line) => line,
        };
        let chars = text::chars_of(line.as_str());
        let size_text = match text::cut_once(chars.as_slice(), ';') {
            Some((before, _)) => before,
            None => chars.as_slice(),
        };
        let size: usize = match numbers::read_unsigned(
            text::trimmed(size_text),
            16,
            usize::MAX as u64,
        ) {
            Err(_) => {
                return Err("chunked response has invalid chunk size".to_owned());
            },
            Ok(size) => size as usize,
        };
        let after = slice_subrange(rest, k + 2, n);
        assert(after@ == rest@.skip(k + 2));
        if size == 0 {
            return Ok(decoded);
        }
        let new_len: usize = match decoded.len().checked_add(size) {
            None => {
                return Err("chunked response body length overflow".to_owned());
            },
            Some(new_len) => new_len,
        };
        if new_len > MAX_HTTP_RESPONSE_BYTES {
            let mut e = "chunked response body exceeds ".to_owned();
            numbers::push_decimal(&mut e, MAX_HTTP_RESPONSE_BYTES as u64);
            e.append(" byte limit");
            return Err(e);
        }
        let m: usize = after.len();
        if m < size + 2 {
            return Err("chunked response ended inside a chunk".to_owned());
        }
        let chunk = slice_subrange(after, 0, size);
        assert(chunk@ == after@.take(size as int));
        if !bytes::same_bytes(slice_subrange(after, size, size + 2), end.as_slice()) {
            return Err("chunked response chunk missing trailing CRLF".to_owned());
        }
        bytes::append(&mut decoded, chunk);
        rest = slice_subrange(after, size + 2, m);
        assert(rest@ == after@.skip(size + 2));
    }
}

/// A chunk heading that announces `size` bytes.
pub open spec fn announces(heading: Seq<u8>, size: int) -> bool {
    &&& vstd::utf8::valid_utf8(heading)
    &&& chunk_size(vstd::utf8::decode_utf8(heading)) == Ok::<int, numbers::NumberError>(size)
    &&& ends_nowhere(heading)
}

/// Whether no line end stands in a heading.
pub open spec fn ends_nowhere(heading: Seq<u8>) -> bool {
    forall|j: int| !(#[trigger] bytes::stands_at(heading, crlf(), j))
}

/// Chunks on the wire: heading and data of each, the heading `last` that ends
/// them, and `tail` behind it.
pub open spec fn framed(parts: Seq<(Seq<u8>, Seq<u8>)>, last: Seq<u8>, tail: Seq<u8>) -> Seq<u8>
    decreases parts.len(),
{
    if parts.len() == 0 {
        last + crlf() + tail
    } else {
        parts[0].0 + crlf() + parts[0].1 + crlf() + framed(parts.skip(1), last, tail)
    }
}

/// The data of all chunks, in order.
pub open spec fn payload(parts: Seq<(Seq<u8>, Seq<u8>)>) -> Seq<u8>
    decreases parts.len(),
{
    if parts.len() == 0 {
        seq![]
    } else {
        parts[0].1 + payload(parts.skip(1))
    }
}

/// Every chunk is announced by its heading and not empty.
pub open spec fn well_framed(parts: Seq<(Seq<u8>, Seq<u8>)>) -> bool {
    forall|i: int|
        0 <= i < parts.len() ==> (#[trigger] parts[i]).1.len() > 0 && announces(
            parts[i].0,
            parts[i].1.len() as int,
        )
}

proof fn lemma_heading_ends(heading: Seq<u8>, rest: Seq<u8>)
    requires
        ends_nowhere(heading),
    ensures
        bytes::find_sub(heading + crlf() + rest, crlf(), 0) == Some(heading.len() as int),
{
    let s = heading + crlf() + rest;
    let k = heading.len() as int;
    assert(s.subrange(k, k + 2) =~= crlf());
    assert forall|j: int| 0 <= j < k implies !bytes::stands_at(s, crlf(), j) by {
        if bytes::stands_at(s, crlf(), j) {
            assert(s.subrange(j, j + 2)[1] == s[j + 1]);
            if j + 1 < k {
                assert(heading.subrange(j, j + 2) =~= s.subrange(j, j + 2));
                assert(bytes::stands_at(heading, crlf(), j));
            } else {
                assert(s[k] == 13);
            }
        }
    }
    bytes::lemma_find_sub_at(s, crlf(), 0, k);
}

proof fn lemma_no_heading(heading: Seq<u8>, cut: Seq<u8>, from: int)
    requires
        0 <= from,
        cut.len() <= heading.len() + 1,
        ends_nowhere(heading),
        forall|j: int| 0 <= j < cut.len() && j < heading.len() ==> cut[j] == heading[j],
        cut.len() == heading.len() + 1 ==> cut.last() == 13,
    ensures
        bytes::find_sub(cut, crlf(), from) is None,
    decreases cut.len() + 1 - from,
{
    if from <= cut.len() {
        if bytes::stands_at(cut, crlf(), from) {
            assert(cut.subrange(from, from + 2)[1] == cut[from + 1]);
            if from + 1 < heading.len() {
                assert(heading.subrange(from, from + 2) =~= cut.subrange(from, from + 2));
                assert(bytes::stands_at(heading, crlf(), from));
            }
        }
        lemma_no_heading(heading, cut, from + 1);
    }
}

/// What was sent in chunks is what is received: chunks that announce their
/// sizes, within the limit, decode to their data in order.
pub proof fn lemma_chunks_come_back(
    parts: Seq<(Seq<u8>, Seq<u8>)>,
    last: Seq<u8>,
    tail: Seq<u8>,
    decoded: Seq<u8>,
)
    requires
        well_framed(parts),
        announces(last, 0),
        decoded.len() + payload(parts).len() <= MAX_HTTP_RESPONSE_BYTES,
    ensures
        decoded_chunks(framed(parts, last, tail), decoded) == Ok::<Seq<u8>, Seq<char>>(
            decoded + payload(parts),
        ),
    decreases parts.len(),
{
    let body = framed(parts, last, tail);
    if parts.len() == 0 {
        lemma_heading_ends(last, tail);
        assert(body.take(last.len() as int) =~= last);
        assert(decoded + payload(parts) =~= decoded);
    } else {
        let heading = parts[0].0;
        let chunk = parts[0].1;
        let size = chunk.len() as int;
        let next = framed(parts.skip(1), last, tail);
        let rest = chunk + crlf() + next;
        assert(body =~= heading + crlf() + rest);
        lemma_heading_ends(heading, rest);
        assert(body.take(heading.len() as int) =~= heading);
        assert(body.skip(heading.len() as int + 2) =~= rest);
        assert(rest.subrange(size, size + 2) =~= crlf());
        assert(rest.take(size) =~= chunk);
        assert(rest.skip(size + 2) =~= next);
        lemma_chunks_come_back(parts.skip(1), last, tail, decoded + chunk);
        assert(decoded + chunk + payload(parts.skip(1)) =~= decoded + payload(parts));
    }
}

/// A chunked body that is cut short anywhere before the end of its last heading
/// is an error; what was received of it never passes as a whole body.
pub proof fn lemma_truncation_is_an_error(
    parts: Seq<(Seq<u8>, Seq<u8>)>,
    last: Seq<u8>,
    decoded: Seq<u8>,
    n: int,
)
    requires
        well_framed(parts),
        announces(last, 0),
        0 <= n < framed(parts, last, seq![]).len(),
    ensures
        decoded_chunks(framed(parts, last, seq![]).take(n), decoded) is Err,
    decreases parts.len(),
{
    let body = framed(parts, last, seq![]);
    let cut = body.take(n);
    if parts.len() == 0 {
        lemma_no_heading(last, cut, 0);
    } else {
        let heading = parts[0].0;
        let chunk = parts[0].1;
        let size = chunk.len() as int;
        let next = framed(parts.skip(1), last, seq![]);
        let k = heading.len() as int;
        if n < k + 2 {
            lemma_no_heading(heading, cut, 0);
        } else {
            let whole_rest = chunk + crlf() + next;
            let rest = whole_rest.take(n - k - 2);
            assert(cut =~= heading + crlf() + rest);
            lemma_heading_ends(heading, rest);
            assert(cut.take(k) =~= heading);
            assert(cut.skip(k + 2) =~= rest);
            if rest.len() >= size + 2 {
                assert(rest.subrange(size, size + 2) =~= crlf());
                assert(rest.take(size) =~= chunk);
                assert(rest.skip(size + 2) =~= next.take(n - k - 2 - size - 2));
                lemma_truncation_is_an_error(
                    parts.skip(1),
                    last,
                    decoded + chunk,
                    n - k - 2 - size - 2,
                );
            }
        }
    }
}

/// Everything a response says.
pub struct ResponseView {
    pub status: u16,
    pub body: Seq<char>,
    pub headers: Seq<(Seq<char>, Seq<char>)>,
}

impl HttpResponse {
    pub open spec fn contents(self) -> ResponseView {
        ResponseView {
            status: self.status,
            body: self.body@,
            headers: header_views(self.headers@),
        }
    }
}

/// A response with this head, and this behind it.
pub open spec fn response_with(head: Seq<char>, body: Seq<u8>) -> Result<ResponseView, Seq<char>> {
    match status_of(head) {
        Err(e) => Err(e),
        Ok(status) => {
            let headers = headers_of(head);
            let whole = if is_chunked(headers) {
                decoded_chunks(body, seq![])
            } else {
                Ok(body)
            };
            match whole {
                Err(e) => Err(e),
                Ok(decoded) => match bytes::utf8_text(decoded) {
                    Err(e) => Err(e),
                    Ok(body) => Ok(ResponseView { status, body, headers }),
                },
            }
        },
    }
}

/// The empty line that ends a head.
pub open spec fn head_end() -> Seq<u8> {
    seq![13u8, 10u8, 13u8, 10u8]
}

/// The response that bytes carry.
pub open spec fn response_of(raw: Seq<u8>) -> Result<ResponseView, Seq<char>> {
    if raw.len() > MAX_HTTP_RESPONSE_BYTES {
        Err(too_long())
    } else {
        match bytes::find_sub(raw, head_end(), 0) {
            None => Err("HTTP response missing header terminator"@),
            Some(k) => response_with(bytes::lossy(raw.take(k)), raw.skip(k + 4)),
        }
    }
}

/// The response with this head and body.
pub fn assemble_response(head: &str, body: &[u8]) -> (r: Result<HttpResponse, String>)
    ensures
        match r {
            Ok(v) => response_with(head@, body@) == Ok::<ResponseView, Seq<char>>(v.contents()),
            Err(e) => response_with(head@, body@) == Err::<ResponseView, Seq<char>>(e@),
        },
{
    match parse_head(head) {
        Err(e) => Err(e),
        Ok((status, headers)) => {
            let decoded = if chunked(&headers) {
                match decode_chunked_body(body) {
                    Err(e) => {
                        return Err(e);
                    },
                    Ok(decoded) => decoded,
                }
            } else {
                vstd::slice::slice_to_vec(body)
            };
            match bytes::from_utf8(decoded) {
                Err(e) => Err(e),
                Ok(body) => Ok(HttpResponse { status, body, headers }),
            }
        },
    }
}

/// The response that bytes carry.
pub fn parse_http_response(raw: &[u8]) -> (r: Result<HttpResponse, String>)
    ensures
        match r {
            Ok(v) => response_of(raw@) == Ok::<ResponseView, Seq<char>>(v.contents()),
            Err(e) => response_of(raw@) == Err::<ResponseView, Seq<char>>(e@),
        },
{
    let n: usize = raw.len();
    if n > MAX_HTTP_RESPONSE_BYTES {
        return Err(too_long_text());
    }
    let end: [u8; 4] = [13, 10, 13, 10];
    assert(end@ =~= head_end());
    match bytes::find(raw, end.as_slice()) {
        None => Err("HTTP response missing header terminator".to_owned()),
        Some(k) => {
            let head_bytes = slice_subrange(raw, 0, k);
            let body = slice_subrange(raw, k + 4, n);
            assert(head_bytes@ == raw@.take(k as int));
            assert(body@ == raw@.skip(k + 4));
            let head = bytes::from_utf8_lossy(head_bytes);
            assemble_response(head.as_str(), body)
        },
    }
}

/// Of several headers with one name the last counts, and there is none exactly where no header
/// has the name.
pub proof fn lemma_last_header_counts(headers: Seq<(Seq<char>, Seq<char>)>, name: Seq<char>, at: int)
    requires
        at < headers.len(),
    ensures
        match header_at(headers, name, at) {
            Some(value) => exists|k: int|
                0 <= k <= at && #[trigger] headers[k] == (name, value) && forall|j: int|
                    k < j <= at ==> (#[trigger] headers[j]).0 != name,
            None => forall|j: int| 0 <= j <= at ==> (#[trigger] headers[j]).0 != name,
        },
    decreases at + 1,
{
    if at >= 0 && headers[at].0 != name {
        lemma_last_header_counts(headers, name, at - 1);
    } else if at >= 0 {
        assert(headers[at] == (name, headers[at].1));
    }
}

/// A server is reached where its URL says: at the host and the port that are written, or at the
/// scheme's own port where none is, and with TLS exactly where the scheme asks for it. The port
/// is told to the server exactly where it is another than the scheme's own.
pub proof fn lemma_server_is_reached_where_its_url_says(host: Seq<char>, port: u16)
    requires
        host.len() > 0,
        forall|i: int|
            0 <= i < host.len() ==> #[trigger] host[i] != ':' && host[i] != '/' && host[i] != '['
                && host[i] != ']',
    ensures
        client_of("https://"@ + host) == Ok::<ClientView, Seq<char>>(
            ClientView { host, port: 443, host_header: host, prefix: seq![], tls: true },
        ),
        client_of("http://"@ + host) == Ok::<ClientView, Seq<char>>(
            ClientView { host, port: 80, host_header: host, prefix: seq![], tls: false },
        ),
        client_of("https://"@ + host + ":"@ + numbers::decimal(port as int)) == Ok::<
            ClientView,
            Seq<char>,
        >(
            ClientView {
                host,
                port,
                host_header: if port == 443 {
                    host
                } else {
                    host + ":"@ + numbers::decimal(port as int)
                },
                prefix: seq![],
                tls: true,
            },
        ),
        client_of("http://"@ + host + ":"@ + numbers::decimal(port as int)) == Ok::<
            ClientView,
            Seq<char>,
        >(
            ClientView {
                host,
                port,
                host_header: if port == 80 {
                    host
                } else {
                    host + ":"@ + numbers::decimal(port as int)
                },
                prefix: seq![],
                tls: false,
            },
        ),
{
    let digits = numbers::decimal(port as int);
    let full = host + ":"@ + digits;
    assert("https://"@ + host + ":"@ + digits =~= "https://"@ + full);
    assert("http://"@ + host + ":"@ + digits =~= "http://"@ + full);
    lemma_behind_scheme(host);
    lemma_behind_scheme(full);
    lemma_authority_reads_back("https://"@ + host, host, port, 443);
    lemma_authority_reads_back("http://"@ + host, host, port, 80);
    lemma_authority_reads_back("https://"@ + full, host, port, 443);
    lemma_authority_reads_back("http://"@ + full, host, port, 80);
    assert(prefix_of(seq![]) =~= Seq::<char>::empty());
}

proof fn lemma_behind_scheme(rest: Seq<char>)
    ensures
        text::strip_prefix("https://"@ + rest, "https://"@) == Some(rest),
        text::strip_prefix("http://"@ + rest, "http://"@) == Some(rest),
        text::strip_prefix("http://"@ + rest, "https://"@) is None,
{
    reveal_strlit("https://");
    reveal_strlit("http://");
    let (secured, plain) = ("https://"@ + rest, "http://"@ + rest);
    assert(secured.subrange(0, 8) =~= "https://"@);
    assert(secured.skip(8) =~= rest);
    assert(plain.subrange(0, 7) =~= "http://"@);
    assert(plain.skip(7) =~= rest);
    if text::stands_at(plain, "https://"@, 0) {
        assert(plain.subrange(0, 8)[4] == 's');
        assert(plain[4] == ':');
    }
}

proof fn lemma_authority_reads_back(base_url: Seq<char>, host: Seq<char>, port: u16, own: u16)
    requires
        host.len() > 0,
        forall|i: int|
            0 <= i < host.len() ==> #[trigger] host[i] != ':' && host[i] != '/' && host[i] != '['
                && host[i] != ']',
    ensures
        ({
            let full = host + ":"@ + numbers::decimal(port as int);
            &&& text::split_once(host, '/') is None
            &&& text::split_once(full, '/') is None
            &&& authority_of(base_url, host, own) == Ok::<(Seq<char>, u16, Seq<char>), Seq<char>>(
                (host, own, host),
            )
            &&& authority_of(base_url, full, own) == Ok::<(Seq<char>, u16, Seq<char>), Seq<char>>(
                (
                    host,
                    port,
                    if port == own {
                        host
                    } else {
                        full
                    },
                ),
            )
        }),
{
    reveal_strlit(":");
    let digits = numbers::decimal(port as int);
    let full = host + ":"@ + digits;
    let at = host.len() as int;
    numbers::lemma_decimal_digits(port as int);
    numbers::lemma_parse_decimal(port as int, u16::MAX as int);
    assert forall|j: int| 0 <= j < full.len() implies full[j] != '/' && full[j] != ']' && full[j]
        != '[' by {
        if j > at {
            assert(full[j] == digits[j - at - 1]);
        }
    }
    text::lemma_find_char(host, '/', 0);
    text::lemma_find_char(full, '/', 0);
    text::lemma_find_char(host, ']', 0);
    text::lemma_find_char(full, ']', 0);
    text::lemma_find_char(host, ':', 0);
    text::lemma_rfind_char(host, ':', at);
    text::lemma_rfind_char(full, ':', full.len() as int);
    assert(full[at] == ':');
    assert forall|j: int| at < j < full.len() implies full[j] != ':' by {
        assert(full[j] == digits[j - at - 1]);
    }
    assert(text::rfind_char(full, ':', full.len() as int) == Some(at));
    assert(full.take(at) =~= host);
    assert(full.skip(at + 1) =~= digits);
}

/// Whether a request says something on a line of its own.
pub open spec fn has_line(request: Seq<char>, line: Seq<char>) -> bool {
    exists|at: int| #[trigger] text::stands_at(request, "\r\n"@ + line + "\r\n"@, at)
}

proof fn lemma_still_stands(s: Seq<char>, more: Seq<char>, pat: Seq<char>, at: int)
    requires
        text::stands_at(s, pat, at),
    ensures
        text::stands_at(s + more, pat, at),
{
    assert((s + more).subrange(at, at + pat.len()) =~= pat);
}

proof fn lemma_line_stands(
    before: Seq<char>,
    nl: Seq<char>,
    key: Seq<char>,
    value: Seq<char>,
    behind: Seq<char>,
)
    ensures
        text::stands_at(
            before + (nl + key) + value + (nl + behind),
            nl + (key + value) + nl,
            before.len() as int,
        ),
{
    let all = before + (nl + key) + value + (nl + behind);
    let piece = nl + (key + value) + nl;
    let at = before.len() as int;
    assert(all.subrange(at, at + piece.len()) =~= piece);
}

proof fn lemma_header_lines_end(headers: Seq<(Seq<char>, Seq<char>)>, before: Seq<char>)
    requires
        text::ends_with(before, "\r\n"@),
    ensures
        text::ends_with(before + header_lines(headers), "\r\n"@),
{
    let all = before + header_lines(headers);
    let at = all.len() - "\r\n"@.len();
    if headers.len() == 0 {
        assert(all =~= before);
    } else {
        assert(all.subrange(at, at + "\r\n"@.len()) =~= "\r\n"@);
    }
}

/// A request asks for the path below the server's prefix, names the host, carries the token,
/// says how long its body is in UTF-8, and ends with it.
pub proof fn lemma_request_carries_what_it_needs(
    client: ClientView,
    method: Seq<char>,
    path: Seq<char>,
    token: Seq<char>,
    body: Seq<char>,
    headers: Seq<(Seq<char>, Seq<char>)>,
    identity: Seq<char>,
    protocol: Seq<char>,
)
    ensures
        ({
            let request = request_of(
                client,
                method,
                path,
                token,
                body,
                headers,
                identity,
                protocol,
            );
            &&& text::starts_with(request, method + " "@ + client.prefix + path + " HTTP/1.1\r\n"@)
            &&& has_line(request, "Host: "@ + client.host_header)
            &&& has_line(request, "Authorization: Bearer "@ + token)
            &&& has_line(request, "X-Brocade-Protocol-Version: "@ + protocol)
            &&& has_line(
                request,
                "Content-Length: "@ + numbers::decimal(
                    (vstd::utf8::encode_utf8(body).len() as usize) as int,
                ),
            )
            &&& text::ends_with(request, "\r\n\r\n"@ + body)
        }),
{
    lemma_request_pieces();
    let nl = "\r\n"@;
    let (http, close, blank) = (" HTTP/1.1"@, "Connection: close"@, "\r\n\r\n"@);
    let (host, bearer) = ("Host: "@, "Authorization: Bearer "@);
    let (agent, version) = ("User-Agent: brocade-agent/"@, "X-Brocade-Protocol-Version: "@);
    let accept = "Accept: application/json\r\nContent-Type: application/json\r\n"@;
    let length = "Content-Length: "@;
    let count = numbers::decimal((vstd::utf8::encode_utf8(body).len() as usize) as int);
    let first = method + " "@ + client.prefix + path;
    let a1 = first + " HTTP/1.1\r\nHost: "@;
    assert(a1 =~= first + http + (nl + host));
    let a2 = a1 + client.host_header + (nl + bearer);
    let a3 = a2 + token + (nl + agent);
    let a4 = a3 + identity + (nl + version);
    let a5 = a4 + protocol + (nl + accept);
    let a6 = a5 + header_lines(headers);
    let a7 = a6 + length + count + (nl + close + blank);
    assert(text::stands_at(a1, first + " HTTP/1.1\r\n"@, 0)) by {
        let head = first + " HTTP/1.1\r\n"@;
        assert(a1.subrange(0, head.len() as int) =~= head);
    }
    lemma_line_stands(first + http, nl, host, client.host_header, bearer);
    lemma_line_stands(a1 + client.host_header, nl, bearer, token, agent);
    lemma_line_stands(a3 + identity, nl, version, protocol, accept);
    assert(text::ends_with(a5, nl)) by {
        reveal_strlit("\r\n");
        reveal_strlit("Accept: application/json\r\nContent-Type: application/json\r\n");
        assert(a5.subrange(a5.len() - 2, a5.len() as int) =~= nl);
    }
    lemma_header_lines_end(headers, a5);
    let before = a6.take(a6.len() - nl.len());
    assert(a6 =~= before + nl) by {
        assert(a6.subrange(a6.len() - nl.len(), a6.len() as int) =~= nl);
    }
    assert(a7 =~= before + (nl + length) + count + (nl + (close + blank)));
    lemma_line_stands(before, nl, length, count, close + blank);
    let lines = (
        first + " HTTP/1.1\r\n"@,
        nl + (host + client.host_header) + nl,
        nl + (bearer + token) + nl,
        nl + (version + protocol) + nl,
    );
    let at1 = (first + http).len() as int;
    let at2 = (a1 + client.host_header).len() as int;
    let at3 = (a3 + identity).len() as int;
    lemma_still_stands_twice(a1, client.host_header, nl + bearer, lines.0, 0);
    lemma_still_stands_twice(a2, token, nl + agent, lines.0, 0);
    lemma_still_stands_twice(a2, token, nl + agent, lines.1, at1);
    lemma_still_stands_twice(a3, identity, nl + version, lines.0, 0);
    lemma_still_stands_twice(a3, identity, nl + version, lines.1, at1);
    lemma_still_stands_twice(a3, identity, nl + version, lines.2, at2);
    lemma_still_stands_twice(a4, protocol, nl + accept, lines.0, 0);
    lemma_still_stands_twice(a4, protocol, nl + accept, lines.1, at1);
    lemma_still_stands_twice(a4, protocol, nl + accept, lines.2, at2);
    let tail = nl + close + blank;
    lemma_rest_keeps(a5, header_lines(headers), length, count, tail, body, lines.0, 0);
    lemma_rest_keeps(a5, header_lines(headers), length, count, tail, body, lines.1, at1);
    lemma_rest_keeps(a5, header_lines(headers), length, count, tail, body, lines.2, at2);
    lemma_rest_keeps(a5, header_lines(headers), length, count, tail, body, lines.3, at3);
    lemma_still_stands(a7, body, nl + (length + count) + nl, before.len() as int);
    let request = request_of(client, method, path, token, body, headers, identity, protocol);
    assert(request == a7 + body);
    let end = blank + body;
    let at = request.len() - end.len();
    assert(request.subrange(at, at + end.len()) =~= end);
}

proof fn lemma_still_stands_twice(
    s: Seq<char>,
    more: Seq<char>,
    last: Seq<char>,
    pat: Seq<char>,
    at: int,
)
    requires
        text::stands_at(s, pat, at),
    ensures
        text::stands_at(s + more + last, pat, at),
{
    lemma_still_stands(s, more, pat, at);
    lemma_still_stands(s + more, last, pat, at);
}

proof fn lemma_rest_keeps(
    s: Seq<char>,
    lines: Seq<char>,
    length: Seq<char>,
    count: Seq<char>,
    tail: Seq<char>,
    body: Seq<char>,
    pat: Seq<char>,
    at: int,
)
    requires
        text::stands_at(s, pat, at),
    ensures
        text::stands_at(s + lines + length + count + tail + body, pat, at),
{
    lemma_still_stands_twice(s, lines, length, pat, at);
    lemma_still_stands_twice(s + lines + length, count, tail, pat, at);
    lemma_still_stands(s + lines + length + count + tail, body, pat, at);
}

proof fn lemma_request_pieces()
    ensures
        " HTTP/1.1\r\nHost: "@ == " HTTP/1.1"@ + "\r\n"@ + "Host: "@,
        " HTTP/1.1\r\n"@ == " HTTP/1.1"@ + "\r\n"@,
        "\r\nAuthorization: Bearer "@ == "\r\n"@ + "Authorization: Bearer "@,
        "\r\nUser-Agent: brocade-agent/"@ == "\r\n"@ + "User-Agent: brocade-agent/"@,
        "\r\nX-Brocade-Protocol-Version: "@ == "\r\n"@ + "X-Brocade-Protocol-Version: "@,
        "\r\nAccept: application/json\r\nContent-Type: application/json\r\n"@ == "\r\n"@
            + "Accept: application/json\r\nContent-Type: application/json\r\n"@,
        "\r\nConnection: close\r\n\r\n"@ == "\r\n"@ + "Connection: close"@ + "\r\n\r\n"@,
{
    reveal_strlit(" HTTP/1.1\r\nHost: ");
    reveal_strlit(" HTTP/1.1\r\n");
    reveal_strlit(" HTTP/1.1");
    reveal_strlit("\r\n");
    reveal_strlit("Host: ");
    reveal_strlit("\r\nAuthorization: Bearer ");
    reveal_strlit("Authorization: Bearer ");
    reveal_strlit("\r\nUser-Agent: brocade-agent/");
    reveal_strlit("User-Agent: brocade-agent/");
    reveal_strlit("\r\nX-Brocade-Protocol-Version: ");
    reveal_strlit("X-Brocade-Protocol-Version: ");
    reveal_strlit("\r\nAccept: application/json\r\nContent-Type: application/json\r\n");
    reveal_strlit("Accept: application/json\r\nContent-Type: application/json\r\n");
    reveal_strlit("\r\nConnection: close\r\n\r\n");
    reveal_strlit("Connection: close");
    reveal_strlit("\r\n\r\n");
}

/// A bracketed address is reached at its address without the brackets, and named with them.
pub proof fn lemma_bracketed_address_reads_back(host: Seq<char>, port: u16, tls: bool)
    requires
        host.len() > 0,
        forall|i: int| 0 <= i < host.len() ==> #[trigger] host[i] != '/' && host[i] != ']',
    ensures
        ({
            let scheme = if tls {
                "https://"@
            } else {
                "http://"@
            };
            let own: u16 = if tls {
                443
            } else {
                80
            };
            let named = "["@ + host + "]"@;
            let told = named + ":"@ + numbers::decimal(port as int);
            &&& client_of(scheme + named) == Ok::<ClientView, Seq<char>>(
                ClientView { host, port: own, host_header: named, prefix: seq![], tls },
            )
            &&& client_of(scheme + told) == Ok::<ClientView, Seq<char>>(
                ClientView {
                    host,
                    port,
                    host_header: if port == own {
                        named
                    } else {
                        told
                    },
                    prefix: seq![],
                    tls,
                },
            )
        }),
{
    reveal_strlit("[");
    reveal_strlit("]");
    reveal_strlit(":");
    let digits = numbers::decimal(port as int);
    let named = "["@ + host + "]"@;
    let told = named + ":"@ + digits;
    let end = host.len() as int + 1;
    numbers::lemma_decimal_digits(port as int);
    numbers::lemma_parse_decimal(port as int, u16::MAX as int);
    assert forall|j: int| 0 <= j < told.len() implies #[trigger] told[j] != '/' && (j != end
        ==> told[j] != ']') && (j < named.len() ==> told[j] == named[j]) by {
        if 0 < j < end {
            assert(told[j] == host[j - 1]);
        } else if j > end + 1 {
            assert(told[j] == digits[j - end - 2]);
        }
    }
    assert forall|j: int| 0 <= j < named.len() implies #[trigger] named[j] != '/' && (j != end
        ==> named[j] != ']') by {
        assert(told[j] == named[j]);
    }
    text::lemma_find_char_at(named, ']', 0, end);
    text::lemma_find_char_at(told, ']', 0, end);
    text::lemma_find_char(named, '/', 0);
    text::lemma_find_char(told, '/', 0);
    assert(named.subrange(1, end) =~= host);
    assert(told.subrange(1, end) =~= host);
    assert(named.skip(end + 1) =~= Seq::<char>::empty());
    assert(told.skip(end + 1) =~= ":"@ + digits);
    assert((":"@ + digits).skip(1) =~= digits);
    lemma_behind_scheme(named);
    lemma_behind_scheme(told);
    assert(prefix_of(seq![]) =~= Seq::<char>::empty());
}

/// A path in a server's URL goes in front of every request's, without the slashes at its end.
pub proof fn lemma_path_goes_in_front(host: Seq<char>, path: Seq<char>)
    requires
        host.len() > 0,
        forall|i: int|
            0 <= i < host.len() ==> #[trigger] host[i] != ':' && host[i] != '/' && host[i] != '['
                && host[i] != ']',
        path.len() > 0,
        path.last() != '/',
    ensures
        client_of("https://"@ + (host + "/"@ + path)) == Ok::<ClientView, Seq<char>>(
            ClientView { host, port: 443, host_header: host, prefix: "/"@ + path, tls: true },
        ),
        client_of("https://"@ + (host + "/"@ + path + "/"@)) == client_of(
            "https://"@ + (host + "/"@ + path),
        ),
        client_of("http://"@ + (host + "/"@ + path)) == Ok::<ClientView, Seq<char>>(
            ClientView { host, port: 80, host_header: host, prefix: "/"@ + path, tls: false },
        ),
        client_of("http://"@ + (host + "/"@ + path + "/"@)) == client_of(
            "http://"@ + (host + "/"@ + path),
        ),
{
    reveal_strlit("/");
    let at = host.len() as int;
    let (bare, slashed) = (host + "/"@ + path, host + "/"@ + path + "/"@);
    assert(bare[at] == '/' && slashed[at] == '/');
    text::lemma_find_char_at(bare, '/', 0, at);
    text::lemma_find_char_at(slashed, '/', 0, at);
    assert(bare.take(at) =~= host && slashed.take(at) =~= host);
    assert(bare.skip(at + 1) =~= path);
    assert(slashed.skip(at + 1) =~= path + "/"@);
    assert((path + "/"@).drop_last() =~= path);
    reveal_with_fuel(without_slashes, 2);
    lemma_behind_scheme(bare);
    lemma_behind_scheme(slashed);
    lemma_authority_reads_back("https://"@ + bare, host, 0, 443);
    lemma_authority_reads_back("https://"@ + slashed, host, 0, 443);
    lemma_authority_reads_back("http://"@ + bare, host, 0, 80);
    lemma_authority_reads_back("http://"@ + slashed, host, 0, 80);
}

/// A header reads back as its name in small letters and its value.
pub proof fn lemma_header_reads_back(name: Seq<char>, value: Seq<char>)
    requires
        !name.contains(':'),
        text::trim(name) == name,
        text::trim(value) == value,
    ensures
        header_line(name + ": "@ + value) == Some((text::lower(name), value)),
        header_line(name) is None,
{
    reveal_strlit(": ");
    let line = name + ": "@ + value;
    let at = name.len() as int;
    assert(line[at] == ':');
    assert forall|j: int| 0 <= j < at implies #[trigger] line[j] != ':' && name[j] != ':' by {
        assert(line[j] == name[j]);
        assert(name.contains(name[j]));
    }
    text::lemma_find_char_at(line, ':', 0, at);
    text::lemma_find_char(name, ':', 0);
    assert(line.take(at) =~= name);
    let behind = line.skip(at + 1);
    assert(behind =~= seq![' '] + value);
    assert(behind.skip(1) =~= value);
    assert(text::is_space(behind[0]));
    assert(text::trim_start(behind) == text::trim_start(value));
}

/// A response says its status behind its version, and its headers on the lines below.
pub proof fn lemma_status_line_reads_back(
    version: Seq<char>,
    status: u16,
    reason: Seq<char>,
    rest: Seq<char>,
)
    requires
        text::is_word(version),
        text::is_word(reason),
    ensures
        ({
            let first = text::join(
                seq![version, numbers::decimal(status as int), reason],
                seq![' '],
            );
            let head = first + "\r\n"@ + rest;
            &&& status_of(head) == Ok::<u16, Seq<char>>(status)
            &&& headers_of(head) == headers_in(text::lines(rest))
        }),
{
    let digits = numbers::decimal(status as int);
    let pieces = seq![version, digits, reason];
    let first = text::join(pieces, seq![' ']);
    let head = first + "\r\n"@ + rest;
    let at = first.len() as int + 1;
    reveal_strlit("\r\n");
    numbers::lemma_decimal_digits(status as int);
    numbers::lemma_parse_decimal(status as int, u16::MAX as int);
    assert forall|i: int| 0 <= i < pieces.len() implies text::is_word(#[trigger] pieces[i]) by {
        assert(i == 0 || i == 1 || i == 2);
        assert(text::is_word(digits));
    }
    text::lemma_spaced_words(pieces);
    text::lemma_joined_words_hold_no_break(pieces);
    assert forall|j: int| 0 <= j < at implies #[trigger] head[j] != '\n' by {
        if j < first.len() {
            assert(head[j] == first[j]);
        }
    }
    assert(head[at] == '\n');
    text::lemma_find_char_at(head, '\n', 0, at);
    let line = head.take(at);
    assert(line =~= first + seq!['\r']);
    assert(line.drop_last() =~= first);
    assert(head.skip(at + 1) =~= rest);
    assert(text::lines(head) == seq![first] + text::lines(rest));
    assert(text::lines(head)[0] == first);
    assert(text::lines(head).skip(1) =~= text::lines(rest));
    assert(text::words(first)[1] == digits);
}

/// Every header of a response is read, and nothing else is.
pub proof fn lemma_headers_are_what_lines_carry(lines: Seq<Seq<char>>, header: (Seq<char>, Seq<char>))
    ensures
        headers_in(lines).contains(header) <==> exists|i: int|
            0 <= i < lines.len() && header_line(#[trigger] lines[i]) == Some(header),
    decreases lines.len(),
{
    if lines.len() > 0 {
        let front = lines.drop_last();
        let before = headers_in(front);
        let all = headers_in(lines);
        lemma_headers_are_what_lines_carry(front, header);
        assert forall|i: int| 0 <= i < front.len() implies front[i] == #[trigger] lines[i] by {}
        assert(lines.last() == lines[lines.len() - 1]);
        if before.contains(header) {
            let i = choose|i: int|
                0 <= i < front.len() && header_line(#[trigger] front[i]) == Some(header);
            assert(header_line(lines[i]) == Some(header));
            let k = choose|k: int| 0 <= k < before.len() && before[k] == header;
            assert(all[k] == header);
        }
        match header_line(lines.last()) {
            Some(last) => {
                assert(all == before.push(last));
                assert(all[before.len() as int] == last);
                if all.contains(header) && !before.contains(header) {
                    let k = choose|k: int| 0 <= k < all.len() && all[k] == header;
                    assert(k < before.len() ==> before[k] == header);
                }
            },
            None => {},
        }
    }
}

/// A body that is not sent in chunks comes out as it is where it is UTF-8, with the status and
/// the headers of its head.
pub proof fn lemma_plain_body_comes_back(head: Seq<char>, body: Seq<char>, status: u16)
    requires
        status_of(head) == Ok::<u16, Seq<char>>(status),
        forall|i: int|
            0 <= i < headers_of(head).len() ==> (#[trigger] headers_of(head)[i]).0
                != "transfer-encoding"@,
    ensures
        response_with(head, vstd::utf8::encode_utf8(body)) == Ok::<ResponseView, Seq<char>>(
            ResponseView { status, body, headers: headers_of(head) },
        ),
{
    let headers = headers_of(head);
    if headers.len() > 0 {
        lemma_last_header_counts(headers, "transfer-encoding"@, headers.len() - 1);
    }
    vstd::utf8::encode_utf8_decode_utf8(body);
    vstd::utf8::encode_utf8_valid_utf8(body);
}

/// Chunks are announced however that is spelt, alone or behind others.
pub proof fn lemma_chunks_are_announced(before: Seq<Seq<char>>)
    requires
        forall|i: int|
            0 <= i < before.len() ==> !(#[trigger] before[i]).contains(',') && text::lower(before[i])
                == before[i],
    ensures
        names_chunked(text::join(before.push("chunked"@), seq![','])),
{
    let pieces = before.push("chunked"@);
    let value = text::join(pieces, seq![',']);
    reveal_strlit("chunked");
    assert forall|i: int| 0 <= i < pieces.len() implies !(#[trigger] pieces[i]).contains(',')
        && text::lower(pieces[i]) == pieces[i] by {
        if i == before.len() {
            assert(text::lower("chunked"@) =~= "chunked"@);
        } else {
            assert(pieces[i] == before[i]);
        }
    }
    lemma_joined_stays_lower(pieces);
    text::lemma_split_joined(pieces, ',', seq![',']);
    assert(text::split_char(text::lower(value), ',')[before.len() as int] == "chunked"@);
    text::lemma_trim_of_trimmed("chunked"@);
}

proof fn lemma_joined_stays_lower(pieces: Seq<Seq<char>>)
    requires
        forall|i: int| 0 <= i < pieces.len() ==> text::lower(#[trigger] pieces[i]) == pieces[i],
    ensures
        text::lower(text::join(pieces, seq![','])) == text::join(pieces, seq![',']),
    decreases pieces.len(),
{
    let whole = text::join(pieces, seq![',']);
    if pieces.len() > 0 {
        let front = pieces.drop_last();
        let last = pieces.last();
        assert(text::lower(pieces[pieces.len() - 1]) == last);
        assert forall|i: int| 0 <= i < front.len() implies text::lower(#[trigger] front[i])
            == front[i] by {
            assert(front[i] == pieces[i]);
        }
        lemma_joined_stays_lower(front);
        if front.len() > 0 {
            text::lemma_join_one_more(front, last, seq![',']);
            assert(front.push(last) =~= pieces);
            let before = text::join(front, seq![',']);
            assert(whole == before + seq![','] + last);
            assert forall|j: int| 0 <= j < whole.len() implies #[trigger] text::lower(whole)[j]
                == whole[j] by {
                if j < before.len() {
                    assert(text::lower(before)[j] == before[j]);
                } else if j > before.len() {
                    assert(text::lower(last)[j - before.len() - 1] == last[j - before.len() - 1]);
                }
            }
            assert(text::lower(whole) =~= whole);
        } else {
            assert(pieces =~= seq![last]);
            assert(whole =~= last);
        }
    } else {
        assert(text::lower(whole) =~= whole);
    }
}

} // verus!
