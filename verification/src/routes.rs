//! The addresses this machine is reached from, and where the proxy's databases are.
use vstd::prelude::*;
use vstd::string::*;

use crate::address::{parse_ip, Ip};
use crate::{address, http, paths, text};

verus! {

/// The header with the machine's IPv4 address.
pub const ROUTE_IPV4_HEADER: &'static str = "X-Brocade-Route-IPv4";

/// The header with the machine's IPv6 address.
pub const ROUTE_IPV6_HEADER: &'static str = "X-Brocade-Route-IPv6";

/// How long addresses are taken to be what they were, in nanoseconds.
pub const ROUTE_REPORT_TTL: u64 = 30_000_000_000;

/// The addresses that traffic leaves this machine from.
#[derive(Debug, PartialEq, Eq)]
pub struct RouteIpReport {
    pub ipv4: Option<String>,
    pub ipv6: Option<String>,
}

/// Whether addresses that were found some time ago are still used.
pub fn route_still_fresh(elapsed: u64) -> (r: bool)
    ensures
        r == (elapsed < ROUTE_REPORT_TTL),
{
    elapsed < ROUTE_REPORT_TTL
}

/// A header, where there is something to put in it.
pub open spec fn header_if(name: Seq<char>, value: Option<Seq<char>>) -> Seq<(Seq<char>, Seq<char>)> {
    match value {
        Some(v) => seq![(name, v)],
        None => seq![],
    }
}

/// The headers that tell the machine's addresses.
pub fn route_headers(route: &RouteIpReport) -> (r: Vec<(String, String)>)
    ensures
        http::header_views(r@) == header_if(ROUTE_IPV4_HEADER@, text::optional(route.ipv4))
            + header_if(ROUTE_IPV6_HEADER@, text::optional(route.ipv6)),
{
    let mut out: Vec<(String, String)> = Vec::new();
    if let Some(ipv4) = &route.ipv4 {
        out.push((ROUTE_IPV4_HEADER.to_owned(), ipv4.as_str().to_owned()));
    }
    if let Some(ipv6) = &route.ipv6 {
        out.push((ROUTE_IPV6_HEADER.to_owned(), ipv6.as_str().to_owned()));
    }
    assert(http::header_views(out@) =~= header_if(ROUTE_IPV4_HEADER@, text::optional(route.ipv4))
        + header_if(ROUTE_IPV6_HEADER@, text::optional(route.ipv6)));
    out
}

/// A family of addresses.
#[derive(Debug, Clone, Copy, PartialEq, Eq, Structural)]
pub enum RouteFamily {
    V4,
    V6,
}

/// The position of the first word `src` at or after `from`.
pub open spec fn src_at(words: Seq<Seq<char>>, from: int) -> Option<int>
    decreases words.len() - from,
{
    if from < 0 || from >= words.len() {
        None
    } else if words[from] == "src"@ {
        Some(from)
    } else {
        src_at(words, from + 1)
    }
}

/// Whether an address is of a family.
pub open spec fn of_family(ip: Ip, family: RouteFamily) -> bool {
    match ip {
        Ip::V4(_) => family == RouteFamily::V4,
        Ip::V6(_, _) => family == RouteFamily::V6,
    }
}

/// The address that a route leaves from: the word behind the first `src`, where it is
/// an address of the family.
pub open spec fn source_in(output: Seq<char>, family: RouteFamily) -> Option<Seq<char>> {
    let words = text::words(output);
    match src_at(words, 0) {
        None => None,
        Some(k) => if k + 1 < words.len() {
            match address::ip_literal(words[k + 1]) {
                Some(ip) => if of_family(ip, family) {
                    Some(words[k + 1])
                } else {
                    None
                },
                None => None,
            }
        } else {
            None
        },
    }
}

/// The address that a route leaves from, in what `ip route get` printed.
pub fn route_source_ip(output: Option<&str>, family: RouteFamily) -> (r: Option<String>)
    ensures
        text::optional(r) == (match output {
            Some(out) => source_in(out@, family),
            None => None,
        }),
{
    let printed = match output {
        Some(printed) => printed,
        None => {
            return None;
        },
    };
    let chars = text::chars_of(printed);
    let words = text::split_words(chars.as_slice());
    let ghost all = text::words(printed@);
    let n: usize = words.len();
    assert(text::views(words@).len() == words@.len());
    let mut i: usize = 0;
    while i < n
        invariant
            i <= n,
            n == words@.len(),
            text::views(words@) == all,
            all == text::words(printed@),
            all.len() == n,
            output == Some(printed),
            src_at(all, 0) == src_at(all, i as int),
        decreases n - i,
    {
        assert(text::views(words@)[i as int] == words@[i as int]@);
        if text::same(words[i], "src") {
            assert(src_at(all, 0) == Some(i as int));
            if n - i < 2 {
                return None;
            }
            assert(text::views(words@)[i + 1] == words@[i + 1]@);
            let value = words[i + 1];
            return match parse_ip(value) {
                Some(ip) => {
                    let fits = match family {
                        RouteFamily::V4 => ip.is_ipv4(),
                        RouteFamily::V6 => !ip.is_ipv4(),
                    };
                    if fits {
                        Some(text::string_of(value))
                    } else {
                        None
                    }
                },
                None => None,
            };
        }
        i = i + 1;
    }
    None
}

/// The proxy's program, in what the shell says of where it is.
pub fn which_xray(output: &str) -> (r: Result<String, String>)
    ensures
        match r {
            Ok(path) => path@ == text::trim(output@) && path@.len() > 0,
            Err(e) => text::trim(output@).len() == 0 && e@ == "xray 不在 PATH 里"@,
        },
{
    let chars = text::chars_of(output);
    let path = text::trimmed(chars.as_slice());
    if path.len() == 0 {
        Err("xray 不在 PATH 里".to_owned())
    } else {
        Ok(text::string_of(path))
    }
}

/// The directories that the proxy looks for its databases in, in its order: the one it
/// is told, the one its program is in, and three that are usual.
pub open spec fn asset_dirs(told: Option<Seq<char>>, program: Option<Seq<char>>) -> Seq<Seq<char>> {
    (match told {
        Some(dir) => if text::trim(dir).len() == 0 {
            seq![]
        } else {
            seq![dir]
        },
        None => seq![],
    }) + (match program {
        Some(path) => match paths::parent_in(path) {
            Some(dir) => seq![dir],
            None => seq![],
        },
        None => seq![],
    }) + seq!["/usr/local/share/xray"@, "/usr/share/xray"@, "/opt/share/xray"@]
}

/// The directories that the proxy looks for its databases in.
pub fn xray_asset_dirs(told: Option<&str>, program: Option<&str>) -> (r: Vec<String>)
    ensures
        text::string_views(r@) == asset_dirs(
            match told {
                Some(t) => Some(t@),
                None => None,
            },
            match program {
                Some(p) => Some(p@),
                None => None,
            },
        ),
{
    let mut out: Vec<String> = Vec::new();
    if let Some(dir) = told {
        let chars = text::chars_of(dir);
        if text::trimmed(chars.as_slice()).len() > 0 {
            out.push(dir.to_owned());
        }
    }
    if let Some(path) = program {
        if let Some(dir) = paths::parent(path) {
            out.push(dir);
        }
    }
    out.push("/usr/local/share/xray".to_owned());
    out.push("/usr/share/xray".to_owned());
    out.push("/opt/share/xray".to_owned());
    assert(text::string_views(out@) =~= asset_dirs(
        match told {
            Some(t) => Some(t@),
            None => None,
        },
        match program {
            Some(p) => Some(p@),
            None => None,
        },
    ));
    out
}

/// The first directory that holds a database, and the paths of the two in it.
#[derive(Debug, PartialEq, Eq)]
pub struct Geodata {
    pub asset_dir: String,
    pub geoip: String,
    pub geosite: String,
}

/// Whether the first `n` directories hold nothing.
pub open spec fn none_before(present: Seq<(bool, bool)>, n: int) -> bool {
    forall|k: int| 0 <= k < n ==> !(#[trigger] present[k]).0 && !present[k].1
}

/// The first directory that holds either database; `present` tells for each whether it
/// holds the one and the other.
pub fn observe_geodata(dirs: &Vec<String>, present: &Vec<(bool, bool)>) -> (r: Option<Geodata>)
    requires
        dirs@.len() == present@.len(),
    ensures
        match r {
            Some(found) => exists|k: int|
                0 <= k < dirs@.len() && none_before(present@, k) && ((#[trigger] present@[k]).0
                    || present@[k].1) && found.asset_dir@ == dirs@[k]@ && found.geoip@
                    == paths::joined(dirs@[k]@, "geoip.dat"@) && found.geosite@ == paths::joined(
                    dirs@[k]@,
                    "geosite.dat"@,
                ),
            None => none_before(present@, dirs@.len() as int),
        },
{
    let mut i: usize = 0;
    while i < dirs.len()
        invariant
            i <= dirs@.len(),
            dirs@.len() == present@.len(),
            none_before(present@, i as int),
        decreases dirs.len() - i,
    {
        if present[i].0 || present[i].1 {
            let dir = dirs[i].as_str();
            let found = Geodata {
                asset_dir: dir.to_owned(),
                geoip: paths::join(dir, "geoip.dat"),
                geosite: paths::join(dir, "geosite.dat"),
            };
            assert(present@[i as int].0 || present@[i as int].1);
            return Some(found);
        }
        i = i + 1;
    }
    None
}

/// A route's source is the word behind the first word `src`, and is told exactly where it is an
/// address of the family that was asked for.
pub proof fn lemma_source_stands_behind_src(output: Seq<char>, family: RouteFamily)
    ensures
        match source_in(output, family) {
            Some(source) => exists|k: int|
                #![trigger text::words(output)[k]]
                0 <= k && k + 1 < text::words(output).len() && text::words(output)[k] == "src"@
                    && text::words(output)[k + 1] == source && !text::words(output).take(
                    k,
                ).contains("src"@),
            None => true,
        },
        source_in(output, family) matches Some(source) ==> {
            &&& address::ip_literal(source) is Some
            &&& address::ip_literal(source)->0 is V4 <==> family == RouteFamily::V4
        },
{
    let words = text::words(output);
    lemma_src_at(words, 0);
    if let Some(k) = src_at(words, 0) {
        if words.take(k).contains("src"@) {
            let j = choose|j: int| 0 <= j < k && words.take(k)[j] == "src"@;
            assert(words[j] == "src"@);
        }
        assert(words[k] == "src"@);
    }
}

proof fn lemma_src_at(words: Seq<Seq<char>>, from: int)
    requires
        0 <= from,
    ensures
        match src_at(words, from) {
            Some(k) => from <= k < words.len() && words[k] == "src"@ && forall|j: int|
                from <= j < k ==> #[trigger] words[j] != "src"@,
            None => forall|j: int| from <= j < words.len() ==> #[trigger] words[j] != "src"@,
        },
    decreases words.len() - from,
{
    if from < words.len() && words[from] != "src"@ {
        lemma_src_at(words, from + 1);
    }
}

} // verus!
