//! Per-connection TCP state as netlink's `inet_diag` delivers it, and what it
//! says about each hop.
//!
//! `struct tcp_info` only ever grows at its end, so fixed offsets are stable;
//! an older kernel returns a shorter attribute, and every read past its end
//! yields nothing rather than a neighbour's bytes.
use vstd::prelude::*;
use vstd::slice::slice_subrange;
use vstd::string::*;

use crate::address::Ip;
use crate::xray::HopTargets;
use crate::{bytes, numbers, order, text};

verus! {

pub const SOCK_DIAG_BY_FAMILY: u16 = 20;

pub const NLMSG_ERROR: u16 = 2;

pub const NLMSG_DONE: u16 = 3;

/// `NLM_F_REQUEST | NLM_F_DUMP`.
pub const DUMP_REQUEST_FLAGS: u16 = 0x301;

/// Established connections only.
pub const TCP_ESTABLISHED_MASK: u32 = 2;

pub const AF_INET: u8 = 2;

pub const AF_INET6: u8 = 10;

pub const IPPROTO_TCP: u8 = 6;

/// `struct tcp_info`.
pub const INET_DIAG_INFO: u16 = 2;

/// The name of the congestion algorithm.
pub const INET_DIAG_CONG: u16 = 4;

/// `struct tcp_bbr_info`.
pub const INET_DIAG_BBRINFO: u16 = 16;

/// The attributes that are asked for, a bit for each: `tcp_info`, what the
/// congestion algorithm tells (BBR's answer comes under its own number), and
/// the algorithm's name.
pub const REQUESTED_ATTRIBUTES: u8 = 14;

pub const TI_APP_LIMITED_BYTE: usize = 7;

pub const TI_RTT: usize = 68;

pub const TI_TOTAL_RETRANS: usize = 100;

pub const TI_MIN_RTT: usize = 148;

pub const TI_BUSY_TIME: usize = 168;

pub const TI_RWND_LIMITED: usize = 176;

pub const TI_SNDBUF_LIMITED: usize = 184;

pub const TI_BYTES_SENT: usize = 200;

pub const TI_BYTES_RETRANS: usize = 208;

/// One established TCP connection, reduced to what the aggregation needs.
#[derive(Debug, PartialEq, Eq)]
pub struct Conn {
    pub peer: Ip,
    pub rtt_us: u32,
    pub min_rtt_us: u32,
    /// BBR's bottleneck-bandwidth estimate in bytes per second; none on a
    /// connection not running BBR.
    pub btlbw_bytes: Option<u64>,
    /// The measurement was limited by the application having nothing to send.
    pub app_limited: bool,
    pub bytes_sent: u64,
    pub bytes_retrans: u64,
    pub busy_us: u64,
    pub rwnd_limited_us: u64,
    pub sndbuf_limited_us: u64,
    pub cc: String,
}

/// What a connection's fields say.
pub struct ConnView {
    pub peer: Ip,
    pub rtt_us: u32,
    pub min_rtt_us: u32,
    pub btlbw_bytes: Option<u64>,
    pub app_limited: bool,
    pub bytes_sent: u64,
    pub bytes_retrans: u64,
    pub busy_us: u64,
    pub rwnd_limited_us: u64,
    pub sndbuf_limited_us: u64,
    pub cc: Seq<char>,
}

impl View for Conn {
    type V = ConnView;

    open spec fn view(&self) -> ConnView {
        ConnView {
            peer: self.peer,
            rtt_us: self.rtt_us,
            min_rtt_us: self.min_rtt_us,
            btlbw_bytes: self.btlbw_bytes,
            app_limited: self.app_limited,
            bytes_sent: self.bytes_sent,
            bytes_retrans: self.bytes_retrans,
            busy_us: self.busy_us,
            rwnd_limited_us: self.rwnd_limited_us,
            sndbuf_limited_us: self.sndbuf_limited_us,
            cc: self.cc@,
        }
    }
}

/// The contents of a list of connections.
pub open spec fn conn_views(conns: Seq<Conn>) -> Seq<ConnView> {
    conns.map_values(|c: Conn| c@)
}

/// The number that the first `n` bytes of `b` spell, the lowest byte first.
pub open spec fn little_endian(b: Seq<u8>, n: int) -> int
    decreases n,
{
    if n <= 0 {
        0
    } else {
        b[0] + 256 * little_endian(b.skip(1), n - 1)
    }
}

proof fn lemma_little_endian_4(b: Seq<u8>)
    requires
        b.len() >= 4,
    ensures
        little_endian(b, 2) == b[0] + 256 * b[1],
        little_endian(b, 4) == b[0] + 256 * b[1] + 65536 * b[2] + 16777216 * b[3],
{
    reveal_with_fuel(little_endian, 5);
}

proof fn lemma_little_endian_2(b: Seq<u8>)
    requires
        b.len() >= 2,
    ensures
        little_endian(b, 2) == b[0] + 256 * b[1],
{
    reveal_with_fuel(little_endian, 3);
}

proof fn lemma_little_endian_8(b: Seq<u8>)
    requires
        b.len() >= 8,
    ensures
        little_endian(b, 8) == b[0] + 256 * b[1] + 65536 * b[2] + 16777216 * b[3] + 4294967296 * (
        b[4] + 256 * b[5] + 65536 * b[6] + 16777216 * b[7]),
{
    reveal_with_fuel(little_endian, 9);
}

/// The smallest multiple of four that is at least `len`.
pub open spec fn aligned(len: int) -> int {
    (len + 3) / 4 * 4
}

pub fn align4(len: usize) -> (r: usize)
    requires
        len + 3 <= usize::MAX,
    ensures
        r == aligned(len as int),
        len <= r < len + 4,
        r % 4 == 0,
{
    (len + 3) / 4 * 4
}

pub fn u16_le(b: &[u8]) -> (r: u16)
    requires
        b@.len() >= 2,
    ensures
        r == little_endian(b@, 2),
{
    proof {
        lemma_little_endian_2(b@);
    }
    b[0] as u16 + 256 * b[1] as u16
}

pub fn u32_le(b: &[u8]) -> (r: u32)
    requires
        b@.len() >= 4,
    ensures
        r == little_endian(b@, 4),
{
    proof {
        lemma_little_endian_4(b@);
    }
    b[0] as u32 + 256 * b[1] as u32 + 65536 * b[2] as u32 + 16777216 * b[3] as u32
}

/// A number below 2^32 read as a signed one, in two's complement.
pub open spec fn twos_complement(v: int) -> int {
    if v < 0x8000_0000 {
        v
    } else {
        v - 0x1_0000_0000
    }
}

pub fn i32_le(b: &[u8]) -> (r: i32)
    requires
        b@.len() >= 4,
    ensures
        r == twos_complement(little_endian(b@, 4)),
{
    let v: u32 = u32_le(b);
    if v < 0x8000_0000 {
        v as i32
    } else {
        (v as i64 - 0x1_0000_0000) as i32
    }
}

/// Four bytes at an offset; nothing past the end.
pub open spec fn u32_field(b: Seq<u8>, offset: int) -> Option<u32> {
    if offset + 4 <= b.len() {
        Some(little_endian(b.skip(offset), 4) as u32)
    } else {
        None
    }
}

/// Eight bytes at an offset; nothing past the end.
pub open spec fn u64_field(b: Seq<u8>, offset: int) -> Option<u64> {
    if offset + 8 <= b.len() {
        Some(little_endian(b.skip(offset), 8) as u64)
    } else {
        None
    }
}

pub fn u32_at(b: &[u8], offset: usize) -> (r: Option<u32>)
    ensures
        r == u32_field(b@, offset as int),
{
    let n: usize = b.len();
    if offset > n || n - offset < 4 {
        return None;
    }
    let s = slice_subrange(b, offset, n);
    assert(s@ == b@.skip(offset as int));
    Some(u32_le(s))
}

pub fn u64_at(b: &[u8], offset: usize) -> (r: Option<u64>)
    ensures
        r == u64_field(b@, offset as int),
{
    let n: usize = b.len();
    if offset > n || n - offset < 8 {
        return None;
    }
    let s = slice_subrange(b, offset, n);
    assert(s@ == b@.skip(offset as int));
    proof {
        lemma_little_endian_8(s@);
    }
    let low: u64 = s[0] as u64 + 256 * s[1] as u64 + 65536 * s[2] as u64 + 16777216 * s[3] as u64;
    let high: u64 = s[4] as u64 + 256 * s[5] as u64 + 65536 * s[6] as u64 + 16777216 * s[7] as u64;
    Some(low + 4294967296 * high)
}

/// A stream of attributes: length (with its four-byte heading), kind, payload.
pub open spec fn attributes_in(data: Seq<u8>) -> Seq<(u16, Seq<u8>)>
    decreases data.len(),
{
    let len = little_endian(data, 2);
    if data.len() < 4 || len < 4 || len > data.len() {
        seq![]
    } else {
        let here = (little_endian(data.skip(2), 2) as u16, data.subrange(4, len));
        if aligned(len) >= data.len() {
            seq![here]
        } else {
            seq![here] + attributes_in(data.skip(aligned(len)))
        }
    }
}

/// The contents of a list of attributes.
pub open spec fn attribute_views(list: Seq<(u16, &[u8])>) -> Seq<(u16, Seq<u8>)> {
    list.map_values(|a: (u16, &[u8])| (a.0, a.1@))
}

/// Walks a stream of attributes; stops where one does not fit.
pub fn attributes<'a>(data: &'a [u8]) -> (r: Vec<(u16, &'a [u8])>)
    ensures
        attribute_views(r@) == attributes_in(data@),
{
    let mut out: Vec<(u16, &'a [u8])> = Vec::new();
    let mut rest: &'a [u8] = data;
    assert(attribute_views(out@) + attributes_in(rest@) == attributes_in(data@));
    loop
        invariant
            attribute_views(out@) + attributes_in(rest@) == attributes_in(data@),
        decreases rest@.len(),
    {
        let n: usize = rest.len();
        if n < 4 {
            assert(attribute_views(out@) + attributes_in(rest@) == attribute_views(out@));
            return out;
        }
        let len: usize = u16_le(rest) as usize;
        let tail = slice_subrange(rest, 2, n);
        assert(tail@ == rest@.skip(2));
        let kind: u16 = u16_le(tail);
        if len < 4 || len > n {
            assert(attribute_views(out@) + attributes_in(rest@) == attribute_views(out@));
            return out;
        }
        let payload = slice_subrange(rest, 4, len);
        let ghost before = out@;
        out.push((kind, payload));
        let step: usize = align4(len);
        proof {
            assert(attribute_views(out@) == attribute_views(before).push((kind, payload@)));
        }
        if step >= n {
            assert(attribute_views(before).push((kind, payload@)) == attribute_views(before)
                + attributes_in(rest@));
            return out;
        }
        let next = slice_subrange(rest, step, n);
        proof {
            assert(next@ == rest@.skip(step as int));
            assert(attribute_views(before).push((kind, payload@)) + attributes_in(next@)
                == attribute_views(before) + attributes_in(rest@));
        }
        rest = next;
    }
}

/// A field's value, zero where it is absent.
pub open spec fn or_zero(v: Option<u64>) -> u64 {
    match v {
        Some(x) => x,
        None => 0,
    }
}

pub open spec fn or_zero32(v: Option<u32>) -> u32 {
    match v {
        Some(x) => x,
        None => 0,
    }
}

/// A connection with what its `tcp_info` says. Where the kernel is too old to
/// count bytes sent, retransmitted segments stand in for retransmitted bytes: a
/// flat zero would read as a clean link.
pub open spec fn with_tcp_info(c: ConnView, info: Seq<u8>) -> ConnView {
    let sent = or_zero(u64_field(info, TI_BYTES_SENT as int));
    ConnView {
        app_limited: TI_APP_LIMITED_BYTE < info.len() && info[TI_APP_LIMITED_BYTE as int] % 2 == 1,
        rtt_us: or_zero32(u32_field(info, TI_RTT as int)),
        min_rtt_us: or_zero32(u32_field(info, TI_MIN_RTT as int)),
        busy_us: or_zero(u64_field(info, TI_BUSY_TIME as int)),
        rwnd_limited_us: or_zero(u64_field(info, TI_RWND_LIMITED as int)),
        sndbuf_limited_us: or_zero(u64_field(info, TI_SNDBUF_LIMITED as int)),
        bytes_sent: sent,
        bytes_retrans: if sent == 0 && u32_field(info, TI_TOTAL_RETRANS as int) is Some {
            u32_field(info, TI_TOTAL_RETRANS as int)->0 as u64
        } else {
            or_zero(u64_field(info, TI_BYTES_RETRANS as int))
        },
        ..c
    }
}

/// `s` without the NULs that trail it.
pub open spec fn without_nuls(s: Seq<char>) -> Seq<char>
    decreases s.len(),
{
    if s.len() > 0 && s.last() == '\0' {
        without_nuls(s.drop_last())
    } else {
        s
    }
}

/// A connection with what one attribute says.
pub open spec fn with_attribute(c: ConnView, kind: u16, payload: Seq<u8>) -> ConnView {
    if kind == INET_DIAG_INFO {
        with_tcp_info(c, payload)
    } else if kind == INET_DIAG_BBRINFO {
        match (u32_field(payload, 0), u32_field(payload, 4)) {
            (Some(lo), Some(hi)) => ConnView {
                btlbw_bytes: Some((lo + 0x1_0000_0000 * hi) as u64),
                ..c
            },
            _ => c,
        }
    } else if kind == INET_DIAG_CONG {
        ConnView { cc: without_nuls(bytes::lossy(payload)), ..c }
    } else {
        c
    }
}

/// A connection with what all attributes say, in order.
pub open spec fn with_attributes(c: ConnView, attrs: Seq<(u16, Seq<u8>)>) -> ConnView
    decreases attrs.len(),
{
    if attrs.len() == 0 {
        c
    } else {
        with_attribute(
            with_attributes(c, attrs.drop_last()),
            attrs.last().0,
            attrs.last().1,
        )
    }
}

/// A connection of which nothing is known but the peer.
pub open spec fn bare(peer: Ip) -> ConnView {
    ConnView {
        peer,
        rtt_us: 0,
        min_rtt_us: 0,
        btlbw_bytes: None,
        app_limited: false,
        bytes_sent: 0,
        bytes_retrans: 0,
        busy_us: 0,
        rwnd_limited_us: 0,
        sndbuf_limited_us: 0,
        cc: seq![],
    }
}

/// Four bytes as a number, the highest first.
pub open spec fn quad(b: Seq<u8>, at: int) -> int {
    ((b[at] * 256 + b[at + 1]) * 256 + b[at + 2]) * 256 + b[at + 3]
}

/// The peer's address in a message.
pub open spec fn peer_of(body: Seq<u8>) -> Option<Ip> {
    if body[0] == AF_INET {
        Some(Ip::V4(quad(body, 24) as u32))
    } else if body[0] == AF_INET6 {
        Some(
            Ip::V6(
                (quad(body, 24) * 0x1_0000_0000 + quad(body, 28)) as u64,
                (quad(body, 32) * 0x1_0000_0000 + quad(body, 36)) as u64,
            ),
        )
    } else {
        None
    }
}

/// The connection that one `inet_diag_msg` with its attributes describes.
pub open spec fn conn_of(body: Seq<u8>) -> Option<ConnView> {
    if body.len() < 72 {
        None
    } else {
        match peer_of(body) {
            None => None,
            Some(peer) => Some(with_attributes(bare(peer), attributes_in(body.skip(72)))),
        }
    }
}

/// Reads `struct tcp_info` into a connection.
pub fn read_tcp_info(info: &[u8], conn: &mut Conn)
    ensures
        final(conn)@ == with_tcp_info(old(conn)@, info@),
{
    conn.app_limited = TI_APP_LIMITED_BYTE < info.len() && info[TI_APP_LIMITED_BYTE] % 2 == 1;
    conn.rtt_us = match u32_at(info, TI_RTT) {
        Some(v) => v,
        None => 0,
    };
    conn.min_rtt_us = match u32_at(info, TI_MIN_RTT) {
        Some(v) => v,
        None => 0,
    };
    conn.busy_us = match u64_at(info, TI_BUSY_TIME) {
        Some(v) => v,
        None => 0,
    };
    conn.rwnd_limited_us = match u64_at(info, TI_RWND_LIMITED) {
        Some(v) => v,
        None => 0,
    };
    conn.sndbuf_limited_us = match u64_at(info, TI_SNDBUF_LIMITED) {
        Some(v) => v,
        None => 0,
    };
    conn.bytes_sent = match u64_at(info, TI_BYTES_SENT) {
        Some(v) => v,
        None => 0,
    };
    conn.bytes_retrans = match u64_at(info, TI_BYTES_RETRANS) {
        Some(v) => v,
        None => 0,
    };
    if conn.bytes_sent == 0 {
        match u32_at(info, TI_TOTAL_RETRANS) {
            Some(total) => {
                conn.bytes_retrans = total as u64;
            },
            None => {},
        }
    }
}

fn trimmed_nuls(s: &[char]) -> (r: String)
    ensures
        r@ == without_nuls(s@),
{
    let mut to: usize = s.len();
    assert(s@.take(to as int) == s@);
    while to > 0 && s[to - 1] == '\0'
        invariant
            to <= s@.len(),
            without_nuls(s@) == without_nuls(s@.take(to as int)),
        decreases to,
    {
        assert(s@.take(to as int).drop_last() == s@.take(to - 1));
        to = to - 1;
    }
    let kept = slice_subrange(s, 0, to);
    assert(kept@ == s@.take(to as int));
    text::string_of(kept)
}

fn read_quad(b: &[u8], at: usize) -> (r: u32)
    requires
        at + 4 <= b@.len(),
    ensures
        r == quad(b@, at as int),
{
    let n: usize = b.len();
    ((b[at] as u32 * 256 + b[at + 1] as u32) * 256 + b[at + 2] as u32) * 256 + b[at + 3] as u32
}

/// Parses one `inet_diag_msg` plus its attributes.
pub fn parse_msg(body: &[u8]) -> (r: Option<Conn>)
    ensures
        match r {
            Some(c) => conn_of(body@) == Some(c@),
            None => conn_of(body@) is None,
        },
{
    let n: usize = body.len();
    if n < 72 {
        return None;
    }
    let peer = if body[0] == AF_INET {
        Ip::V4(read_quad(body, 24))
    } else if body[0] == AF_INET6 {
        Ip::V6(
            read_quad(body, 24) as u64 * 0x1_0000_0000 + read_quad(body, 28) as u64,
            read_quad(body, 32) as u64 * 0x1_0000_0000 + read_quad(body, 36) as u64,
        )
    } else {
        return None;
    };
    let mut conn = Conn {
        peer,
        rtt_us: 0,
        min_rtt_us: 0,
        btlbw_bytes: None,
        app_limited: false,
        bytes_sent: 0,
        bytes_retrans: 0,
        busy_us: 0,
        rwnd_limited_us: 0,
        sndbuf_limited_us: 0,
        cc: String::new(),
    };
    let tail = slice_subrange(body, 72, n);
    assert(tail@ == body@.skip(72));
    let attrs = attributes(tail);
    let ghost all = attribute_views(attrs@);
    let mut i: usize = 0;
    assert(conn@ == bare(peer));
    while i < attrs.len()
        invariant
            i <= attrs.len(),
            all == attribute_views(attrs@),
            conn@ == with_attributes(bare(peer), all.take(i as int)),
        decreases attrs.len() - i,
    {
        proof {
            assert(all.take(i + 1).drop_last() == all.take(i as int));
            assert(all.take(i + 1).last() == (attrs@[i as int].0, attrs@[i as int].1@));
        }
        let kind: u16 = attrs[i].0;
        let payload: &[u8] = attrs[i].1;
        if kind == INET_DIAG_INFO {
            read_tcp_info(payload, &mut conn);
        } else if kind == INET_DIAG_BBRINFO {
            match (u32_at(payload, 0), u32_at(payload, 4)) {
                (Some(lo), Some(hi)) => {
                    conn.btlbw_bytes = Some(lo as u64 + 0x1_0000_0000 * hi as u64);
                },
                _ => {},
            }
        } else if kind == INET_DIAG_CONG {
            let name = bytes::from_utf8_lossy(payload);
            let chars = text::chars_of(name.as_str());
            conn.cc = trimmed_nuls(chars.as_slice());
        }
        i = i + 1;
    }
    assert(all.take(i as int) == all);
    Some(conn)
}

/// How a walk over one datagram ended.
#[derive(Debug, PartialEq, Eq)]
pub enum WalkEnd {
    /// The datagram is used up; more may follow.
    More,
    /// The dump is complete, or the stream is not what it should be.
    Done,
    /// The kernel reported an error.
    Failed(String),
}

/// What the messages from `offset` on add to the connections, and how the walk ends.
pub open spec fn walked(buf: Seq<u8>, filled: int, offset: int, conns: Seq<ConnView>) -> (
    Seq<ConnView>,
    Result<bool, Seq<char>>,
)
    decreases filled + 4 - offset,
{
    if offset < 0 || offset + 16 > filled || filled > buf.len() {
        (conns, Ok(true))
    } else {
        let len = little_endian(buf.skip(offset), 4);
        let kind = little_endian(buf.skip(offset + 4), 2);
        if len < 16 || offset + len > filled {
            (conns, Ok(false))
        } else if kind == NLMSG_DONE {
            (conns, Ok(false))
        } else if kind == NLMSG_ERROR {
            let code = twos_complement(little_endian(buf.skip(offset + 16), 4));
            if code != 0 {
                (conns, Err("netlink error "@ + numbers::signed_decimal(-code)))
            } else {
                (conns, Ok(false))
            }
        } else {
            let more = match conn_of(buf.subrange(offset + 16, offset + len)) {
                Some(c) => conns.push(c),
                None => conns,
            };
            walked(buf, filled, offset + aligned(len), more)
        }
    }
}

/// Whether the end of a walk is what `walked` says: more to come, done, or failed.
pub open spec fn ended_as(end: WalkEnd, said: Result<bool, Seq<char>>) -> bool {
    match end {
        WalkEnd::More => said == Ok::<bool, Seq<char>>(true),
        WalkEnd::Done => said == Ok::<bool, Seq<char>>(false),
        WalkEnd::Failed(e) => said == Err::<bool, Seq<char>>(e@),
    }
}

/// Walks the netlink messages in the first `filled` bytes of a receive buffer.
/// A message whose length does not fit ends the walk: continuing on a misread
/// stream is worse than stopping. The code of an error message is read where it
/// stands, so the buffer has four bytes to spare.
pub fn walk_datagram(buf: &[u8], filled: usize, conns: &mut Vec<Conn>) -> (r: WalkEnd)
    requires
        filled + 4 <= buf@.len(),
    ensures
        conn_views(final(conns)@) == walked(buf@, filled as int, 0, conn_views(old(conns)@)).0,
        ended_as(r, walked(buf@, filled as int, 0, conn_views(old(conns)@)).1),
{
    let n: usize = buf.len();
    let mut offset: usize = 0;
    while offset <= filled && 16 <= filled - offset
        invariant
            n == buf@.len(),
            filled + 4 <= n,
            offset <= filled + 3,
            walked(buf@, filled as int, 0, conn_views(old(conns)@)) == walked(
                buf@,
                filled as int,
                offset as int,
                conn_views(conns@),
            ),
        decreases filled + 3 - offset,
    {
        let head = slice_subrange(buf, offset, n);
        assert(head@ == buf@.skip(offset as int));
        let tag = slice_subrange(buf, offset + 4, n);
        assert(tag@ == buf@.skip(offset + 4));
        let size: u32 = u32_le(head);
        let kind: u16 = u16_le(tag);
        let room: usize = filled - offset;
        if size < 16 || size as u64 > room as u64 {
            return WalkEnd::Done;
        }
        let len: usize = size as usize;
        if kind == NLMSG_DONE {
            return WalkEnd::Done;
        }
        if kind == NLMSG_ERROR {
            let at = slice_subrange(buf, offset + 16, n);
            assert(at@ == buf@.skip(offset + 16));
            let code: i32 = i32_le(at);
            if code != 0 {
                let mut e = "netlink error ".to_owned();
                let positive: i64 = -(code as i64);
                let spelt = numbers::signed_string(positive);
                e.append(spelt.as_str());
                return WalkEnd::Failed(e);
            }
            return WalkEnd::Done;
        }
        let body = slice_subrange(buf, offset + 16, offset + len);
        match parse_msg(body) {
            Some(conn) => {
                let ghost before = conns@;
                conns.push(conn);
                assert(conn_views(conns@) == conn_views(before).push(conn@));
            },
            None => {},
        }
        offset = offset + align4(len);
    }
    WalkEnd::More
}

/// The request that dumps every established TCP connection of a family: a
/// netlink heading of 16 bytes and 56 bytes of `inet_diag_req_v2`, all zero
/// where no filter is named.
pub open spec fn request_of(family: u8) -> Seq<u8> {
    seq![
        72u8, 0, 0, 0,
        SOCK_DIAG_BY_FAMILY as u8, 0,
        1, 3,
        1, 0, 0, 0,
        0, 0, 0, 0,
        family, IPPROTO_TCP, REQUESTED_ATTRIBUTES, 0,
        TCP_ESTABLISHED_MASK as u8, 0, 0, 0,
    ] + Seq::new(48, |i: int| 0u8)
}

/// The request that dumps every established TCP connection of a family.
pub fn send_request(family: u8) -> (r: Vec<u8>)
    ensures
        r@ == request_of(family),
        r@.len() == 72,
{
    let mut out: Vec<u8> = Vec::new();
    out.push(72);
    out.push(0);
    out.push(0);
    out.push(0);
    out.push(20);
    out.push(0);
    out.push(1);
    out.push(3);
    out.push(1);
    out.push(0);
    out.push(0);
    out.push(0);
    out.push(0);
    out.push(0);
    out.push(0);
    out.push(0);
    out.push(family);
    out.push(IPPROTO_TCP);
    out.push(REQUESTED_ATTRIBUTES);
    out.push(0);
    out.push(2);
    out.push(0);
    out.push(0);
    out.push(0);
    let ghost head = out@;
    assert(head + Seq::new(0, |i: int| 0u8) == head);
    let mut i: usize = 0;
    while i < 48
        invariant
            i <= 48,
            out@ == head + Seq::new(i as nat, |i: int| 0u8),
        decreases 48 - i,
    {
        out.push(0);
        i = i + 1;
        assert(out@ == head + Seq::new(i as nat, |i: int| 0u8));
    }
    assert(out@ =~= request_of(family));
    out
}

/// The nearest rank of the `p`-th percentile among `n` values.
pub open spec fn rank(n: int, p: int) -> int {
    let ceiling = (n * p + 99) / 100;
    if ceiling < 1 {
        0
    } else {
        ceiling - 1
    }
}

/// The nearest-rank percentile of a sorted sequence; nothing of an empty one.
pub open spec fn percentile_of<T>(sorted: Seq<T>, p: int) -> Option<T> {
    if sorted.len() == 0 || rank(sorted.len() as int, p) >= sorted.len() {
        None
    } else {
        Some(sorted[rank(sorted.len() as int, p)])
    }
}

/// Nearest-rank percentile over a sorted slice.
pub fn percentile<T: Copy>(sorted: &[T], p: usize) -> (r: Option<T>)
    requires
        sorted@.len() * p <= usize::MAX,
    ensures
        r == percentile_of(sorted@, p as int),
{
    let n: usize = sorted.len();
    if n == 0 {
        return None;
    }
    let product: usize = n * p;
    let ceiling: usize = product / 100 + if product % 100 > 0 {
        1usize
    } else {
        0usize
    };
    let at: usize = if ceiling < 1 {
        0
    } else {
        ceiling - 1
    };
    if at < n {
        Some(sorted[at])
    } else {
        None
    }
}

/// One sum as a part of another.
#[derive(Debug, Clone, Copy, PartialEq, Eq, Structural)]
pub struct SumShare {
    pub part: u128,
    pub whole: u128,
}

/// Retransmitted bytes as a share of those sent, never more than all of them. Where
/// nothing is known to be sent, what was retransmitted counts as all there was: coarse,
/// but no clean link.
pub open spec fn retransmitted(sent: int, retrans: int) -> (int, int) {
    if sent > 0 {
        (if retrans < sent {
            retrans
        } else {
            sent
        }, sent)
    } else if retrans > 0 {
        (retrans, retrans)
    } else {
        (0, 1)
    }
}

/// Retransmitted bytes as a share of those sent.
pub fn retrans_share(sent: u128, retrans: u128) -> (r: SumShare)
    ensures
        (r.part as int, r.whole as int) == retransmitted(sent as int, retrans as int),
{
    if sent > 0 {
        SumShare {
            part: if retrans < sent {
                retrans
            } else {
                sent
            },
            whole: sent,
        }
    } else if retrans > 0 {
        SumShare { part: retrans, whole: retrans }
    } else {
        SumShare { part: 0, whole: 1 }
    }
}

/// The share of retransmitted bytes is nothing exactly where nothing was retransmitted,
/// whether or not it is known what was sent; and it is a share of something, never more
/// than the whole.
pub proof fn lemma_retransmission_is_no_clean_link(sent: int, retrans: int)
    requires
        0 <= sent,
        0 <= retrans,
    ensures
        retrans > 0 <==> retransmitted(sent, retrans).0 > 0,
        0 <= retransmitted(sent, retrans).0 <= retransmitted(sent, retrans).1,
        retransmitted(sent, retrans).1 > 0,
{
}

/// One hop over one window. Other shares are left as the sums they are made of.
#[derive(Debug, PartialEq, Eq)]
pub struct HopLinkSample {
    pub chain_id: String,
    pub peer_node_id: String,
    pub window_start_unix_secs: i64,
    pub window_end_unix_secs: i64,
    pub conns: u32,
    pub conns_measured: u32,
    pub btlbw_p50_bps: Option<u64>,
    pub btlbw_p90_bps: Option<u64>,
    pub min_rtt_us: u32,
    pub rtt_p50_us: u32,
    pub rtt_p90_us: u32,
    pub retrans: SumShare,
    pub busy_us: u128,
    pub rwnd_limited_us: u128,
    pub sndbuf_limited_us: u128,
}

/// The connections whose peer belongs to a hop, in order.
pub open spec fn group(conns: Seq<Conn>, hops: HopTargets, key: (Seq<char>, Seq<char>)) -> Seq<
    Conn,
>
    decreases conns.len(),
{
    if conns.len() == 0 {
        seq![]
    } else {
        let front = group(conns.drop_last(), hops, key);
        if hops.hop(conns.last().peer) == Some(key) {
            front.push(conns.last())
        } else {
            front
        }
    }
}

/// The connections that were not limited by their application.
pub open spec fn measured(conns: Seq<Conn>) -> Seq<Conn>
    decreases conns.len(),
{
    if conns.len() == 0 {
        seq![]
    } else {
        let front = measured(conns.drop_last());
        if conns.last().app_limited {
            front
        } else {
            front.push(conns.last())
        }
    }
}

/// Bytes as bits, capped at what 64 bits hold.
pub open spec fn bits(bytes: u64) -> u64 {
    if bytes * 8 > u64::MAX {
        u64::MAX
    } else {
        (bytes * 8) as u64
    }
}

/// The bandwidth estimates of measured connections, in bits per second.
pub open spec fn bandwidths(conns: Seq<Conn>) -> Seq<u64>
    decreases conns.len(),
{
    if conns.len() == 0 {
        seq![]
    } else {
        let front = bandwidths(conns.drop_last());
        match (conns.last().app_limited, conns.last().btlbw_bytes) {
            (false, Some(bytes)) => front.push(bits(bytes)),
            _ => front,
        }
    }
}

/// The round-trip times that were measured at all.
pub open spec fn round_trips(conns: Seq<Conn>) -> Seq<u64>
    decreases conns.len(),
{
    if conns.len() == 0 {
        seq![]
    } else {
        let front = round_trips(conns.drop_last());
        if conns.last().rtt_us > 0 {
            front.push(conns.last().rtt_us as u64)
        } else {
            front
        }
    }
}

/// The smallest round-trip time any connection saw; zero where none was measured.
pub open spec fn smallest_rtt(conns: Seq<Conn>) -> u32
    decreases conns.len(),
{
    if conns.len() == 0 {
        0
    } else {
        let front = smallest_rtt(conns.drop_last());
        let here = conns.last().min_rtt_us;
        if here > 0 && (front == 0 || here < front) {
            here
        } else {
            front
        }
    }
}

/// The sum of a quantity over connections.
pub open spec fn total(conns: Seq<Conn>, quantity: spec_fn(Conn) -> u64) -> int
    decreases conns.len(),
{
    if conns.len() == 0 {
        0
    } else {
        total(conns.drop_last(), quantity) + quantity(conns.last())
    }
}

/// A percentile of round-trip times; zero where there are none.
pub open spec fn rtt_percentile(conns: Seq<Conn>, p: int) -> u32 {
    match percentile_of(order::ascending(round_trips(conns)), p) {
        Some(v) => v as u32,
        None => 0,
    }
}

/// What a sample says of the connections of one hop.
pub open spec fn sample_says(
    s: HopLinkSample,
    conns: Seq<Conn>,
    key: (Seq<char>, Seq<char>),
    window_start: i64,
    window_end: i64,
) -> bool {
    &&& s.chain_id@ == key.0
    &&& s.peer_node_id@ == key.1
    &&& s.window_start_unix_secs == window_start
    &&& s.window_end_unix_secs == window_end
    &&& s.conns == conns.len() as u32
    &&& s.conns_measured == measured(conns).len() as u32
    &&& s.btlbw_p50_bps == percentile_of(order::ascending(bandwidths(conns)), 50)
    &&& s.btlbw_p90_bps == percentile_of(order::ascending(bandwidths(conns)), 90)
    &&& s.min_rtt_us == smallest_rtt(conns)
    &&& s.rtt_p50_us == rtt_percentile(conns, 50)
    &&& s.rtt_p90_us == rtt_percentile(conns, 90)
    &&& (s.retrans.part as int, s.retrans.whole as int) == retransmitted(
        total(conns, |c: Conn| c.bytes_sent),
        total(conns, |c: Conn| c.bytes_retrans),
    )
    &&& s.busy_us == total(conns, |c: Conn| c.busy_us)
    &&& s.rwnd_limited_us == total(conns, |c: Conn| c.rwnd_limited_us)
    &&& s.sndbuf_limited_us == total(conns, |c: Conn| c.sndbuf_limited_us)
}

/// The order of hops: by chain, then by peer.
pub open spec fn hop_before(a: (Seq<char>, Seq<char>), b: (Seq<char>, Seq<char>)) -> bool {
    order::before(a.0, b.0) || (a.0 == b.0 && order::before(a.1, b.1))
}

/// The hop that a sample is about.
pub open spec fn hop_of_sample(s: HopLinkSample) -> (Seq<char>, Seq<char>) {
    (s.chain_id@, s.peer_node_id@)
}

/// The hops that have a connection.
pub open spec fn used_hops(conns: Seq<Conn>, hops: HopTargets) -> Set<(Seq<char>, Seq<char>)> {
    Set::new(
        |key: (Seq<char>, Seq<char>)|
            exists|i: int|
                0 <= i < conns.len() && hops.hop((#[trigger] conns[i]).peer) == Some(key),
    )
}

proof fn lemma_hop_before(a: (Seq<char>, Seq<char>), b: (Seq<char>, Seq<char>), c: (
    Seq<char>,
    Seq<char>,
))
    ensures
        !hop_before(a, a),
        hop_before(a, b) || hop_before(b, a) || a == b,
        hop_before(a, b) && hop_before(b, c) ==> hop_before(a, c),
{
    order::lemma_before_irreflexive(a.0);
    order::lemma_before_irreflexive(a.1);
    order::lemma_before_total(a.0, b.0);
    order::lemma_before_total(a.1, b.1);
    if order::before(a.0, b.0) && order::before(b.0, c.0) {
        order::lemma_before_transitive(a.0, b.0, c.0);
    }
    if order::before(a.1, b.1) && order::before(b.1, c.1) {
        order::lemma_before_transitive(a.1, b.1, c.1);
    }
}

/// Hops as a list holds them.
pub open spec fn key_views(keys: Seq<(String, String)>) -> Seq<(Seq<char>, Seq<char>)> {
    keys.map_values(|k: (String, String)| (k.0@, k.1@))
}

/// Every hop comes before the next.
pub open spec fn ascending_hops(keys: Seq<(Seq<char>, Seq<char>)>) -> bool {
    forall|i: int, j: int|
        0 <= i < j < keys.len() ==> hop_before(#[trigger] keys[i], #[trigger] keys[j])
}

fn key_is_before(a: &(String, String), chain: &str, peer: &str) -> (r: bool)
    ensures
        r == hop_before((a.0@, a.1@), (chain@, peer@)),
{
    order::comes_before(a.0.as_str(), chain) || (text::same_str(a.0.as_str(), chain)
        && order::comes_before(a.1.as_str(), peer))
}

fn insert_key(keys: &mut Vec<(String, String)>, chain: &str, peer: &str)
    requires
        ascending_hops(key_views(old(keys)@)),
    ensures
        ascending_hops(key_views(final(keys)@)),
        key_views(final(keys)@).to_set() == key_views(old(keys)@).to_set().insert((chain@, peer@)),
{
    let ghost key = (chain@, peer@);
    let mut i: usize = 0;
    while i < keys.len() && key_is_before(&keys[i], chain, peer)
        invariant
            i <= keys.len(),
            keys@ == old(keys)@,
            key == (chain@, peer@),
            forall|j: int| 0 <= j < i ==> hop_before(#[trigger] key_views(keys@)[j], key),
        decreases keys.len() - i,
    {
        assert(key_views(keys@)[i as int] == (keys@[i as int].0@, keys@[i as int].1@));
        i = i + 1;
    }
    let ghost was = key_views(keys@);
    if i < keys.len() && text::same_str(keys[i].0.as_str(), chain) && text::same_str(
        keys[i].1.as_str(),
        peer,
    ) {
        proof {
            assert(was[i as int] == key);
            assert(was.contains(key));
            assert(was.to_set().insert(key) =~= was.to_set());
        }
        return;
    }
    keys.insert(i, (chain.to_owned(), peer.to_owned()));
    proof {
        let now = key_views(keys@);
        assert(now =~= was.insert(i as int, key));
        assert forall|j: int| i <= j < was.len() implies hop_before(key, #[trigger] was[j]) by {
            lemma_hop_before(was[i as int], key, was[j]);
            lemma_hop_before(key, was[i as int], was[j]);
            assert(was[i as int] == (old(keys)@[i as int].0@, old(keys)@[i as int].1@));
        }
        assert forall|a: int, b: int| 0 <= a < b < now.len() implies hop_before(
            #[trigger] now[a],
            #[trigger] now[b],
        ) by {
            if a != i {
                assert(now[a] == was[if a < i { a } else { a - 1 }]);
            }
            if b != i {
                assert(now[b] == was[if b < i { b } else { b - 1 }]);
            }
        }
        assert forall|x: (Seq<char>, Seq<char>)|
            now.to_set().contains(x) == was.to_set().insert(key).contains(x) by {
            if now.contains(x) {
                let k = now.index_of(x);
                if k < i {
                    assert(was[k] == x);
                } else if k > i {
                    assert(was[k - 1] == x);
                }
            }
            if was.contains(x) {
                let k = was.index_of(x);
                if k < i {
                    assert(now[k] == x);
                } else {
                    assert(now[k + 1] == x);
                }
            }
            if x == key {
                assert(now[i as int] == x);
            }
        }
        assert(now.to_set() =~= was.to_set().insert(key));
    }
}

fn hops_in_use(conns: &[Conn], hops: &HopTargets) -> (r: Vec<(String, String)>)
    ensures
        ascending_hops(key_views(r@)),
        key_views(r@).to_set() == used_hops(conns@, *hops),
{
    let mut keys: Vec<(String, String)> = Vec::new();
    let mut i: usize = 0;
    proof {
        assert(key_views(keys@).to_set() =~= used_hops(conns@.take(0), *hops));
    }
    while i < conns.len()
        invariant
            i <= conns.len(),
            ascending_hops(key_views(keys@)),
            key_views(keys@).to_set() == used_hops(conns@.take(i as int), *hops),
        decreases conns.len() - i,
    {
        let hop = hops.get(conns[i].peer);
        proof {
            let smaller = used_hops(conns@.take(i as int), *hops);
            let larger = used_hops(conns@.take(i + 1), *hops);
            let here = hops.hop(conns@[i as int].peer);
            assert forall|key: (Seq<char>, Seq<char>)|
                larger.contains(key) == (smaller.contains(key) || here == Some(key)) by {
                if smaller.contains(key) {
                    let k = choose|k: int|
                        0 <= k < i && hops.hop((#[trigger] conns@.take(i as int)[k]).peer) == Some(
                            key,
                        );
                    assert(conns@.take(i + 1)[k] == conns@.take(i as int)[k]);
                }
                if larger.contains(key) {
                    let k = choose|k: int|
                        0 <= k < i + 1 && hops.hop((#[trigger] conns@.take(i + 1)[k]).peer) == Some(
                            key,
                        );
                    if k < i {
                        assert(conns@.take(i as int)[k] == conns@.take(i + 1)[k]);
                    }
                }
                if here == Some(key) {
                    assert(conns@.take(i + 1)[i as int] == conns@[i as int]);
                }
            }
            match here {
                Some(key) => {
                    assert(larger =~= smaller.insert(key));
                },
                None => {
                    assert(larger =~= smaller);
                },
            }
        }
        match hop {
            Some((chain, peer)) => {
                insert_key(&mut keys, chain, peer);
            },
            None => {},
        }
        i = i + 1;
    }
    assert(conns@.take(i as int) == conns@);
    keys
}

fn sample_hop(
    conns: &[Conn],
    hops: &HopTargets,
    chain: &str,
    peer: &str,
    window_start: i64,
    window_end: i64,
) -> (r: HopLinkSample)
    requires
        conns@.len() * 90 <= usize::MAX,
    ensures
        sample_says(
            r,
            group(conns@, *hops, (chain@, peer@)),
            (chain@, peer@),
            window_start,
            window_end,
        ),
{
    let ghost key = (chain@, peer@);
    let ghost sent_of = |c: Conn| c.bytes_sent;
    let ghost retrans_of = |c: Conn| c.bytes_retrans;
    let ghost busy_of = |c: Conn| c.busy_us;
    let ghost rwnd_of = |c: Conn| c.rwnd_limited_us;
    let ghost sndbuf_of = |c: Conn| c.sndbuf_limited_us;
    let mut count: usize = 0;
    let mut count_measured: usize = 0;
    let mut bws: Vec<u64> = Vec::new();
    let mut rtts: Vec<u64> = Vec::new();
    let mut min_rtt: u32 = 0;
    let mut sent: u128 = 0;
    let mut retrans: u128 = 0;
    let mut busy: u128 = 0;
    let mut rwnd: u128 = 0;
    let mut sndbuf: u128 = 0;
    let mut i: usize = 0;
    while i < conns.len()
        invariant
            i <= conns.len(),
            key == (chain@, peer@),
            sent_of == (|c: Conn| c.bytes_sent),
            retrans_of == (|c: Conn| c.bytes_retrans),
            busy_of == (|c: Conn| c.busy_us),
            rwnd_of == (|c: Conn| c.rwnd_limited_us),
            sndbuf_of == (|c: Conn| c.sndbuf_limited_us),
            count == group(conns@.take(i as int), *hops, key).len(),
            count <= i,
            count_measured == measured(group(conns@.take(i as int), *hops, key)).len(),
            count_measured <= i,
            bws@ == bandwidths(group(conns@.take(i as int), *hops, key)),
            bws@.len() <= i,
            rtts@ == round_trips(group(conns@.take(i as int), *hops, key)),
            rtts@.len() <= i,
            forall|j: int| 0 <= j < rtts@.len() ==> rtts@[j] <= u32::MAX,
            min_rtt == smallest_rtt(group(conns@.take(i as int), *hops, key)),
            sent == total(group(conns@.take(i as int), *hops, key), sent_of),
            retrans == total(group(conns@.take(i as int), *hops, key), retrans_of),
            busy == total(group(conns@.take(i as int), *hops, key), busy_of),
            rwnd == total(group(conns@.take(i as int), *hops, key), rwnd_of),
            sndbuf == total(group(conns@.take(i as int), *hops, key), sndbuf_of),
            sent <= i * u64::MAX,
            retrans <= i * u64::MAX,
            busy <= i * u64::MAX,
            rwnd <= i * u64::MAX,
            sndbuf <= i * u64::MAX,
        decreases conns.len() - i,
    {
        let c = &conns[i];
        let ours = match hops.get(c.peer) {
            Some((a, b)) => text::same_str(a, chain) && text::same_str(b, peer),
            None => false,
        };
        proof {
            assert(conns@.take(i + 1).drop_last() == conns@.take(i as int));
            assert(conns@.take(i + 1).last() == *c);
            let g = group(conns@.take(i as int), *hops, key);
            if ours {
                assert(group(conns@.take(i + 1), *hops, key) == g.push(*c));
                assert(g.push(*c).drop_last() =~= g);
                assert(g.push(*c).last() == *c);
            } else {
                assert(group(conns@.take(i + 1), *hops, key) == g);
            }
            assert(i * u64::MAX + u64::MAX == (i + 1) * u64::MAX) by (nonlinear_arith);
            assert((i + 1) * u64::MAX <= u128::MAX) by (nonlinear_arith)
                requires
                    i <= u64::MAX - 1,
            ;
        }
        if ours {
            count = count + 1;
            if !c.app_limited {
                count_measured = count_measured + 1;
                match c.btlbw_bytes {
                    Some(bytes) => {
                        let b: u64 = match bytes.checked_mul(8) {
                            Some(b) => b,
                            None => u64::MAX,
                        };
                        bws.push(b);
                    },
                    None => {},
                }
            }
            if c.rtt_us > 0 {
                rtts.push(c.rtt_us as u64);
            }
            if c.min_rtt_us > 0 && (min_rtt == 0 || c.min_rtt_us < min_rtt) {
                min_rtt = c.min_rtt_us;
            }
            sent = sent + c.bytes_sent as u128;
            retrans = retrans + c.bytes_retrans as u128;
            busy = busy + c.busy_us as u128;
            rwnd = rwnd + c.rwnd_limited_us as u128;
            sndbuf = sndbuf + c.sndbuf_limited_us as u128;
        }
        i = i + 1;
    }
    assert(conns@.take(i as int) == conns@);
    let sorted_bws = order::sort(&bws);
    let sorted_rtts = order::sort(&rtts);
    proof {
        assert(sorted_bws@.len() * 90 <= usize::MAX && sorted_bws@.len() * 50 <= usize::MAX)
            by (nonlinear_arith)
            requires
                sorted_bws@.len() <= conns@.len(),
                conns@.len() * 90 <= usize::MAX,
        ;
        assert(sorted_rtts@.len() * 90 <= usize::MAX && sorted_rtts@.len() * 50 <= usize::MAX)
            by (nonlinear_arith)
            requires
                sorted_rtts@.len() <= conns@.len(),
                conns@.len() * 90 <= usize::MAX,
        ;
    }
    let rtt_p50_us: u32 = match percentile(sorted_rtts.as_slice(), 50) {
        Some(v) => v as u32,
        None => 0,
    };
    let rtt_p90_us: u32 = match percentile(sorted_rtts.as_slice(), 90) {
        Some(v) => v as u32,
        None => 0,
    };
    HopLinkSample {
        chain_id: chain.to_owned(),
        peer_node_id: peer.to_owned(),
        window_start_unix_secs: window_start,
        window_end_unix_secs: window_end,
        conns: count as u32,
        conns_measured: count_measured as u32,
        btlbw_p50_bps: percentile(sorted_bws.as_slice(), 50),
        btlbw_p90_bps: percentile(sorted_bws.as_slice(), 90),
        min_rtt_us: min_rtt,
        rtt_p50_us,
        rtt_p90_us,
        retrans: retrans_share(sent, retrans),
        busy_us: busy,
        rwnd_limited_us: rwnd,
        sndbuf_limited_us: sndbuf,
    }
}

/// Aggregates connections into one sample per hop, in the order of the hops.
/// A connection to an address that is no hop's is somebody else's traffic.
pub fn aggregate(conns: &[Conn], hops: &HopTargets, window_start: i64, window_end: i64) -> (r: Vec<
    HopLinkSample,
>)
    requires
        conns@.len() * 90 <= usize::MAX,
    ensures
        ascending_hops(r@.map_values(|s: HopLinkSample| hop_of_sample(s))),
        r@.map_values(|s: HopLinkSample| hop_of_sample(s)).to_set() == used_hops(conns@, *hops),
        forall|i: int|
            0 <= i < r@.len() ==> sample_says(
                #[trigger] r@[i],
                group(conns@, *hops, hop_of_sample(r@[i])),
                hop_of_sample(r@[i]),
                window_start,
                window_end,
            ),
{
    let keys = hops_in_use(conns, hops);
    let mut out: Vec<HopLinkSample> = Vec::new();
    let mut i: usize = 0;
    while i < keys.len()
        invariant
            i <= keys.len(),
            conns@.len() * 90 <= usize::MAX,
            out@.len() == i,
            forall|j: int|
                0 <= j < i ==> hop_of_sample(#[trigger] out@[j]) == key_views(keys@)[j]
                    && sample_says(
                    out@[j],
                    group(conns@, *hops, key_views(keys@)[j]),
                    key_views(keys@)[j],
                    window_start,
                    window_end,
                ),
        decreases keys.len() - i,
    {
        let sample = sample_hop(
            conns,
            hops,
            keys[i].0.as_str(),
            keys[i].1.as_str(),
            window_start,
            window_end,
        );
        out.push(sample);
        i = i + 1;
    }
    assert(out@.map_values(|s: HopLinkSample| hop_of_sample(s)) =~= key_views(keys@));
    out
}

/// Idle connections are counted but not measured: a connection that its
/// application held back leaves the bandwidth estimates of its hop as they are.
pub proof fn lemma_idle_connections_do_not_measure(conns: Seq<Conn>, idle: Conn)
    requires
        idle.app_limited,
    ensures
        measured(conns.push(idle)) == measured(conns),
        bandwidths(conns.push(idle)) == bandwidths(conns),
{
    assert(conns.push(idle).drop_last() =~= conns);
}

/// Nothing past the end of an attribute is read: a field that does not lie
/// wholly inside yields nothing.
pub proof fn lemma_short_attribute_yields_nothing(info: Seq<u8>, offset: int)
    ensures
        offset + 4 > info.len() ==> u32_field(info, offset) is None,
        offset + 8 > info.len() ==> u64_field(info, offset) is None,
{
}

/// Where the kernel's structure holds what is told of a connection: four bytes for each time
/// of a round trip and for the segments sent again, eight for each span and each count of
/// bytes, the lowest first, and one bit for whether the application had nothing to send.
pub proof fn lemma_structure_holds_its_fields(c: ConnView, info: Seq<u8>)
    requires
        info.len() >= 216,
    ensures
        ({
            let told = with_tcp_info(c, info);
            &&& told.rtt_us == info[68] + 256 * info[69] + 65536 * info[70] + 16777216 * info[71]
            &&& told.min_rtt_us == info[148] + 256 * info[149] + 65536 * info[150] + 16777216
                * info[151]
            &&& told.busy_us == little_endian(info.subrange(168, 176), 8)
            &&& told.rwnd_limited_us == little_endian(info.subrange(176, 184), 8)
            &&& told.sndbuf_limited_us == little_endian(info.subrange(184, 192), 8)
            &&& told.bytes_sent == little_endian(info.subrange(200, 208), 8)
            &&& told.bytes_sent > 0 ==> told.bytes_retrans == little_endian(
                info.subrange(208, 216),
                8,
            )
            &&& told.bytes_sent == 0 ==> told.bytes_retrans == info[100] + 256 * info[101] + 65536
                * info[102] + 16777216 * info[103]
            &&& told.app_limited <==> info[7] % 2 == 1
            &&& told.peer == c.peer && told.btlbw_bytes == c.btlbw_bytes && told.cc == c.cc
        }),
{
    lemma_little_endian_4(info.skip(68));
    lemma_little_endian_4(info.skip(148));
    lemma_little_endian_4(info.skip(100));
    lemma_eight_bytes(info, 168);
    lemma_eight_bytes(info, 176);
    lemma_eight_bytes(info, 184);
    lemma_eight_bytes(info, 200);
    lemma_eight_bytes(info, 208);
}

proof fn lemma_eight_bytes(b: Seq<u8>, at: int)
    requires
        0 <= at,
        at + 8 <= b.len(),
    ensures
        little_endian(b.skip(at), 8) == little_endian(b.subrange(at, at + 8), 8),
        0 <= little_endian(b.skip(at), 8) <= u64::MAX,
{
    lemma_first_bytes_count(b.skip(at), b.subrange(at, at + 8), 8);
    reveal_with_fuel(little_endian, 9);
}

proof fn lemma_first_bytes_count(a: Seq<u8>, b: Seq<u8>, n: int)
    requires
        0 <= n <= a.len(),
        n <= b.len(),
        forall|i: int| 0 <= i < n ==> #[trigger] a[i] == b[i],
    ensures
        little_endian(a, n) == little_endian(b, n),
    decreases n,
{
    if n > 0 {
        assert(a[0] == b[0]);
        assert forall|i: int| 0 <= i < n - 1 implies #[trigger] a.skip(1)[i] == b.skip(1)[i] by {
            assert(a[i + 1] == b[i + 1]);
        }
        lemma_first_bytes_count(a.skip(1), b.skip(1), n - 1);
    }
}

/// The `p`-th percentile is the least value of those that as many as `p` in a hundred do not
/// exceed: counting the values in order up to it reaches that share, and counting up to the
/// one before does not.
pub proof fn lemma_percentile_is_the_nearest_rank(n: int, p: int)
    requires
        n > 0,
        0 < p <= 100,
    ensures
        0 <= rank(n, p) < n,
        (rank(n, p) + 1) * 100 >= n * p,
        rank(n, p) * 100 < n * p,
{
    let product = n * p;
    assert(0 < product <= n * 100) by (nonlinear_arith)
        requires
            n > 0,
            0 < p <= 100,
            product == n * p,
    ;
}

/// The smallest time of a round trip is one that some connection saw, and none that was
/// measured is smaller.
pub proof fn lemma_smallest_round_trip(conns: Seq<Conn>)
    ensures
        forall|i: int|
            0 <= i < conns.len() && (#[trigger] conns[i]).min_rtt_us > 0 ==> 0 < smallest_rtt(conns)
                <= conns[i].min_rtt_us,
        smallest_rtt(conns) > 0 ==> exists|i: int|
            0 <= i < conns.len() && (#[trigger] conns[i]).min_rtt_us == smallest_rtt(conns),
    decreases conns.len(),
{
    if conns.len() > 0 {
        let front = conns.drop_last();
        let last = conns.len() - 1;
        lemma_smallest_round_trip(front);
        assert(conns[last] == conns.last());
        assert forall|i: int| 0 <= i < conns.len() && (#[trigger] conns[i]).min_rtt_us > 0 implies 0
            < smallest_rtt(conns) <= conns[i].min_rtt_us by {
            if i < last {
                assert(front[i] == conns[i]);
            }
        }
        if smallest_rtt(conns) > 0 {
            if smallest_rtt(conns) == conns[last].min_rtt_us {
                assert(conns[last].min_rtt_us == smallest_rtt(conns));
            } else {
                let i = choose|i: int|
                    0 <= i < front.len() && (#[trigger] front[i]).min_rtt_us == smallest_rtt(front);
                assert(conns[i].min_rtt_us == smallest_rtt(conns));
            }
        }
    }
}

/// A connection that its application did not hold back counts as measured, and its bandwidth,
/// eight bits to a byte, stands among the estimates; a round trip counts where there was one.
pub proof fn lemma_busy_connection_measures(conns: Seq<Conn>, conn: Conn)
    requires
        !conn.app_limited,
    ensures
        measured(conns.push(conn)) == measured(conns).push(conn),
        conn.btlbw_bytes is None ==> bandwidths(conns.push(conn)) == bandwidths(conns),
        conn.btlbw_bytes matches Some(bytes) ==> bandwidths(conns.push(conn)).len() == bandwidths(
            conns,
        ).len() + 1 && (bytes * 8 <= u64::MAX ==> bandwidths(conns.push(conn)).last() == bytes * 8),
        conn.rtt_us > 0 ==> round_trips(conns.push(conn)) == round_trips(conns).push(
            conn.rtt_us as u64,
        ),
        conn.rtt_us == 0 ==> round_trips(conns.push(conn)) == round_trips(conns),
{
    assert(conns.push(conn).drop_last() =~= conns);
}

/// A connection belongs to the hop that its peer does, and to no other.
pub proof fn lemma_connection_belongs_to_one_hop(
    conns: Seq<Conn>,
    conn: Conn,
    hops: HopTargets,
    key: (Seq<char>, Seq<char>),
)
    ensures
        group(conns.push(conn), hops, key) == (if hops.hop(conn.peer) == Some(key) {
            group(conns, hops, key).push(conn)
        } else {
            group(conns, hops, key)
        }),
{
    assert(conns.push(conn).drop_last() =~= conns);
}

/// An attribute is read as it is written: its length with its heading, its kind, both in two
/// bytes with the lower first, what it holds, and padding to a multiple of four; and what
/// stands behind it is read as if it stood alone.
pub proof fn lemma_attribute_reads_back(
    kind: u16,
    payload: Seq<u8>,
    padding: Seq<u8>,
    rest: Seq<u8>,
)
    requires
        payload.len() + 4 <= u16::MAX,
        padding.len() == aligned(payload.len() as int + 4) - payload.len() - 4,
    ensures
        attributes_in(
            seq![
                ((payload.len() + 4) % 256) as u8,
                ((payload.len() + 4) / 256) as u8,
                (kind % 256) as u8,
                (kind / 256) as u8,
            ] + payload + padding + rest,
        ) == seq![(kind, payload)] + attributes_in(rest),
{
    let len = payload.len() as int + 4;
    let head = seq![(len % 256) as u8, (len / 256) as u8, (kind % 256) as u8, (kind / 256) as u8];
    let data = head + payload + padding + rest;
    lemma_little_endian_2(data);
    lemma_little_endian_2(data.skip(2));
    assert(data.skip(2)[0] == head[2] && data.skip(2)[1] == head[3]);
    assert(little_endian(data, 2) == len);
    assert(little_endian(data.skip(2), 2) == kind);
    assert(data.subrange(4, len) =~= payload);
    assert(data.skip(aligned(len)) =~= rest);
    if aligned(len) >= data.len() {
        assert(rest.len() == 0);
        assert(attributes_in(rest) =~= Seq::<(u16, Seq<u8>)>::empty());
    }
}

/// A request tells its own length, asks for a dump, and names the family, TCP and established
/// connections; everything else of it is empty.
pub proof fn lemma_request_asks_for_established_connections(family: u8)
    ensures
        ({
            let request = request_of(family);
            &&& request.len() == 72
            &&& request[0] == 72 && request[1] == 0 && request[2] == 0 && request[3] == 0
            &&& request[4] == 20 && request[5] == 0
            &&& request[6] + 256 * request[7] == 0x301
            &&& request[16] == family && request[17] == 6
            &&& request[20] == 2
            &&& forall|i: int| 24 <= i < 72 ==> #[trigger] request[i] == 0
        }),
{
}

/// A peer's address stands in a message with its highest byte first.
pub proof fn lemma_peer_address_stands_in_its_bytes(body: Seq<u8>, at: int)
    requires
        body.len() >= 40,
        body[0] == AF_INET || body[0] == AF_INET6,
        0 <= at < 4,
    ensures
        match peer_of(body) {
            Some(Ip::V4(bits)) => body[0] == AF_INET && byte_of(bits as int, at) == body[24 + at],
            Some(Ip::V6(high, low)) => {
                &&& body[0] == AF_INET6
                &&& byte_of(high as int / 0x1_0000_0000, at) == body[24 + at]
                &&& byte_of(high as int % 0x1_0000_0000, at) == body[28 + at]
                &&& byte_of(low as int / 0x1_0000_0000, at) == body[32 + at]
                &&& byte_of(low as int % 0x1_0000_0000, at) == body[36 + at]
            },
            None => false,
        },
{
    lemma_quad_bytes(body, 24, at);
    lemma_quad_bytes(body, 28, at);
    lemma_quad_bytes(body, 32, at);
    lemma_quad_bytes(body, 36, at);
}

/// One of the four bytes of a number, the highest first.
pub open spec fn byte_of(v: int, at: int) -> int {
    if at == 0 {
        v / 0x100_0000
    } else if at == 1 {
        v / 0x1_0000 % 0x100
    } else if at == 2 {
        v / 0x100 % 0x100
    } else {
        v % 0x100
    }
}

proof fn lemma_quad_bytes(body: Seq<u8>, from: int, at: int)
    requires
        0 <= from,
        from + 4 <= body.len(),
        0 <= at < 4,
    ensures
        0 <= quad(body, from) < 0x1_0000_0000,
        byte_of(quad(body, from), at) == body[from + at],
{
    let (a, b, c, d) = (body[from], body[from + 1], body[from + 2], body[from + 3]);
    let v = quad(body, from);
    assert(v == a * 0x100_0000 + b * 0x1_0000 + c * 0x100 + d);
}

/// What the connections of a hop carried together is what any part of them and the others did.
pub proof fn lemma_totals_add_up(some: Seq<Conn>, others: Seq<Conn>, quantity: spec_fn(Conn) -> u64)
    ensures
        total(some + others, quantity) == total(some, quantity) + total(others, quantity),
    decreases others.len(),
{
    if others.len() == 0 {
        assert(some + others =~= some);
    } else {
        assert((some + others).drop_last() =~= some + others.drop_last());
        lemma_totals_add_up(some, others.drop_last(), quantity);
    }
}

/// Of a hop with one connection that measures its path, a sample tells what that connection
/// does.
pub proof fn lemma_one_connection_is_told_as_it_is(
    s: HopLinkSample,
    c: Conn,
    key: (Seq<char>, Seq<char>),
    window_start: i64,
    window_end: i64,
)
    requires
        sample_says(s, seq![c], key, window_start, window_end),
    ensures
        s.conns == 1,
        s.conns_measured == 1 <==> !c.app_limited,
        s.rtt_p50_us == c.rtt_us,
        s.rtt_p90_us == c.rtt_us,
        s.min_rtt_us == c.min_rtt_us,
        s.busy_us == c.busy_us,
        s.rwnd_limited_us == c.rwnd_limited_us,
        s.sndbuf_limited_us == c.sndbuf_limited_us,
        c.bytes_retrans <= c.bytes_sent && c.bytes_sent > 0 ==> s.retrans.part == c.bytes_retrans
            && s.retrans.whole == c.bytes_sent,
        s.btlbw_p50_bps is Some <==> !c.app_limited && c.btlbw_bytes is Some,
        s.btlbw_p90_bps == s.btlbw_p50_bps,
{
    let conns = seq![c];
    assert(conns.drop_last() =~= Seq::<Conn>::empty());
    assert(conns.last() == c);
    reveal_with_fuel(total, 2);
    reveal_with_fuel(measured, 2);
    reveal_with_fuel(bandwidths, 2);
    reveal_with_fuel(round_trips, 2);
    reveal_with_fuel(smallest_rtt, 2);
    lemma_percentiles_of_one(bandwidths(conns));
    lemma_percentiles_of_one(round_trips(conns));
    assert(total(conns, |c: Conn| c.bytes_sent) == c.bytes_sent);
    assert(total(conns, |c: Conn| c.bytes_retrans) == c.bytes_retrans);
    assert(total(conns, |c: Conn| c.busy_us) == c.busy_us);
    assert(total(conns, |c: Conn| c.rwnd_limited_us) == c.rwnd_limited_us);
    assert(total(conns, |c: Conn| c.sndbuf_limited_us) == c.sndbuf_limited_us);
}

proof fn lemma_percentiles_of_one(values: Seq<u64>)
    requires
        values.len() <= 1,
    ensures
        percentile_of(order::ascending(values), 50) == if values.len() == 0 {
            None
        } else {
            Some(values[0])
        },
        percentile_of(order::ascending(values), 90) == percentile_of(order::ascending(values), 50),
{
    order::lemma_ascending(values);
    if values.len() == 1 {
        assert(values.drop_last() =~= Seq::<u64>::empty());
        reveal_with_fuel(order::ascending, 2);
        reveal_with_fuel(order::place_of, 2);
        assert(order::ascending(values.drop_last()) =~= Seq::<u64>::empty());
        assert(order::ascending(values)[0] == values[0]);
    }
}

} // verus!
