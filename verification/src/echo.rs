//! Echo requests that measure how large a packet a path carries.
use vstd::prelude::*;
use vstd::string::*;

use crate::address::{parse_ip, Ip};
use crate::{address, text};

verus! {

/// What one probe found. That nothing could be sent is neither.
#[derive(Debug, Clone, Copy, PartialEq, Eq, Structural)]
pub enum Probe {
    Fits,
    TooBig,
}

/// How the tunnel's packets travel.
#[derive(Debug, Clone, Copy, PartialEq, Eq, Structural)]
pub enum ProbeTransport {
    Udp,
    FakeTcp,
}

pub const IPV4_HEADER: u16 = 20;

pub const IPV6_HEADER: u16 = 40;

pub const UDP_HEADER: u16 = 8;

pub const TCP_HEADER: u16 = 20;

pub const WIREGUARD_HEADER: u16 = 32;

/// The header of an echo request.
pub const ECHO_HEADER: u16 = 8;

/// What is to be subtracted from a path's largest packet to get the tunnel's. An
/// endpoint that also has an IPv6 address is counted at IPv6's larger header, since
/// the tunnel may take it: too small is slow, too large is broken.
pub open spec fn overhead(also_v6: bool, transport: ProbeTransport) -> u16 {
    let ip = if also_v6 {
        IPV6_HEADER
    } else {
        IPV4_HEADER
    };
    let carried = match transport {
        ProbeTransport::Udp => UDP_HEADER,
        ProbeTransport::FakeTcp => TCP_HEADER,
    };
    (ip + carried + WIREGUARD_HEADER) as u16
}

/// What is to be subtracted from a path's largest packet to get the tunnel's.
pub fn wireguard_overhead(also_v6: bool, transport: ProbeTransport) -> (r: u16)
    ensures
        r == overhead(also_v6, transport),
{
    let ip: u16 = if also_v6 {
        IPV6_HEADER
    } else {
        IPV4_HEADER
    };
    let carried: u16 = match transport {
        ProbeTransport::Udp => UDP_HEADER,
        ProbeTransport::FakeTcp => TCP_HEADER,
    };
    ip + carried + WIREGUARD_HEADER
}

/// Counting IPv6, or the disguise, never makes the tunnel's packets larger.
pub proof fn lemma_overhead_is_cautious(transport: ProbeTransport)
    ensures
        overhead(true, transport) >= overhead(false, transport),
        overhead(false, ProbeTransport::FakeTcp) >= overhead(false, ProbeTransport::Udp),
        overhead(true, ProbeTransport::FakeTcp) >= overhead(true, ProbeTransport::Udp),
{
}

/// The payload that makes a packet of `mtu` bytes, headers counted.
pub fn payload_for(mtu: u16) -> (r: u16)
    ensures
        r == (if mtu >= IPV4_HEADER + ECHO_HEADER {
            mtu - IPV4_HEADER - ECHO_HEADER
        } else {
            0
        }),
{
    if mtu >= IPV4_HEADER + ECHO_HEADER {
        mtu - IPV4_HEADER - ECHO_HEADER
    } else {
        0
    }
}

/// The sequence number after `seq`.
pub fn next_seq(seq: u16) -> (r: u16)
    ensures
        r == (seq + 1) % 0x10000,
{
    if seq == u16::MAX {
        0
    } else {
        seq + 1
    }
}

/// A number of two bytes, the higher first.
pub open spec fn word(high: u8, low: u8) -> int {
    high * 256 + low
}

/// The sum of the 16-bit words from position `i` on; a last byte alone counts as the
/// higher of two.
pub open spec fn word_sum(data: Seq<u8>, i: int) -> int
    decreases data.len() - i,
{
    if i < 0 || i >= data.len() {
        0
    } else if i + 1 == data.len() {
        word(data[i], 0)
    } else {
        word(data[i], data[i + 1]) + word_sum(data, i + 2)
    }
}

/// A sum with its carries added back in until it fits 16 bits.
pub open spec fn folded(sum: int) -> int {
    if sum == 0 {
        0
    } else {
        (sum - 1) % 65535 + 1
    }
}

/// The one's complement sum of RFC 1071.
pub open spec fn checksum_of(data: Seq<u8>) -> u16 {
    (65535 - folded(word_sum(data, 0))) as u16
}

proof fn lemma_word_sum_bounds(data: Seq<u8>, i: int)
    requires
        0 <= i,
    ensures
        0 <= word_sum(data, i),
        i <= data.len() ==> word_sum(data, i) * 2 <= (data.len() - i + 1) * 65535,
    decreases data.len() - i,
{
    if i < data.len() {
        if i + 1 < data.len() {
            lemma_word_sum_bounds(data, i + 2);
        }
    }
}

proof fn lemma_fold_step(sum: int)
    requires
        sum >= 65536,
    ensures
        folded(sum) == folded(sum % 65536 + sum / 65536),
        sum % 65536 + sum / 65536 < sum,
        sum % 65536 + sum / 65536 > 0,
{
    let q = sum / 65536;
    let next = sum % 65536 + q;
    assert(sum == q * 65536 + sum % 65536);
    assert(sum - 1 == (next - 1) + 65535 * q);
    vstd::arithmetic::div_mod::lemma_mod_multiples_vanish(q, next - 1, 65535);
}

/// The checksum of a packet.
pub fn checksum(data: &[u8]) -> (r: u16)
    requires
        data@.len() <= 0x20000,
    ensures
        r == checksum_of(data@),
{
    let mut sum: u32 = 0;
    let n: usize = data.len();
    let mut i: usize = 0;
    proof {
        lemma_word_sum_bounds(data@, 0);
    }
    while n - i >= 2
        invariant
            i <= n,
            n == data@.len(),
            sum + word_sum(data@, i as int) == word_sum(data@, 0),
            word_sum(data@, 0) <= 65535 * 0x10001,
        decreases n - i,
    {
        proof {
            lemma_word_sum_bounds(data@, i + 2);
        }
        sum = sum + (data[i] as u32) * 256 + (data[i + 1] as u32);
        i = i + 2;
    }
    if i < n {
        sum = sum + (data[i] as u32) * 256;
    }
    let ghost total = word_sum(data@, 0);
    while sum >= 65536
        invariant
            folded(sum as int) == folded(total),
        decreases sum,
    {
        proof {
            lemma_fold_step(sum as int);
        }
        sum = sum % 65536 + sum / 65536;
    }
    proof {
        if sum > 0 {
            vstd::arithmetic::div_mod::lemma_small_mod((sum - 1) as nat, 65535);
        }
    }
    65535 - (sum as u16)
}

/// A probe's payload: a pattern that follows from the time, since packets of zeroes
/// are treated specially on some devices.
pub open spec fn pattern(stamp: u32, payload_len: u16) -> Seq<u8> {
    Seq::new(payload_len as nat, |i: int| ((stamp as u16) ^ (i as u16)) as u8)
}

/// A packet before its checksum is filled in.
pub open spec fn unsealed(identifier: u16, seq: u16, stamp: u32, payload_len: u16) -> Seq<u8> {
    seq![
        8u8,
        0u8,
        0u8,
        0u8,
        (identifier / 256) as u8,
        (identifier % 256) as u8,
        (seq / 256) as u8,
        (seq % 256) as u8,
    ] + pattern(stamp, payload_len)
}

/// A packet with its checksum filled in.
pub open spec fn sealed(identifier: u16, seq: u16, stamp: u32, payload_len: u16) -> Seq<u8> {
    let plain = unsealed(identifier, seq, stamp, payload_len);
    let sum = checksum_of(plain);
    plain.update(2, (sum / 256) as u8).update(3, (sum % 256) as u8)
}

/// An echo request with a payload of `payload_len` bytes.
pub fn echo_request(identifier: u16, seq: u16, stamp: u32, payload_len: u16) -> (r: Vec<u8>)
    ensures
        r@ == sealed(identifier, seq, stamp, payload_len),
        r@.len() == ECHO_HEADER + payload_len,
{
    let mut packet: Vec<u8> = Vec::new();
    packet.push(8);
    packet.push(0);
    packet.push(0);
    packet.push(0);
    packet.push((identifier / 256) as u8);
    packet.push((identifier % 256) as u8);
    packet.push((seq / 256) as u8);
    packet.push((seq % 256) as u8);
    let ghost head = packet@;
    let ghost all = pattern(stamp, payload_len);
    assert(head + all.take(0) == head);
    let mut i: u16 = 0;
    while i < payload_len
        invariant
            i <= payload_len,
            all == pattern(stamp, payload_len),
            packet@ == head + all.take(i as int),
            head.len() == 8,
        decreases payload_len - i,
    {
        let byte: u8 = ((stamp as u16) ^ i) as u8;
        packet.push(byte);
        assert(all.take(i + 1) == all.take(i as int).push(byte));
        i = i + 1;
    }
    assert(all.take(i as int) == all);
    assert(packet@ == unsealed(identifier, seq, stamp, payload_len));
    let sum: u16 = checksum(packet.as_slice());
    packet.set(2, (sum / 256) as u8);
    packet.set(3, (sum % 256) as u8);
    packet
}

proof fn lemma_word_sum_tail(a: Seq<u8>, b: Seq<u8>, i: int)
    requires
        0 <= i,
        a.len() == b.len(),
        forall|j: int| i <= j < a.len() ==> a[j] == b[j],
    ensures
        word_sum(a, i) == word_sum(b, i),
    decreases a.len() - i,
{
    if i + 1 < a.len() {
        lemma_word_sum_tail(a, b, i + 2);
    }
}

/// A request verifies at whoever receives it: with its checksum in place the words of
/// the packet sum to nothing.
pub proof fn lemma_request_verifies(identifier: u16, seq: u16, stamp: u32, payload_len: u16)
    ensures
        checksum_of(sealed(identifier, seq, stamp, payload_len)) == 0,
{
    let plain = unsealed(identifier, seq, stamp, payload_len);
    let full = sealed(identifier, seq, stamp, payload_len);
    let sum = checksum_of(plain);
    let rest = word_sum(plain, 4);
    lemma_word_sum_tail(plain, full, 4);
    lemma_word_sum_bounds(plain, 4);
    reveal_with_fuel(word_sum, 3);
    assert(plain.len() >= 8);
    assert(word_sum(plain, 0) == word(8, 0) + word_sum(plain, 2));
    assert(word_sum(plain, 2) == word(0, 0) + rest);
    assert(word_sum(full, 0) == word(8, 0) + word_sum(full, 2));
    assert(full[2] == (sum / 256) as u8);
    assert(full[3] == (sum % 256) as u8);
    assert(word(full[2], full[3]) == sum);
    assert(word_sum(full, 2) == sum + rest);
    let total = word_sum(plain, 0);
    assert(total > 0);
    let r = (total - 1) % 65535;
    assert(sum == 65535 - (r + 1));
    let q = (total - 1) / 65535;
    assert(total - 1 == 65535 * q + r);
    assert(word_sum(full, 0) - 1 == 65535 * q + 65534);
    vstd::arithmetic::div_mod::lemma_mod_multiples_vanish(q, 65534, 65535);
    vstd::arithmetic::div_mod::lemma_small_mod(65534, 65535);
}

/// The sequence number of an echo reply, where the bytes are one. A raw socket hands
/// the IP header out too, whose length stands in its first byte.
pub open spec fn reply_number(dgram: bool, buf: Seq<u8>) -> Option<u16> {
    if !dgram && buf.len() == 0 {
        None
    } else {
        let start = if dgram {
            0int
        } else {
            (buf[0] % 16) * 4
        };
        if start + 8 > buf.len() || buf[start] != 0 {
            None
        } else {
            Some(word(buf[start + 6], buf[start + 7]) as u16)
        }
    }
}

/// The sequence number of an echo reply, where the bytes are one.
pub fn reply_seq(dgram: bool, buf: &[u8]) -> (r: Option<u16>)
    ensures
        r == reply_number(dgram, buf@),
{
    if !dgram && buf.len() == 0 {
        return None;
    }
    let start: usize = if dgram {
        0
    } else {
        ((buf[0] % 16) as usize) * 4
    };
    if buf.len() < start + 8 || buf[start] != 0 {
        return None;
    }
    Some((buf[start + 6] as u16) * 256 + (buf[start + 7] as u16))
}

/// Whether what came in answers the probe numbered `seq`. Another's reply, or a late
/// one to an earlier probe, does not: the wait goes on.
pub fn answers(dgram: bool, buf: &[u8], seq: u16) -> (r: Option<Probe>)
    ensures
        r == (if reply_number(dgram, buf@) == Some(seq) {
            Some(Probe::Fits)
        } else {
            None
        }),
{
    match reply_seq(dgram, buf) {
        Some(got) => if got == seq {
            Some(Probe::Fits)
        } else {
            None
        },
        None => None,
    }
}

/// What a failed send means: that the packet is too large where the kernel says so,
/// and otherwise that nothing was measured.
pub fn send_failed(too_large: bool, error: &str) -> (r: Result<Probe, String>)
    ensures
        match r {
            Ok(p) => too_large && p == Probe::TooBig,
            Err(e) => !too_large && e@ == "发 ICMP 失败："@ + error@,
        },
{
    if too_large {
        Ok(Probe::TooBig)
    } else {
        let mut out = "发 ICMP 失败：".to_owned();
        out.append(error);
        Err(out)
    }
}

/// What a failed receive means: silence counts as not getting through.
pub fn receive_failed(silence: bool, error: &str) -> (r: Result<Probe, String>)
    ensures
        match r {
            Ok(p) => silence && p == Probe::TooBig,
            Err(e) => !silence && e@ == "收 ICMP 失败："@ + error@,
        },
{
    if silence {
        Ok(Probe::TooBig)
    } else {
        let mut out = "收 ICMP 失败：".to_owned();
        out.append(error);
        Err(out)
    }
}

/// Whether a small probe shows the other end to answer at all.
pub fn reachable(echo: &Result<Probe, String>) -> (r: bool)
    ensures
        r == (*echo matches Ok(p) && p == Probe::Fits),
{
    match echo {
        Ok(Probe::Fits) => true,
        _ => false,
    }
}

/// The first IPv4 address at or after `from`.
pub open spec fn first_v4(found: Seq<Ip>, from: int) -> Option<u32>
    decreases found.len() - from,
{
    if from < 0 || from >= found.len() {
        None
    } else {
        match found[from] {
            Ip::V4(a) => Some(a),
            Ip::V6(_, _) => first_v4(found, from + 1),
        }
    }
}

/// Whether an IPv6 address is among those found.
pub open spec fn any_v6(found: Seq<Ip>) -> bool {
    exists|i: int| 0 <= i < found.len() && (#[trigger] found[i]) is V6
}

/// The address to probe, and whether the endpoint has an IPv6 address as well.
pub open spec fn target(host: Seq<char>, found: Result<Seq<Ip>, Seq<char>>) -> Result<
    (u32, bool),
    Seq<char>,
> {
    match address::ip_literal(host) {
        Some(Ip::V4(a)) => Ok((a, false)),
        Some(Ip::V6(_, _)) => Err(host + " 是 IPv6 字面量，暂时只探 IPv4 路径"@),
        None => match found {
            Err(e) => Err("解析不了 "@ + host + "："@ + e),
            Ok(list) => match first_v4(list, 0) {
                Some(a) => Ok((a, any_v6(list))),
                None => Err(host + " 没有 IPv4 地址，暂时只探 IPv4 路径"@),
            },
        },
    }
}

/// The IPv4 address to probe, and whether the endpoint has an IPv6 address as well.
/// `found` is what the name resolves to; it does not matter for a literal.
pub fn resolve_ipv4(host: &str, found: Result<&Vec<Ip>, &str>) -> (r: Result<(u32, bool), String>)
    ensures
        ({
            let told = target(
                host@,
                match found {
                    Ok(list) => Ok(list@),
                    Err(e) => Err(e@),
                },
            );
            match r {
                Ok(v) => told == Ok::<(u32, bool), Seq<char>>(v),
                Err(e) => told == Err::<(u32, bool), Seq<char>>(e@),
            }
        }),
{
    let chars = text::chars_of(host);
    match parse_ip(chars.as_slice()) {
        Some(Ip::V4(a)) => {
            return Ok((a, false));
        },
        Some(Ip::V6(_, _)) => {
            let mut out = host.to_owned();
            out.append(" 是 IPv6 字面量，暂时只探 IPv4 路径");
            return Err(out);
        },
        None => {},
    }
    match found {
        Err(e) => {
            let mut out = "解析不了 ".to_owned();
            out.append(host);
            out.append("：");
            out.append(e);
            Err(out)
        },
        Ok(list) => {
            let mut v4: Option<u32> = None;
            let mut v6 = false;
            let mut i: usize = 0;
            while i < list.len()
                invariant
                    i <= list.len(),
                    v4 is None ==> first_v4(list@, 0) == first_v4(list@, i as int),
                    v4 is Some ==> first_v4(list@, 0) == v4,
                    v6 == (exists|j: int| 0 <= j < i && (#[trigger] list@[j]) is V6),
                decreases list.len() - i,
            {
                match list[i] {
                    Ip::V4(a) => {
                        if v4.is_none() {
                            v4 = Some(a);
                        }
                    },
                    Ip::V6(_, _) => {
                        assert(list@[i as int] is V6);
                        v6 = true;
                    },
                }
                i = i + 1;
            }
            match v4 {
                Some(a) => Ok((a, v6)),
                None => {
                    let mut out = host.to_owned();
                    out.append(" 没有 IPv4 地址，暂时只探 IPv4 路径");
                    Err(out)
                },
            }
        },
    }
}

/// A reply with the number of a request answers it, and no other: on a socket that hands
/// packets over without their header, and behind a header of any length on one that does
/// not.
pub proof fn lemma_reply_answers_its_request(
    identifier: u16,
    seq: u16,
    stamp: u32,
    payload_len: u16,
    header: Seq<u8>,
)
    requires
        header.len() > 0,
        header.len() == (header[0] % 16) * 4,
    ensures
        ({
            let reply = sealed(identifier, seq, stamp, payload_len).update(0, 0u8);
            &&& reply_number(true, reply) == Some(seq)
            &&& reply_number(false, header + reply) == Some(seq)
        }),
{
    let reply = sealed(identifier, seq, stamp, payload_len).update(0, 0u8);
    assert(reply.len() >= 8);
    assert(reply[6] == (seq / 256) as u8);
    assert(reply[7] == (seq % 256) as u8);
    assert(word(reply[6], reply[7]) == seq);
    let n = header.len() as int;
    let packet = header + reply;
    assert(packet[n] == reply[0]);
    assert(packet[n + 6] == reply[6]);
    assert(packet[n + 7] == reply[7]);
}

/// What the headers come to: twenty bytes more where IPv6 may be taken, twelve more where TCP
/// is imitated, and sixty for UDP over IPv4. A packet of the tunnel with its headers is then
/// exactly a packet of the path.
pub proof fn lemma_headers_add_up(also_v6: bool, transport: ProbeTransport)
    ensures
        overhead(true, transport) == overhead(false, transport) + 20,
        overhead(also_v6, ProbeTransport::FakeTcp) == overhead(also_v6, ProbeTransport::Udp) + 12,
        overhead(false, ProbeTransport::Udp) == 20 + 8 + 32,
{
}

/// A request is read as any host reads one: an echo request, with its identifier and its
/// sequence number in two bytes each, the higher first.
pub proof fn lemma_request_carries_its_numbers(
    identifier: u16,
    seq: u16,
    stamp: u32,
    payload_len: u16,
)
    ensures
        ({
            let packet = sealed(identifier, seq, stamp, payload_len);
            &&& packet.len() == 8 + payload_len
            &&& packet[0] == 8 && packet[1] == 0
            &&& packet[4] * 256 + packet[5] == identifier
            &&& packet[6] * 256 + packet[7] == seq
        }),
{
}

/// The address to probe is one of those found, the first of IPv4; that the endpoint has
/// another kind as well is told exactly where one was found. A literal is probed as it is
/// written, whatever was found.
pub proof fn lemma_first_address_is_probed(host: Seq<char>, found: Seq<Ip>)
    ensures
        match target(host, Ok(found)) {
            Ok((bits, also_v6)) => {
                ||| address::ip_literal(host) == Some(Ip::V4(bits)) && !also_v6
                ||| address::ip_literal(host) is None && (also_v6 <==> any_v6(found)) && exists|
                    k: int,
                |
                    0 <= k < found.len() && #[trigger] found[k] == Ip::V4(bits) && forall|j: int|
                        0 <= j < k ==> (#[trigger] found[j]) is V6
            },
            Err(_) => {
                ||| address::ip_literal(host) is Some && address::ip_literal(host)->0 is V6
                ||| address::ip_literal(host) is None && forall|j: int|
                    0 <= j < found.len() ==> (#[trigger] found[j]) is V6
            },
        },
{
    lemma_first_v4(found, 0);
}

proof fn lemma_first_v4(found: Seq<Ip>, from: int)
    requires
        0 <= from,
    ensures
        match first_v4(found, from) {
            Some(bits) => exists|k: int|
                from <= k < found.len() && #[trigger] found[k] == Ip::V4(bits) && forall|j: int|
                    from <= j < k ==> (#[trigger] found[j]) is V6,
            None => forall|j: int| from <= j < found.len() ==> (#[trigger] found[j]) is V6,
        },
    decreases found.len() - from,
{
    if from < found.len() && found[from] is V6 {
        lemma_first_v4(found, from + 1);
    }
}

} // verus!
