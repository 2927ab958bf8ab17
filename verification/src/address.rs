//! IP address literals, in the spellings that `IpAddr`'s parser accepts.
use vstd::prelude::*;
use vstd::slice::slice_subrange;

use crate::{numbers, text};

verus! {

/// An IP address: four bytes, or eight 16-bit groups as two halves.
#[derive(Debug, Clone, Copy, PartialEq, Eq, Structural)]
pub enum Ip {
    V4(u32),
    V6(u64, u64),
}

/// The number that `s` spells in `radix`, digits alone.
pub open spec fn plain_number(s: Seq<char>, radix: int, width: int, max: int) -> Option<int> {
    if 1 <= s.len() <= width {
        match numbers::scan_up(s, radix, 0, 0, max) {
            Ok(v) => Some(v),
            Err(_) => None,
        }
    } else {
        None
    }
}

/// One byte of a dotted quad: no leading zeros.
pub open spec fn octet(s: Seq<char>) -> Option<int> {
    if s.len() > 1 && s[0] == '0' {
        None
    } else {
        plain_number(s, 10, 3, 255)
    }
}

/// A dotted quad.
pub open spec fn ipv4(s: Seq<char>) -> Option<u32> {
    let p = text::split_char(s, '.');
    if p.len() != 4 {
        None
    } else {
        match (octet(p[0]), octet(p[1]), octet(p[2]), octet(p[3])) {
            (Some(a), Some(b), Some(c), Some(d)) => Some(
                (((a * 256 + b) * 256 + c) * 256 + d) as u32,
            ),
            _ => None,
        }
    }
}

/// One group of an IPv6 address: up to four hexadecimal digits.
pub open spec fn hextet(s: Seq<char>) -> Option<u16> {
    match plain_number(s, 16, 4, 0xffff) {
        Some(v) => Some(v as u16),
        None => None,
    }
}

/// The groups that the pieces spell, where every piece is one.
pub open spec fn hextets(pieces: Seq<Seq<char>>) -> Option<Seq<u16>>
    decreases pieces.len(),
{
    if pieces.len() == 0 {
        Some(seq![])
    } else {
        match (hextets(pieces.drop_last()), hextet(pieces.last())) {
            (Some(front), Some(g)) => Some(front.push(g)),
            _ => None,
        }
    }
}

/// The groups of a run between colons; a dotted quad may stand for the last two.
pub open spec fn group_run(s: Seq<char>, quad_allowed: bool) -> Option<Seq<u16>> {
    if s.len() == 0 {
        Some(seq![])
    } else {
        let pieces = text::split_char(s, ':');
        match ipv4(pieces.last()) {
            Some(quad) => if quad_allowed {
                match hextets(pieces.drop_last()) {
                    Some(front) => Some(
                        front.push((quad / 65536) as u16).push((quad % 65536) as u16),
                    ),
                    None => None,
                }
            } else {
                None
            },
            None => hextets(pieces),
        }
    }
}

/// The eight groups of an IPv6 address. `::` stands once, for at least one zero group.
pub open spec fn ipv6_groups(s: Seq<char>) -> Option<Seq<u16>> {
    match text::find_sub(s, "::"@, 0) {
        None => match group_run(s, true) {
            Some(all) => if all.len() == 8 {
                Some(all)
            } else {
                None
            },
            None => None,
        },
        Some(k) => match (group_run(s.take(k), false), group_run(s.skip(k + 2), true)) {
            (Some(head), Some(tail)) => if head.len() + tail.len() <= 7 {
                Some(head + Seq::new((8 - head.len() - tail.len()) as nat, |i: int| 0u16) + tail)
            } else {
                None
            },
            _ => None,
        },
    }
}

/// Four groups as one number.
pub open spec fn half(g: Seq<u16>, from: int) -> u64 {
    (((g[from] * 65536 + g[from + 1]) * 65536 + g[from + 2]) * 65536 + g[from + 3]) as u64
}

/// The address that `s` spells.
pub open spec fn ip_literal(s: Seq<char>) -> Option<Ip> {
    match ipv4(s) {
        Some(bits) => Some(Ip::V4(bits)),
        None => match ipv6_groups(s) {
            Some(g) => Some(Ip::V6(half(g, 0), half(g, 4))),
            None => None,
        },
    }
}

impl Ip {
    /// `127.0.0.0/8`, or `::1`.
    pub open spec fn loopback(self) -> bool {
        match self {
            Ip::V4(bits) => bits / 0x100_0000 == 127,
            Ip::V6(high, low) => high == 0 && low == 1,
        }
    }

    pub fn is_loopback(&self) -> (r: bool)
        ensures
            r == self.loopback(),
    {
        match self {
            Ip::V4(bits) => *bits / 0x100_0000 == 127,
            Ip::V6(high, low) => *high == 0 && *low == 1,
        }
    }

    pub fn is_ipv4(&self) -> (r: bool)
        ensures
            r == (self is V4),
    {
        match self {
            Ip::V4(_) => true,
            Ip::V6(_, _) => false,
        }
    }
}

fn read_plain(s: &[char], radix: u32, width: usize, max: u32) -> (r: Option<u32>)
    requires
        2 <= radix <= 16,
        width <= 4,
        max <= 0xffff,
    ensures
        match r {
            Some(v) => plain_number(s@, radix as int, width as int, max as int) == Some(v as int)
                && v <= max,
            None => plain_number(s@, radix as int, width as int, max as int) is None,
        },
{
    if s.len() < 1 || s.len() > width {
        return None;
    }
    let mut acc: u32 = 0;
    let mut i: usize = 0;
    while i < s.len()
        invariant
            2 <= radix <= 16,
            i <= s.len(),
            acc <= max <= 0xffff,
            numbers::scan_up(s@, radix as int, 0, 0, max as int) == numbers::scan_up(
                s@,
                radix as int,
                i as int,
                acc as int,
                max as int,
            ),
            1 <= s@.len() <= width,
        decreases s.len() - i,
    {
        match numbers::digit_of(s[i], radix) {
            None => {
                return None;
            },
            Some(d) => {
                assert(0 <= acc * radix <= 0xffff * 16) by (nonlinear_arith)
                    requires
                        acc <= 0xffff,
                        radix <= 16,
                ;
                let next: u32 = acc * radix + d;
                if next > max {
                    return None;
                }
                acc = next;
            },
        }
        i = i + 1;
    }
    Some(acc)
}

fn read_octet(s: &[char]) -> (r: Option<u32>)
    ensures
        match r {
            Some(v) => octet(s@) == Some(v as int) && v <= 255,
            None => octet(s@) is None,
        },
{
    if s.len() > 1 && s[0] == '0' {
        None
    } else {
        read_plain(s, 10, 3, 255)
    }
}

fn read_ipv4(s: &[char]) -> (r: Option<u32>)
    ensures
        r == ipv4(s@),
{
    let p = text::split_at_char(s, '.');
    assert(text::views(p@).len() == p@.len());
    if p.len() != 4 {
        return None;
    }
    assert(text::views(p@)[0] == p@[0]@ && text::views(p@)[1] == p@[1]@ && text::views(p@)[2] == p@[2]@ && text::views(
        p@,
    )[3] == p@[3]@);
    match (read_octet(p[0]), read_octet(p[1]), read_octet(p[2]), read_octet(p[3])) {
        (Some(a), Some(b), Some(c), Some(d)) => Some(((a * 256 + b) * 256 + c) * 256 + d),
        _ => None,
    }
}

fn read_hextets(pieces: &Vec<&[char]>, count: usize) -> (r: Option<Vec<u16>>)
    requires
        count <= pieces.len(),
    ensures
        match r {
            Some(v) => hextets(text::views(pieces@).take(count as int)) == Some(v@),
            None => hextets(text::views(pieces@).take(count as int)) is None,
        },
{
    let mut out: Vec<u16> = Vec::new();
    let mut i: usize = 0;
    let mut good = true;
    while i < count
        invariant
            i <= count <= pieces.len(),
            good ==> hextets(text::views(pieces@).take(i as int)) == Some(out@),
            !good ==> hextets(text::views(pieces@).take(i as int)) is None,
        decreases count - i,
    {
        assert(text::views(pieces@).take(i + 1).drop_last() == text::views(pieces@).take(i as int));
        assert(text::views(pieces@).take(i + 1).last() == pieces@[i as int]@);
        match read_plain(pieces[i], 16, 4, 0xffff) {
            Some(g) => {
                if good {
                    out.push(g as u16);
                }
            },
            None => {
                good = false;
            },
        }
        i = i + 1;
    }
    if good {
        Some(out)
    } else {
        None
    }
}

fn read_group_run(s: &[char], quad_allowed: bool) -> (r: Option<Vec<u16>>)
    ensures
        match r {
            Some(v) => group_run(s@, quad_allowed) == Some(v@),
            None => group_run(s@, quad_allowed) is None,
        },
{
    if s.len() == 0 {
        let none: Vec<u16> = Vec::new();
        assert(none@ =~= seq![]);
        return Some(none);
    }
    let pieces = text::split_at_char(s, ':');
    let n: usize = pieces.len();
    proof {
        lemma_split_nonempty(s@, ':');
        assert(text::views(pieces@).len() == n);
        assert(text::views(pieces@).take(n as int) == text::views(pieces@));
        assert(text::views(pieces@).take(n - 1) == text::views(pieces@).drop_last());
        assert(text::views(pieces@).last() == pieces@[n - 1]@);
    }
    match read_ipv4(pieces[n - 1]) {
        Some(quad) => {
            if !quad_allowed {
                return None;
            }
            match read_hextets(&pieces, n - 1) {
                Some(mut front) => {
                    front.push((quad / 65536) as u16);
                    front.push((quad % 65536) as u16);
                    Some(front)
                },
                None => None,
            }
        },
        None => read_hextets(&pieces, n),
    }
}

proof fn lemma_split_nonempty(s: Seq<char>, c: char)
    ensures
        text::split_char(s, c).len() > 0,
{
}

fn read_ipv6_groups(s: &[char]) -> (r: Option<Vec<u16>>)
    ensures
        match r {
            Some(v) => ipv6_groups(s@) == Some(v@) && v@.len() == 8,
            None => ipv6_groups(s@) is None,
        },
{
    proof {
        reveal_strlit("::");
    }
    match text::find_from(s, "::", 0) {
        None => match read_group_run(s, true) {
            Some(all) => if all.len() == 8 {
                Some(all)
            } else {
                None
            },
            None => None,
        },
        Some(k) => {
            let n: usize = s.len();
            let front = slice_subrange(s, 0, k);
            let back = slice_subrange(s, k + 2, n);
            assert(front@ == s@.take(k as int));
            assert(back@ == s@.skip(k + 2));
            match (read_group_run(front, false), read_group_run(back, true)) {
                (Some(head), Some(tail)) => {
                    if head.len() > 7 || tail.len() > 7 - head.len() {
                        return None;
                    }
                    let mut out: Vec<u16> = head;
                    let zeros: usize = 8 - out.len() - tail.len();
                    let ghost h = out@;
                    let mut i: usize = 0;
                    while i < zeros
                        invariant
                            i <= zeros <= 8,
                            out@ == h + Seq::new(i as nat, |j: int| 0u16),
                        decreases zeros - i,
                    {
                        out.push(0);
                        i = i + 1;
                        assert(out@ == h + Seq::new(i as nat, |j: int| 0u16));
                    }
                    let ghost filled = out@;
                    let mut j: usize = 0;
                    while j < tail.len()
                        invariant
                            j <= tail.len() <= 7,
                            out@ == filled + tail@.take(j as int),
                        decreases tail.len() - j,
                    {
                        out.push(tail[j]);
                        j = j + 1;
                        assert(out@ == filled + tail@.take(j as int));
                    }
                    assert(tail@.take(j as int) == tail@);
                    Some(out)
                },
                _ => None,
            }
        },
    }
}

/// Reads an IP address.
pub fn parse_ip(s: &[char]) -> (r: Option<Ip>)
    ensures
        r == ip_literal(s@),
{
    match read_ipv4(s) {
        Some(bits) => Some(Ip::V4(bits)),
        None => match read_ipv6_groups(s) {
            Some(g) => {
                let high: u64 = ((g[0] as u64 * 65536 + g[1] as u64) * 65536 + g[2] as u64) * 65536
                    + g[3] as u64;
                let low: u64 = ((g[4] as u64 * 65536 + g[5] as u64) * 65536 + g[6] as u64) * 65536
                    + g[7] as u64;
                Some(Ip::V6(high, low))
            },
            None => None,
        },
    }
}

proof fn lemma_octet_reads_back(n: int)
    requires
        0 <= n <= 255,
    ensures
        octet(numbers::decimal(n)) == Some(n),
        !numbers::decimal(n).contains('.'),
{
    numbers::lemma_decimal_digits(n);
    numbers::lemma_parse_decimal(n, 255);
    let d = numbers::decimal(n);
    reveal_with_fuel(numbers::decimal, 3);
    assert(1 <= d.len() <= 3);
    assert(d.len() > 1 ==> d[0] != '0');
    assert forall|i: int| 0 <= i < d.len() implies d[i] != '.' by {}
}

proof fn lemma_four_pieces(a: Seq<char>, b: Seq<char>, c: Seq<char>, d: Seq<char>)
    requires
        !a.contains('.') && !b.contains('.') && !c.contains('.') && !d.contains('.'),
    ensures
        text::split_char(a + "."@ + b + "."@ + c + "."@ + d, '.') == seq![a, b, c, d],
{
    reveal_strlit(".");
    let dot = "."@;
    assert(dot =~= seq!['.']);
    text::lemma_join_one_more(seq![a], b, dot);
    text::lemma_join_one_more(seq![a, b], c, dot);
    text::lemma_join_one_more(seq![a, b, c], d, dot);
    assert(text::join(seq![a], dot) == a);
    assert(seq![a].push(b) =~= seq![a, b]);
    assert(seq![a, b].push(c) =~= seq![a, b, c]);
    assert(seq![a, b, c].push(d) =~= seq![a, b, c, d]);
    let all = seq![a, b, c, d];
    assert forall|i: int| 0 <= i < all.len() implies !(#[trigger] all[i]).contains('.') by {}
    text::lemma_split_joined(all, '.', dot);
}

/// Four bytes with dots between them are the address whose bytes they are, the first the
/// highest; it belongs to the machine itself exactly where the first byte is 127.
pub proof fn lemma_dotted_quad_reads_back(a: u8, b: u8, c: u8, d: u8)
    ensures
        ip_literal(
            numbers::decimal(a as int) + "."@ + numbers::decimal(b as int) + "."@
                + numbers::decimal(c as int) + "."@ + numbers::decimal(d as int),
        ) == Some(Ip::V4((a * 0x100_0000 + b * 0x1_0000 + c * 0x100 + d) as u32)),
        Ip::V4((a * 0x100_0000 + b * 0x1_0000 + c * 0x100 + d) as u32).loopback() <==> a == 127,
{
    lemma_octet_reads_back(a as int);
    lemma_octet_reads_back(b as int);
    lemma_octet_reads_back(c as int);
    lemma_octet_reads_back(d as int);
    lemma_four_pieces(
        numbers::decimal(a as int),
        numbers::decimal(b as int),
        numbers::decimal(c as int),
        numbers::decimal(d as int),
    );
    assert(((a * 256 + b) * 256 + c) * 256 + d == a * 0x100_0000 + b * 0x1_0000 + c * 0x100 + d);
}

} // verus!
