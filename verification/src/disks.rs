//! What the kernel's text files say about the disk under a directory.
use vstd::prelude::*;
use vstd::string::*;

use crate::bytes::from_utf8_lossy;
use crate::{bytes, numbers, paths, text};

verus! {

/// Counters of one block device since boot.
#[derive(Debug, Clone, Copy, PartialEq, Eq, Structural)]
pub struct DiskCounters {
    pub major: u64,
    pub minor: u64,
    pub reads: u64,
    pub sectors_read: u64,
    pub read_ms: u64,
    pub writes: u64,
    pub sectors_written: u64,
    pub write_ms: u64,
    pub in_flight: u64,
    pub busy_ms: u64,
    pub weighted_ms: u64,
}

/// Where a directory is mounted.
#[derive(Debug, PartialEq, Eq)]
pub struct DiskIdentity {
    pub mount: String,
    pub filesystem: String,
    pub device: String,
    pub read_only: bool,
}

/// What a filesystem says of its size.
#[derive(Debug, Clone, Copy, PartialEq, Eq, Structural)]
pub struct DiskInfo {
    pub total_bytes: u64,
    pub free_bytes: u64,
    pub inode_total: Option<u64>,
    pub inode_free: Option<u64>,
}

/// The sizes of a filesystem, from its block size (one, where it reports none) and
/// counts of blocks and inodes. A filesystem that reports no inodes has no fixed
/// table of them, which is no shortage. `available` leaves the root reserve out.
pub fn disk_info(
    fragment: u64,
    blocks: u64,
    available: u64,
    inodes: u64,
    inodes_available: u64,
) -> (r: DiskInfo)
    ensures
        r == (DiskInfo {
            total_bytes: numbers::capped(
                blocks * (if fragment == 0 {
                    1
                } else {
                    fragment
                }),
            ),
            free_bytes: numbers::capped(
                available * (if fragment == 0 {
                    1
                } else {
                    fragment
                }),
            ),
            inode_total: if inodes > 0 {
                Some(inodes)
            } else {
                None
            },
            inode_free: if inodes > 0 {
                Some(inodes_available)
            } else {
                None
            },
        }),
{
    let block: u64 = if fragment == 0 {
        1
    } else {
        fragment
    };
    DiskInfo {
        total_bytes: numbers::mul_capped(blocks, block),
        free_bytes: numbers::mul_capped(available, block),
        inode_total: if inodes > 0 {
            Some(inodes)
        } else {
            None
        },
        inode_free: if inodes > 0 {
            Some(inodes_available)
        } else {
            None
        },
    }
}

/// The counters among the words of a line, where each is a number.
pub open spec fn disk_line(fields: Seq<Seq<char>>, major: u64, minor: u64) -> Option<DiskCounters> {
    match (
        numbers::as_u64(fields[3]),
        numbers::as_u64(fields[5]),
        numbers::as_u64(fields[6]),
        numbers::as_u64(fields[7]),
        numbers::as_u64(fields[9]),
        numbers::as_u64(fields[10]),
        numbers::as_u64(fields[11]),
        numbers::as_u64(fields[12]),
        numbers::as_u64(fields[13]),
    ) {
        (
            Some(reads),
            Some(sectors_read),
            Some(read_ms),
            Some(writes),
            Some(sectors_written),
            Some(write_ms),
            Some(in_flight),
            Some(busy_ms),
            Some(weighted_ms),
        ) => Some(
            DiskCounters {
                major,
                minor,
                reads,
                sectors_read,
                read_ms,
                writes,
                sectors_written,
                write_ms,
                in_flight,
                busy_ms,
                weighted_ms,
            },
        ),
        _ => None,
    }
}

/// The counters of a device, from the lines at or after `from`. Lines that are too
/// short or about other devices are passed over; a device number that does not
/// parse ends the search.
pub open spec fn disk_of(lines: Seq<Seq<char>>, major: u64, minor: u64, from: int) -> Option<
    DiskCounters,
>
    decreases lines.len() - from,
{
    if from < 0 || from >= lines.len() {
        None
    } else {
        let fields = text::words(lines[from]);
        if fields.len() < 14 {
            disk_of(lines, major, minor, from + 1)
        } else {
            match numbers::as_u64(fields[0]) {
                None => None,
                Some(a) => if a != major {
                    disk_of(lines, major, minor, from + 1)
                } else {
                    match numbers::as_u64(fields[1]) {
                        None => None,
                        Some(b) => if b != minor {
                            disk_of(lines, major, minor, from + 1)
                        } else {
                            disk_line(fields, major, minor)
                        },
                    }
                },
            }
        }
    }
}

fn read_disk_line(fields: &Vec<&[char]>, major: u64, minor: u64) -> (r: Option<DiskCounters>)
    requires
        fields.len() >= 14,
    ensures
        r == disk_line(text::views(fields@), major, minor),
{
    proof {
        assert forall|i: int| 0 <= i < fields@.len() implies #[trigger] text::views(fields@)[i]
            == fields@[i]@ by {}
    }
    match (
        numbers::read_u64(fields[3]),
        numbers::read_u64(fields[5]),
        numbers::read_u64(fields[6]),
        numbers::read_u64(fields[7]),
        numbers::read_u64(fields[9]),
        numbers::read_u64(fields[10]),
        numbers::read_u64(fields[11]),
        numbers::read_u64(fields[12]),
        numbers::read_u64(fields[13]),
    ) {
        (
            Some(reads),
            Some(sectors_read),
            Some(read_ms),
            Some(writes),
            Some(sectors_written),
            Some(write_ms),
            Some(in_flight),
            Some(busy_ms),
            Some(weighted_ms),
        ) => Some(
            DiskCounters {
                major,
                minor,
                reads,
                sectors_read,
                read_ms,
                writes,
                sectors_written,
                write_ms,
                in_flight,
                busy_ms,
                weighted_ms,
            },
        ),
        _ => None,
    }
}

/// The counters of a device, from `/proc/diskstats`.
pub fn parse_diskstats(content: &str, want_major: u64, want_minor: u64) -> (r: Option<DiskCounters>)
    ensures
        r == disk_of(text::lines(content@), want_major, want_minor, 0),
{
    let chars = text::chars_of(content);
    let lines = text::split_lines(chars.as_slice());
    let ghost all = text::lines(content@);
    let mut i: usize = 0;
    while i < lines.len()
        invariant
            i <= lines.len(),
            all == text::lines(content@),
            all == text::views(lines@),
            disk_of(all, want_major, want_minor, 0) == disk_of(
                all,
                want_major,
                want_minor,
                i as int,
            ),
        decreases lines.len() - i,
    {
        assert(all[i as int] == lines@[i as int]@);
        let fields = text::split_words(lines[i]);
        assert(text::views(fields@).len() == fields@.len());
        if fields.len() >= 14 {
            assert(text::views(fields@)[0] == fields@[0]@);
            assert(text::views(fields@)[1] == fields@[1]@);
            match numbers::read_u64(fields[0]) {
                None => {
                    return None;
                },
                Some(a) => {
                    if a == want_major {
                        match numbers::read_u64(fields[1]) {
                            None => {
                                return None;
                            },
                            Some(b) => {
                                if b == want_minor {
                                    return read_disk_line(&fields, want_major, want_minor);
                                }
                            },
                        }
                    }
                },
            }
        }
        i = i + 1;
    }
    None
}

/// Whether three octal digits follow the byte at `i`.
pub open spec fn escaped(s: Seq<u8>, i: int) -> bool {
    s[i] == 92 && i + 3 < s.len() && 48 <= s[i + 1] <= 55 && 48 <= s[i + 2] <= 55 && 48 <= s[i + 3]
        <= 55
}

/// The byte that three octal digits stand for.
pub open spec fn octal(a: u8, b: u8, c: u8) -> u8 {
    (((a - 48) * 64 + (b - 48) * 8 + (c - 48)) % 256) as u8
}

/// The bytes from `i` on, each escape replaced by the byte it stands for.
pub open spec fn unescaped(s: Seq<u8>, i: int) -> Seq<u8>
    decreases s.len() - i,
{
    if i < 0 || i >= s.len() {
        seq![]
    } else if escaped(s, i) {
        seq![octal(s[i + 1], s[i + 2], s[i + 3])] + unescaped(s, i + 4)
    } else {
        seq![s[i]] + unescaped(s, i + 1)
    }
}

/// A field of mountinfo, with its escapes resolved.
pub open spec fn mount_field(value: Seq<char>) -> Seq<char> {
    bytes::lossy(unescaped(vstd::utf8::encode_utf8(value), 0))
}

/// Resolves the octal escapes with which mountinfo writes blanks and backslashes.
pub fn decode_mount_field(value: &str) -> (r: String)
    ensures
        r@ == mount_field(value@),
{
    let source = value.as_bytes();
    let ghost all = source@;
    let mut out: Vec<u8> = Vec::new();
    let n: usize = source.len();
    let mut i: usize = 0;
    while i < n
        invariant
            i <= n,
            n == source@.len(),
            all == source@,
            out@ + unescaped(all, i as int) == unescaped(all, 0),
        decreases n - i,
    {
        let ghost before = out@;
        if source[i] == 92 && n - i > 3 && 48 <= source[i + 1] && source[i + 1] <= 55 && 48
            <= source[i + 2] && source[i + 2] <= 55 && 48 <= source[i + 3] && source[i + 3] <= 55 {
            let wide: u32 = (source[i + 1] as u32 - 48) * 64 + (source[i + 2] as u32 - 48) * 8 + (
            source[i + 3] as u32 - 48);
            let byte: u8 = (wide % 256) as u8;
            out.push(byte);
            proof {
                assert(escaped(all, i as int));
                assert(byte == octal(all[i + 1], all[i + 2], all[i + 3]));
                assert(before + unescaped(all, i as int) == out@ + unescaped(all, i + 4));
            }
            i = i + 4;
        } else {
            out.push(source[i]);
            proof {
                assert(!escaped(all, i as int));
                assert(before + unescaped(all, i as int) == out@ + unescaped(all, i + 1));
            }
            i = i + 1;
        }
    }
    assert(out@ + unescaped(all, i as int) == out@);
    from_utf8_lossy(out.as_slice())
}

/// How the kernel writes a character into a field of mountinfo.
pub open spec fn escape(c: char) -> Seq<char> {
    if c == ' ' {
        "\\040"@
    } else if c == '\t' {
        "\\011"@
    } else if c == '\n' {
        "\\012"@
    } else if c == '\\' {
        "\\134"@
    } else {
        seq![c]
    }
}

/// How the kernel writes a text into a field of mountinfo.
pub open spec fn escape_all(s: Seq<char>) -> Seq<char>
    decreases s.len(),
{
    if s.len() == 0 {
        seq![]
    } else {
        escape(s[0]) + escape_all(s.drop_first())
    }
}

proof fn lemma_encode_both(a: Seq<char>, b: Seq<char>)
    ensures
        vstd::utf8::encode_utf8(a + b) == vstd::utf8::encode_utf8(a) + vstd::utf8::encode_utf8(b),
    decreases a.len(),
{
    if a.len() == 0 {
        assert(a + b =~= b);
        assert(vstd::utf8::encode_utf8(a) + vstd::utf8::encode_utf8(b) =~= vstd::utf8::encode_utf8(
            b,
        ));
    } else {
        assert((a + b)[0] == a[0]);
        assert((a + b).drop_first() =~= a.drop_first() + b);
        lemma_encode_both(a.drop_first(), b);
        let first = vstd::utf8::encode_scalar(a[0] as u32);
        assert(first + (vstd::utf8::encode_utf8(a.drop_first()) + vstd::utf8::encode_utf8(b))
            =~= first + vstd::utf8::encode_utf8(a.drop_first()) + vstd::utf8::encode_utf8(b));
    }
}

proof fn lemma_unescape_behind(front: Seq<u8>, rest: Seq<u8>, i: int)
    requires
        0 <= i <= rest.len(),
    ensures
        unescaped(front + rest, front.len() + i) == unescaped(rest, i),
    decreases rest.len() - i,
{
    let all = front + rest;
    let k = front.len() + i;
    if i < rest.len() {
        assert(all[k] == rest[i]);
        if escaped(rest, i) {
            assert(all[k + 1] == rest[i + 1]);
            assert(all[k + 2] == rest[i + 2]);
            assert(all[k + 3] == rest[i + 3]);
            lemma_unescape_behind(front, rest, i + 4);
        } else {
            if escaped(all, k) {
                assert(all[k + 1] == rest[i + 1]);
                assert(all[k + 2] == rest[i + 2]);
                assert(all[k + 3] == rest[i + 3]);
            }
            lemma_unescape_behind(front, rest, i + 1);
        }
    }
}

proof fn lemma_unescape_plain(front: Seq<u8>, rest: Seq<u8>, i: int)
    requires
        forall|j: int| 0 <= j < front.len() ==> #[trigger] front[j] != 92,
        0 <= i <= front.len(),
    ensures
        unescaped(front + rest, i) == front.skip(i) + unescaped(rest, 0),
    decreases front.len() - i,
{
    let all = front + rest;
    if i < front.len() {
        assert(all[i] == front[i]);
        lemma_unescape_plain(front, rest, i + 1);
        assert(seq![front[i]] + (front.skip(i + 1) + unescaped(rest, 0)) =~= front.skip(i)
            + unescaped(rest, 0));
    } else {
        lemma_unescape_behind(front, rest, 0);
        assert(front.skip(i) + unescaped(rest, 0) =~= unescaped(rest, 0));
    }
}

proof fn lemma_unescape_one(a: u8, b: u8, c: u8, rest: Seq<u8>)
    requires
        48 <= a <= 55,
        48 <= b <= 55,
        48 <= c <= 55,
    ensures
        unescaped(seq![92u8, a, b, c] + rest, 0) == seq![octal(a, b, c)] + unescaped(rest, 0),
{
    let front = seq![92u8, a, b, c];
    let all = front + rest;
    assert(all[0] == 92 && all[1] == a && all[2] == b && all[3] == c);
    assert(escaped(all, 0));
    lemma_unescape_behind(front, rest, 0);
}

proof fn lemma_encode_digits(a: char, b: char, c: char)
    requires
        '0' <= a <= '7',
        '0' <= b <= '7',
        '0' <= c <= '7',
    ensures
        vstd::utf8::encode_utf8(seq!['\\', a, b, c]) == seq![92u8, a as u8, b as u8, c as u8],
{
    let s = seq!['\\', a, b, c];
    lemma_narrow('\\');
    lemma_narrow(a);
    lemma_narrow(b);
    lemma_narrow(c);
    let none = Seq::<char>::empty();
    assert(s.drop_first() =~= seq![a, b, c]);
    assert(seq![a, b, c].drop_first() =~= seq![b, c]);
    assert(seq![b, c].drop_first() =~= seq![c]);
    assert(seq![c].drop_first() =~= none);
    assert(vstd::utf8::encode_utf8(none) =~= seq![]);
    assert(vstd::utf8::encode_utf8(seq![c]) =~= seq![c as u8]);
    assert(vstd::utf8::encode_utf8(seq![b, c]) =~= seq![b as u8, c as u8]);
    assert(vstd::utf8::encode_utf8(seq![a, b, c]) =~= seq![a as u8, b as u8, c as u8]);
    assert(vstd::utf8::encode_utf8(s) =~= seq![92u8, a as u8, b as u8, c as u8]);
}

proof fn lemma_narrow(c: char)
    requires
        (c as u32) < 128,
    ensures
        vstd::utf8::encode_scalar(c as u32) == seq![c as u8],
{
    let v = c as u32;
    assert((v & 0x7F) as u8 == v as u8) by (bit_vector)
        requires
            v < 128,
    ;
    assert(vstd::utf8::encode_scalar(v) =~= seq![v as u8]);
}

proof fn lemma_no_backslash(c: char)
    requires
        c != '\\',
    ensures
        forall|j: int|
            0 <= j < vstd::utf8::encode_scalar(c as u32).len() ==> #[trigger]
            vstd::utf8::encode_scalar(c as u32)[j] != 92,
{
    let v = c as u32;
    if v < 128 {
        lemma_narrow(c);
    } else {
        assert((0xC0u8 | ((v >> 6) & 0x1F) as u8) >= 0xC0) by (bit_vector);
        assert((0xE0u8 | ((v >> 12) & 0x0F) as u8) >= 0xE0) by (bit_vector);
        assert((0xF0u8 | ((v >> 18) & 0x07) as u8) >= 0xF0) by (bit_vector);
        assert((0x80u8 | (v & 0x3F) as u8) >= 0x80) by (bit_vector);
        assert((0x80u8 | ((v >> 6) & 0x3F) as u8) >= 0x80) by (bit_vector);
        assert((0x80u8 | ((v >> 12) & 0x3F) as u8) >= 0x80) by (bit_vector);
    }
}

proof fn lemma_unescape_undoes(s: Seq<char>)
    ensures
        unescaped(vstd::utf8::encode_utf8(escape_all(s)), 0) == vstd::utf8::encode_utf8(s),
    decreases s.len(),
{
    if s.len() == 0 {
        assert(escape_all(s) =~= seq![]);
        assert(unescaped(vstd::utf8::encode_utf8(escape_all(s)), 0) =~= seq![]);
        assert(vstd::utf8::encode_utf8(s) =~= seq![]);
    } else {
        let c = s[0];
        let rest = s.drop_first();
        let behind = vstd::utf8::encode_utf8(escape_all(rest));
        lemma_unescape_undoes(rest);
        lemma_encode_both(escape(c), escape_all(rest));
        if c == ' ' || c == '\t' || c == '\n' || c == '\\' {
            reveal_strlit("\\040");
            reveal_strlit("\\011");
            reveal_strlit("\\012");
            reveal_strlit("\\134");
            let e = escape(c);
            assert(e =~= seq!['\\', e[1], e[2], e[3]]);
            lemma_encode_digits(e[1], e[2], e[3]);
            lemma_unescape_one(e[1] as u8, e[2] as u8, e[3] as u8, behind);
            lemma_narrow(c);
            assert(octal(e[1] as u8, e[2] as u8, e[3] as u8) == c as u8);
        } else {
            let front = vstd::utf8::encode_scalar(c as u32);
            let none = Seq::<char>::empty();
            assert(seq![c].drop_first() =~= none);
            assert(vstd::utf8::encode_utf8(none) =~= seq![]);
            assert(vstd::utf8::encode_utf8(seq![c]) =~= front);
            lemma_no_backslash(c);
            lemma_unescape_plain(front, behind, 0);
            assert(front.skip(0) =~= front);
        }
    }
}

/// Decoding a field undoes the kernel's escaping, whatever the field was.
pub proof fn lemma_decoding_undoes_escaping(s: Seq<char>)
    ensures
        mount_field(escape_all(s)) == s,
{
    lemma_unescape_undoes(s);
    vstd::utf8::encode_utf8_valid_utf8(s);
    vstd::utf8::encode_utf8_decode_utf8(s);
}

/// Whether some option among the first `n` is `ro`.
pub open spec fn has_ro(options: Seq<Seq<char>>, n: int) -> bool {
    exists|i: int| 0 <= i < n && i < options.len() && #[trigger] options[i] == "ro"@
}

/// One mount: where, of what kind, from which device, and whether it is read-only.
#[verifier::ext_equal]
pub struct MountView {
    pub mount: Seq<char>,
    pub filesystem: Seq<char>,
    pub device: Seq<char>,
    pub read_only: bool,
}

impl View for DiskIdentity {
    type V = MountView;

    open spec fn view(&self) -> MountView {
        MountView {
            mount: self.mount@,
            filesystem: self.filesystem@,
            device: self.device@,
            read_only: self.read_only,
        }
    }
}

/// The mount that a line of mountinfo describes.
pub open spec fn mount_line(line: Seq<char>) -> Option<MountView> {
    match text::split_once_sub(line, " - "@) {
        None => None,
        Some((left, right)) => {
            let l = text::words(left);
            let r = text::words(right);
            if l.len() < 6 || r.len() < 2 {
                None
            } else {
                let options = text::split_char(l[5], ',');
                Some(
                    MountView {
                        mount: mount_field(l[4]),
                        filesystem: mount_field(r[0]),
                        device: mount_field(r[1]),
                        read_only: has_ro(options, options.len() as int),
                    },
                )
            }
        },
    }
}

/// How long a mountpoint is, in bytes.
pub open spec fn specificity(mount: Seq<char>) -> usize {
    vstd::utf8::encode_utf8(mount).len() as usize
}

/// The longest mountpoint above `target`; among equally long ones the first.
pub open spec fn mount_of(lines: Seq<Seq<char>>, target: Seq<char>) -> Option<MountView>
    decreases lines.len(),
{
    if lines.len() == 0 {
        None
    } else {
        let best = mount_of(lines.drop_last(), target);
        match mount_line(lines.last()) {
            Some(m) => if !paths::lies_under(target, m.mount) {
                best
            } else {
                match best {
                    Some(b) => if specificity(m.mount) > specificity(b.mount) {
                        Some(m)
                    } else {
                        best
                    },
                    None => Some(m),
                }
            },
            None => best,
        }
    }
}

fn read_only_option(field: &[char]) -> (r: bool)
    ensures
        r == ({
            let options = text::split_char(field@, ',');
            has_ro(options, options.len() as int)
        }),
{
    let options = text::split_at_char(field, ',');
    let ghost all = text::views(options@);
    assert(all.len() == options@.len());
    let mut i: usize = 0;
    while i < options.len()
        invariant
            i <= options.len(),
            all.len() == options@.len(),
            all == text::views(options@),
            all == text::split_char(field@, ','),
            !has_ro(all, i as int),
        decreases options.len() - i,
    {
        assert(all[i as int] == options@[i as int]@);
        if text::same(options[i], "ro") {
            return true;
        }
        i = i + 1;
    }
    false
}

fn read_mount_line(line: &[char]) -> (r: Option<DiskIdentity>)
    ensures
        match r {
            Some(d) => mount_line(line@) == Some(d@),
            None => mount_line(line@) is None,
        },
{
    match text::cut_once_sub(line, " - ") {
        None => None,
        Some((left, right)) => {
            let l = text::split_words(left);
            let r = text::split_words(right);
            assert(text::views(l@).len() == l@.len());
            assert(text::views(r@).len() == r@.len());
            if l.len() < 6 || r.len() < 2 {
                return None;
            }
            assert(text::views(l@)[4] == l@[4]@);
            assert(text::views(l@)[5] == l@[5]@);
            assert(text::views(r@)[0] == r@[0]@);
            assert(text::views(r@)[1] == r@[1]@);
            let out = DiskIdentity {
                mount: decode_mount_field(text::string_of(l[4]).as_str()),
                filesystem: decode_mount_field(text::string_of(r[0]).as_str()),
                device: decode_mount_field(text::string_of(r[1]).as_str()),
                read_only: read_only_option(l[5]),
            };
            Some(out)
        },
    }
}

/// The mount holding `target`, from `/proc/self/mountinfo`.
pub fn parse_mountinfo(content: &str, target: &str) -> (r: Option<DiskIdentity>)
    ensures
        match r {
            Some(d) => mount_of(text::lines(content@), target@) == Some(d@),
            None => mount_of(text::lines(content@), target@) is None,
        },
{
    let chars = text::chars_of(content);
    let lines = text::split_lines(chars.as_slice());
    let ghost all = text::lines(content@);
    let mut best: Option<DiskIdentity> = None;
    let mut i: usize = 0;
    while i < lines.len()
        invariant
            i <= lines.len(),
            all == text::views(lines@),
            match best {
                Some(d) => mount_of(all.take(i as int), target@) == Some(d@),
                None => mount_of(all.take(i as int), target@) is None,
            },
        decreases lines.len() - i,
    {
        proof {
            assert(all.take(i + 1).drop_last() == all.take(i as int));
            assert(all.take(i + 1).last() == lines@[i as int]@);
        }
        match read_mount_line(lines[i]) {
            Some(found) => {
                if paths::path_starts_with(target, found.mount.as_str()) {
                    let longer = match &best {
                        Some(b) => found.mount.as_str().len() > b.mount.as_str().len(),
                        None => true,
                    };
                    if longer {
                        best = Some(found);
                    }
                }
            },
            None => {},
        }
        i = i + 1;
    }
    assert(all.take(i as int) == all);
    best
}

/// The mount found holds the target: a mountpoint that is only a textual prefix is
/// not taken.
pub proof fn lemma_mount_holds_target(lines: Seq<Seq<char>>, target: Seq<char>)
    ensures
        match mount_of(lines, target) {
            Some(m) => paths::lies_under(target, m.mount),
            None => true,
        },
    decreases lines.len(),
{
    if lines.len() > 0 {
        lemma_mount_holds_target(lines.drop_last(), target);
    }
}

/// No line describes a longer mountpoint above the target than the one found.
pub proof fn lemma_longest_mount_wins(lines: Seq<Seq<char>>, target: Seq<char>, i: int)
    requires
        0 <= i < lines.len(),
        mount_line(lines[i]) is Some,
        paths::lies_under(target, mount_line(lines[i])->0.mount),
    ensures
        mount_of(lines, target) is Some,
        specificity(mount_of(lines, target)->0.mount) >= specificity(
            mount_line(lines[i])->0.mount,
        ),
    decreases lines.len(),
{
    if i < lines.len() - 1 {
        assert(lines.drop_last()[i] == lines[i]);
        lemma_longest_mount_wins(lines.drop_last(), target, i);
    }
}

/// The counters of a disk as the kernel prints them behind its numbers and its name: reads,
/// those merged, sectors and time, the same of writes, and then what is in flight, the time it
/// was busy, and that time weighted.
pub proof fn lemma_disk_line_reads_back(major: u64, minor: u64, name: Seq<char>, f: Seq<u64>)
    requires
        text::is_word(name),
        f.len() >= 11,
    ensures
        ({
            let line = text::join(
                seq![numbers::decimal(major as int), numbers::decimal(minor as int), name]
                    + numbers::spelled(f),
                seq![' '],
            );
            disk_of(seq![line], major, minor, 0) == Some(
                DiskCounters {
                    major,
                    minor,
                    reads: f[0],
                    sectors_read: f[2],
                    read_ms: f[3],
                    writes: f[4],
                    sectors_written: f[6],
                    write_ms: f[7],
                    in_flight: f[8],
                    busy_ms: f[9],
                    weighted_ms: f[10],
                },
            )
        }),
{
    let ids = seq![numbers::decimal(major as int), numbers::decimal(minor as int), name];
    let pieces = ids + numbers::spelled(f);
    let line = text::join(pieces, seq![' ']);
    numbers::lemma_spelled_numbers_read_back(f);
    numbers::lemma_decimal_digits(major as int);
    numbers::lemma_decimal_digits(minor as int);
    numbers::lemma_parse_decimal(major as int, u64::MAX as int);
    numbers::lemma_parse_decimal(minor as int, u64::MAX as int);
    assert forall|i: int| 0 <= i < pieces.len() implies text::is_word(#[trigger] pieces[i]) by {
        if i >= 3 {
            assert(pieces[i] == numbers::spelled(f)[i - 3]);
        }
    }
    text::lemma_spaced_words(pieces);
    assert forall|i: int| 0 <= i < f.len() implies numbers::as_u64(#[trigger] pieces[i + 3]) == Some(
        f[i],
    ) by {
        numbers::lemma_parse_decimal(f[i] as int, u64::MAX as int);
        assert(pieces[i + 3] == numbers::spelled(f)[i]);
    }
    assert(numbers::as_u64(pieces[0int + 3]) == Some(f[0]));
    assert(numbers::as_u64(pieces[2int + 3]) == Some(f[2]));
    assert(numbers::as_u64(pieces[3int + 3]) == Some(f[3]));
    assert(numbers::as_u64(pieces[4int + 3]) == Some(f[4]));
    assert(numbers::as_u64(pieces[6int + 3]) == Some(f[6]));
    assert(numbers::as_u64(pieces[7int + 3]) == Some(f[7]));
    assert(numbers::as_u64(pieces[8int + 3]) == Some(f[8]));
    assert(numbers::as_u64(pieces[9int + 3]) == Some(f[9]));
    assert(numbers::as_u64(pieces[10int + 3]) == Some(f[10]));
    assert(seq![line][0] == line);
}

/// A mount is what its line says: where it is mounted stands fifth, with its options behind,
/// and its kind and its device behind the dash, each as it was before the kernel wrote it; and
/// it can only be read exactly where one of the options says so.
pub proof fn lemma_mount_is_what_its_line_says(
    line: Seq<char>,
    left: Seq<char>,
    right: Seq<char>,
    mount: Seq<char>,
    filesystem: Seq<char>,
    device: Seq<char>,
    options: Seq<Seq<char>>,
)
    requires
        text::split_once_sub(line, " - "@) == Some((left, right)),
        text::words(left).len() >= 6,
        text::words(right).len() >= 2,
        text::words(left)[4] == escape_all(mount),
        text::words(right)[0] == escape_all(filesystem),
        text::words(right)[1] == escape_all(device),
        text::split_char(text::words(left)[5], ',') == options,
    ensures
        mount_line(line) is Some,
        mount_line(line)->0.mount == mount,
        mount_line(line)->0.filesystem == filesystem,
        mount_line(line)->0.device == device,
        mount_line(line)->0.read_only <==> options.contains("ro"@),
{
    lemma_decoding_undoes_escaping(mount);
    lemma_decoding_undoes_escaping(filesystem);
    lemma_decoding_undoes_escaping(device);
    if options.contains("ro"@) {
        let i = choose|i: int| 0 <= i < options.len() && options[i] == "ro"@;
        assert(options[i] == "ro"@);
    }
}

} // verus!
