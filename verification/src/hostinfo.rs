//! Slowly changing facts about the machine.
use vstd::prelude::*;
use vstd::string::*;

use crate::disks::{DiskIdentity, DiskInfo};
use crate::nettables::{main_interface, EphemeralPortRange};
use crate::procfs::{parse_meminfo, read_trimmed, read_u64_file};
use crate::{nettables, numbers, procfs, text};

verus! {

/// The value on the first line at or after `from` that is named `key` and not empty.
pub open spec fn cpuinfo_field(lines: Seq<Seq<char>>, key: Seq<char>, from: int) -> Option<
    Seq<char>,
>
    decreases lines.len() - from,
{
    if from < 0 || from >= lines.len() {
        None
    } else {
        match text::split_once(lines[from], ':') {
            Some((name, value)) => if text::trim(name) == key && text::trim(value).len() > 0 {
                Some(text::trim(value))
            } else {
                cpuinfo_field(lines, key, from + 1)
            },
            None => cpuinfo_field(lines, key, from + 1),
        }
    }
}

fn find_cpuinfo<'a>(lines: &Vec<&'a [char]>, key: &str) -> (r: Option<&'a [char]>)
    ensures
        match r {
            Some(v) => cpuinfo_field(text::views(lines@), key@, 0) == Some(v@),
            None => cpuinfo_field(text::views(lines@), key@, 0) is None,
        },
{
    let ghost all = text::views(lines@);
    let mut i: usize = 0;
    while i < lines.len()
        invariant
            i <= lines.len(),
            all == text::views(lines@),
            cpuinfo_field(all, key@, 0) == cpuinfo_field(all, key@, i as int),
        decreases lines.len() - i,
    {
        assert(all[i as int] == lines@[i as int]@);
        match text::cut_once(lines[i], ':') {
            Some((name, value)) => {
                let kept = text::trimmed(value);
                if text::same(text::trimmed(name), key) && kept.len() > 0 {
                    return Some(kept);
                }
            },
            None => {},
        }
        i = i + 1;
    }
    None
}

/// The first non-empty value that `/proc/cpuinfo` gives under a name.
pub fn cpuinfo_value(content: &str, key: &str) -> (r: Option<String>)
    ensures
        text::optional(r) == cpuinfo_field(text::lines(content@), key@, 0),
{
    let chars = text::chars_of(content);
    let lines = text::split_lines(chars.as_slice());
    match find_cpuinfo(&lines, key) {
        Some(v) => Some(text::string_of(v)),
        None => None,
    }
}

fn words_joined(s: &[char]) -> (r: String)
    ensures
        r@ == text::join(text::words(s@), " "@),
{
    let words = text::split_words(s);
    let ghost all = text::words(s@);
    let mut parts: Vec<String> = Vec::new();
    let mut i: usize = 0;
    while i < words.len()
        invariant
            i <= words.len(),
            all == text::views(words@),
            text::string_views(parts@) == all.take(i as int),
        decreases words.len() - i,
    {
        let ghost before = parts@;
        parts.push(text::string_of(words[i]));
        assert(text::string_views(parts@) == text::string_views(before).push(words@[i as int]@));
        assert(all.take(i + 1) == all.take(i as int).push(words@[i as int]@));
        i = i + 1;
    }
    assert(all.take(i as int) == all);
    text::join_strings(&parts, " ")
}

/// A model name with single blanks between its words.
pub fn normalize_cpu_model(value: &str) -> (r: String)
    ensures
        r@ == text::join(text::words(value@), " "@),
{
    let chars = text::chars_of(value);
    words_joined(chars.as_slice())
}

/// `s` without the `0x` marks it begins with.
pub open spec fn without_marks(s: Seq<char>) -> Seq<char>
    decreases s.len(),
{
    if s.len() >= 2 && s[0] == '0' && s[1] == 'x' {
        without_marks(s.skip(2))
    } else {
        s
    }
}

/// A hexadecimal number, with or without its mark.
pub open spec fn hex_number(s: Seq<char>) -> Option<int> {
    match numbers::parse_unsigned(without_marks(text::trim(s)), 16, u32::MAX as int) {
        Ok(n) => Some(n),
        Err(_) => None,
    }
}

fn read_hex(s: &[char]) -> (r: Option<u64>)
    ensures
        match r {
            Some(n) => hex_number(s@) == Some(n as int),
            None => hex_number(s@) is None,
        },
{
    let kept = text::trimmed(s);
    let n: usize = kept.len();
    let mut i: usize = 0;
    assert(kept@.skip(0) == kept@);
    while n - i >= 2 && kept[i] == '0' && kept[i + 1] == 'x'
        invariant
            i <= n,
            n == kept@.len(),
            without_marks(kept@) == without_marks(kept@.skip(i as int)),
        decreases n - i,
    {
        assert(kept@.skip(i as int).skip(2) == kept@.skip(i + 2));
        i = i + 2;
    }
    let rest = vstd::slice::slice_subrange(kept, i, n);
    assert(rest@ == kept@.skip(i as int));
    match numbers::read_unsigned(rest, 16, u32::MAX as u64) {
        Ok(v) => Some(v),
        Err(_) => None,
    }
}

/// The name of a server part of the ARM architecture.
pub open spec fn part_name(implementer: int, part: int) -> Option<Seq<char>> {
    if implementer == 0x41 {
        if part == 0xd03 {
            Some("Cortex-A53"@)
        } else if part == 0xd04 {
            Some("Cortex-A35"@)
        } else if part == 0xd05 {
            Some("Cortex-A55"@)
        } else if part == 0xd07 {
            Some("Cortex-A57"@)
        } else if part == 0xd08 {
            Some("Cortex-A72"@)
        } else if part == 0xd09 {
            Some("Cortex-A73"@)
        } else if part == 0xd0a {
            Some("Cortex-A75"@)
        } else if part == 0xd0b {
            Some("Cortex-A76"@)
        } else if part == 0xd0c {
            Some("Neoverse-N1"@)
        } else if part == 0xd0d {
            Some("Cortex-A77"@)
        } else if part == 0xd40 {
            Some("Neoverse-V1"@)
        } else if part == 0xd41 {
            Some("Cortex-A78"@)
        } else if part == 0xd44 {
            Some("Cortex-X1"@)
        } else if part == 0xd46 {
            Some("Cortex-A510"@)
        } else if part == 0xd47 {
            Some("Cortex-A710"@)
        } else if part == 0xd48 {
            Some("Cortex-X2"@)
        } else if part == 0xd49 {
            Some("Neoverse-N2"@)
        } else if part == 0xd4d {
            Some("Cortex-A715"@)
        } else if part == 0xd4e {
            Some("Cortex-X3"@)
        } else if part == 0xd4f {
            Some("Neoverse-V2"@)
        } else {
            None
        }
    } else if implementer == 0x43 && part == 0x0af {
        Some("Cavium ThunderX2"@)
    } else {
        None
    }
}

/// The name of a part from its two hexadecimal numbers.
pub open spec fn arm_part(implementer: Seq<char>, part: Seq<char>) -> Option<Seq<char>> {
    match (hex_number(implementer), hex_number(part)) {
        (Some(a), Some(b)) => part_name(a, b),
        _ => None,
    }
}

/// The name of a part from its two hexadecimal numbers.
pub fn arm_part_name(implementer: &str, part: &str) -> (r: Option<&'static str>)
    ensures
        match r {
            Some(name) => arm_part(implementer@, part@) == Some(name@),
            None => arm_part(implementer@, part@) is None,
        },
{
    let i = text::chars_of(implementer);
    let p = text::chars_of(part);
    match (read_hex(i.as_slice()), read_hex(p.as_slice())) {
        (Some(a), Some(b)) => match (a, b) {
            (0x41, 0xd03) => Some("Cortex-A53"),
            (0x41, 0xd04) => Some("Cortex-A35"),
            (0x41, 0xd05) => Some("Cortex-A55"),
            (0x41, 0xd07) => Some("Cortex-A57"),
            (0x41, 0xd08) => Some("Cortex-A72"),
            (0x41, 0xd09) => Some("Cortex-A73"),
            (0x41, 0xd0a) => Some("Cortex-A75"),
            (0x41, 0xd0b) => Some("Cortex-A76"),
            (0x41, 0xd0c) => Some("Neoverse-N1"),
            (0x41, 0xd0d) => Some("Cortex-A77"),
            (0x41, 0xd40) => Some("Neoverse-V1"),
            (0x41, 0xd41) => Some("Cortex-A78"),
            (0x41, 0xd44) => Some("Cortex-X1"),
            (0x41, 0xd46) => Some("Cortex-A510"),
            (0x41, 0xd47) => Some("Cortex-A710"),
            (0x41, 0xd48) => Some("Cortex-X2"),
            (0x41, 0xd49) => Some("Neoverse-N2"),
            (0x41, 0xd4d) => Some("Cortex-A715"),
            (0x41, 0xd4e) => Some("Cortex-X3"),
            (0x41, 0xd4f) => Some("Neoverse-V2"),
            (0x43, 0x0af) => Some("Cavium ThunderX2"),
            _ => None,
        },
        _ => None,
    }
}

/// The processor's model: its name where it has one, else the part that its numbers
/// name, else its board, else the numbers themselves.
pub open spec fn model_of(content: Seq<char>) -> Seq<char> {
    let lines = text::lines(content);
    let implementer = cpuinfo_field(lines, "CPU implementer"@, 0);
    let part = cpuinfo_field(lines, "CPU part"@, 0);
    let known = match (implementer, part) {
        (Some(i), Some(p)) => arm_part(i, p),
        _ => None,
    };
    match cpuinfo_field(lines, "model name"@, 0) {
        Some(name) => text::join(text::words(name), " "@),
        None => match known {
            Some(name) => name,
            None => match cpuinfo_field(lines, "Hardware"@, 0) {
                Some(board) => text::join(text::words(board), " "@),
                None => match cpuinfo_field(lines, "Processor"@, 0) {
                    Some(generic) => text::join(text::words(generic), " "@),
                    None => match (implementer, part) {
                        (Some(i), Some(p)) => "ARM "@ + text::trim(i) + ":"@ + text::trim(p),
                        _ => seq![],
                    },
                },
            },
        },
    }
}

/// The processor's model, from `/proc/cpuinfo`.
pub fn parse_cpu_model(content: &str) -> (r: String)
    ensures
        r@ == model_of(content@),
{
    match cpuinfo_value(content, "model name") {
        Some(name) => {
            return normalize_cpu_model(name.as_str());
        },
        None => {},
    }
    let implementer = cpuinfo_value(content, "CPU implementer");
    let part = cpuinfo_value(content, "CPU part");
    match (&implementer, &part) {
        (Some(i), Some(p)) => match arm_part_name(i.as_str(), p.as_str()) {
            Some(name) => {
                return name.to_owned();
            },
            None => {},
        },
        _ => {},
    }
    match cpuinfo_value(content, "Hardware") {
        Some(board) => {
            return normalize_cpu_model(board.as_str());
        },
        None => {},
    }
    match cpuinfo_value(content, "Processor") {
        Some(generic) => {
            return normalize_cpu_model(generic.as_str());
        },
        None => {},
    }
    match (&implementer, &part) {
        (Some(i), Some(p)) => {
            let ic = text::chars_of(i.as_str());
            let pc = text::chars_of(p.as_str());
            let mut out = "ARM ".to_owned();
            out.append(text::string_of(text::trimmed(ic.as_slice())).as_str());
            out.append(":");
            out.append(text::string_of(text::trimmed(pc.as_slice())).as_str());
            out
        },
        _ => String::new(),
    }
}

/// The processor's model; empty where there is no cpuinfo.
pub fn cpu_model(content: Option<&str>) -> (r: String)
    ensures
        r@ == (match content {
            Some(t) => model_of(t@),
            None => seq![],
        }),
{
    match content {
        Some(t) => parse_cpu_model(t),
        None => String::new(),
    }
}

/// `s` without the `c`s at either end.
pub open spec fn strip_start(s: Seq<char>, c: char) -> Seq<char>
    decreases s.len(),
{
    if s.len() > 0 && s[0] == c {
        strip_start(s.skip(1), c)
    } else {
        s
    }
}

/// `s` without the `c`s at its end.
pub open spec fn strip_end(s: Seq<char>, c: char) -> Seq<char>
    decreases s.len(),
{
    if s.len() > 0 && s.last() == c {
        strip_end(s.drop_last(), c)
    } else {
        s
    }
}

fn stripped<'a>(s: &'a [char], c: char) -> (r: &'a [char])
    ensures
        r@ == strip_end(strip_start(s@, c), c),
{
    let n: usize = s.len();
    let mut i: usize = 0;
    assert(s@.skip(0) == s@);
    while i < n && s[i] == c
        invariant
            i <= n,
            n == s@.len(),
            strip_start(s@, c) == strip_start(s@.skip(i as int), c),
        decreases n - i,
    {
        assert(s@.skip(i as int).skip(1) == s@.skip(i + 1));
        i = i + 1;
    }
    let ghost rest = s@.skip(i as int);
    assert(strip_start(s@, c) == rest);
    let mut j: usize = n;
    assert(s@.subrange(i as int, n as int) == rest);
    while j > i && s[j - 1] == c
        invariant
            i <= j <= n,
            n == s@.len(),
            strip_end(rest, c) == strip_end(s@.subrange(i as int, j as int), c),
        decreases j,
    {
        assert(s@.subrange(i as int, j as int).drop_last() == s@.subrange(i as int, j - 1));
        j = j - 1;
    }
    vstd::slice::slice_subrange(s, i, j)
}

/// `PRETTY_NAME` of `/etc/os-release`; empty where there is none.
pub fn os_pretty_name(content: Option<&str>) -> (r: String)
    ensures
        r@ == (match content {
            Some(t) => match text::after_line_prefix(text::lines(t@), "PRETTY_NAME="@) {
                Some(v) => strip_end(strip_start(text::trim(v), '"'), '"'),
                None => seq![],
            },
            None => seq![],
        }),
{
    match content {
        Some(t) => {
            let chars = text::chars_of(t);
            let lines = text::split_lines(chars.as_slice());
            match text::find_after(&lines, "PRETTY_NAME=") {
                Some(v) => text::string_of(stripped(text::trimmed(v), '"')),
                None => String::new(),
            }
        },
        None => String::new(),
    }
}

/// What `str::to_lowercase` makes of text.
pub uninterp spec fn lowercase_text(s: Seq<char>) -> Seq<char>;

/// Lowers with `str::to_lowercase`. ASCII text has its capital letters lowered and
/// nothing else changed; of other text the claim is only that the outcome depends
/// on the text alone.
#[verifier::external_body]
fn to_lowercase(s: &str) -> (r: String)
    ensures
        r@ == lowercase_text(s@),
        vstd::string::is_ascii(s) ==> r@ == text::lower(s@),
{
    s.to_lowercase()
}

/// The platform that a lowered product name speaks of; empty where it is none of the
/// known ones.
pub open spec fn platform(lower: Seq<char>) -> Seq<char> {
    if text::contains_sub(lower, "kvm"@) || text::contains_sub(lower, "qemu"@) {
        "KVM"@
    } else if text::contains_sub(lower, "vmware"@) {
        "VMware"@
    } else if text::contains_sub(lower, "virtualbox"@) {
        "VirtualBox"@
    } else if text::contains_sub(lower, "microsoft"@) || text::contains_sub(lower, "hyper-v"@) {
        "Hyper-V"@
    } else if text::contains_sub(lower, "xen"@) {
        "Xen"@
    } else if text::contains_sub(lower, "amazon"@) || text::contains_sub(lower, "ec2"@) {
        "AWS"@
    } else if text::contains_sub(lower, "google"@) {
        "GCP"@
    } else if text::contains_sub(lower, "oracle"@) {
        "Oracle Cloud"@
    } else if text::contains_sub(lower, "alibaba"@) || text::contains_sub(lower, "aliyun"@) {
        "Alibaba Cloud"@
    } else if text::contains_sub(lower, "tencent"@) {
        "Tencent Cloud"@
    } else if text::contains_sub(lower, "digitalocean"@) {
        "DigitalOcean"@
    } else {
        ""@
    }
}

/// The platform that a lowered product name speaks of.
pub fn platform_name(lower: &str) -> (r: String)
    ensures
        r@ == platform(lower@),
{
    let chars = text::chars_of(lower);
    let l = chars.as_slice();
    if text::contains(l, "kvm") || text::contains(l, "qemu") {
        "KVM".to_owned()
    } else if text::contains(l, "vmware") {
        "VMware".to_owned()
    } else if text::contains(l, "virtualbox") {
        "VirtualBox".to_owned()
    } else if text::contains(l, "microsoft") || text::contains(l, "hyper-v") {
        "Hyper-V".to_owned()
    } else if text::contains(l, "xen") {
        "Xen".to_owned()
    } else if text::contains(l, "amazon") || text::contains(l, "ec2") {
        "AWS".to_owned()
    } else if text::contains(l, "google") {
        "GCP".to_owned()
    } else if text::contains(l, "oracle") {
        "Oracle Cloud".to_owned()
    } else if text::contains(l, "alibaba") || text::contains(l, "aliyun") {
        "Alibaba Cloud".to_owned()
    } else if text::contains(l, "tencent") {
        "Tencent Cloud".to_owned()
    } else if text::contains(l, "digitalocean") {
        "DigitalOcean".to_owned()
    } else {
        "".to_owned()
    }
}

/// The virtualization platform: what systemd says of a container, else OpenVZ where
/// its directory is there, else what the product name tells.
pub open spec fn virt_of(container: Option<Seq<char>>, vz: bool, dmi: Option<Seq<char>>) -> Seq<
    char,
> {
    match container {
        Some(c) if text::trim(c).len() > 0 => text::trim(c),
        _ => if vz {
            "OpenVZ"@
        } else {
            match dmi {
                Some(product) => platform(lowercase_text(product)),
                None => seq![],
            }
        },
    }
}

/// The characters of a text that may be missing.
pub open spec fn given(s: Option<&str>) -> Option<Seq<char>> {
    match s {
        Some(t) => Some(t@),
        None => None,
    }
}

/// The virtualization platform's short name; empty where it is not known.
pub fn detect_virt(container: Option<&str>, vz: bool, dmi: Option<&str>) -> (r: String)
    ensures
        r@ == virt_of(given(container), vz, given(dmi)),
{
    match read_trimmed(container) {
        Some(c) => {
            return c;
        },
        None => {},
    }
    if vz {
        return "OpenVZ".to_owned();
    }
    match dmi {
        Some(product) => platform_name(to_lowercase(product).as_str()),
        None => String::new(),
    }
}

/// Whether the installer's settings name the congestion control. The file alone does
/// not tell: it also holds settings that have nothing to do with it.
pub fn installer_set_congestion_control(content: Option<&str>) -> (r: bool)
    ensures
        r == (match content {
            Some(t) => text::contains_sub(t@, "tcp_congestion_control"@),
            None => false,
        }),
{
    match content {
        Some(t) => {
            let chars = text::chars_of(t);
            text::contains(chars.as_slice(), "tcp_congestion_control")
        },
        None => false,
    }
}

/// The queueing discipline in what `tc qdisc show` prints: the second word of the
/// first line.
pub open spec fn qdisc_in(output: Option<Seq<char>>) -> Seq<char> {
    match output {
        Some(t) => {
            let lines = text::lines(t);
            if lines.len() == 0 {
                seq![]
            } else {
                text::or_empty(text::word(lines[0], 1))
            }
        },
        None => seq![],
    }
}

/// The queueing discipline on an interface, from what `tc qdisc show` prints; empty
/// where that failed.
pub fn nic_qdisc(output: Option<&str>) -> (r: String)
    ensures
        r@ == qdisc_in(given(output)),
{
    match output {
        Some(t) => {
            let chars = text::chars_of(t);
            let lines = text::split_lines(chars.as_slice());
            assert(text::views(lines@).len() == lines@.len());
            if lines.len() == 0 {
                return String::new();
            }
            assert(text::views(lines@)[0] == lines@[0]@);
            match text::nth_word(lines[0], 1) {
                Some(w) => text::string_of(w),
                None => String::new(),
            }
        },
        None => String::new(),
    }
}

/// A transmission unit alone in a file.
pub fn read_nic_mtu(content: Option<&str>) -> (r: Option<u32>)
    ensures
        r == (match content {
            Some(t) => numbers::as_u32(text::trim(t@)),
            None => None::<u32>,
        }),
{
    match content {
        Some(t) => {
            let chars = text::chars_of(t);
            numbers::read_u32(text::trimmed(chars.as_slice()))
        },
        None => None,
    }
}

/// The numbers in the files that could be read and hold one.
pub open spec fn readings(files: Seq<Option<String>>) -> Seq<u64>
    decreases files.len(),
{
    if files.len() == 0 {
        seq![]
    } else {
        let front = readings(files.drop_last());
        match files.last() {
            Some(t) => match numbers::as_u64(text::trim(t@)) {
                Some(v) => front.push(v),
                None => front,
            },
            None => front,
        }
    }
}

fn collect_readings(files: &Vec<Option<String>>) -> (r: Vec<u64>)
    ensures
        r@ == readings(files@),
        r@.len() <= files@.len(),
{
    let mut out: Vec<u64> = Vec::new();
    let mut i: usize = 0;
    while i < files.len()
        invariant
            i <= files.len(),
            out@ == readings(files@.take(i as int)),
            out@.len() <= i,
        decreases files.len() - i,
    {
        proof {
            assert(files@.take(i + 1).drop_last() == files@.take(i as int));
            assert(files@.take(i + 1).last() == files@[i as int]);
        }
        match &files[i] {
            Some(t) => match read_u64_file(Some(t.as_str())) {
                Some(v) => {
                    out.push(v);
                },
                None => {},
            },
            None => {},
        }
        i = i + 1;
    }
    assert(files@.take(i as int) == files@);
    out
}

/// The mean over the processors that tell a frequency, in MHz; each file holds kHz.
pub fn read_cpu_frequency_mhz(files: &Vec<Option<String>>) -> (r: Option<u64>)
    ensures
        ({
            let values = readings(files@);
            if values.len() == 0 {
                r is None
            } else {
                r == Some(
                    (numbers::capped(numbers::sum_of(values, values.len() as int)) as int
                        / values.len() as int / 1000) as u64,
                )
            }
        }),
{
    let values = collect_readings(files);
    if values.len() == 0 {
        return None;
    }
    let sum: u64 = numbers::sum_numbers(&values, values.len());
    let n: u64 = values.len() as u64;
    Some(sum / n / 1000)
}

/// The largest of the first `n` numbers; zero where there are none.
pub open spec fn largest(values: Seq<u64>, n: int) -> u64
    decreases n,
{
    if n <= 0 || n > values.len() {
        0
    } else if values[n - 1] > largest(values, n - 1) {
        values[n - 1]
    } else {
        largest(values, n - 1)
    }
}

/// The highest frequency over the processors that tell one, in MHz.
pub fn read_cpu_max_frequency_mhz(files: &Vec<Option<String>>) -> (r: Option<u64>)
    ensures
        ({
            let values = readings(files@);
            if values.len() == 0 {
                r is None
            } else {
                r == Some((largest(values, values.len() as int) / 1000) as u64)
            }
        }),
{
    let values = collect_readings(files);
    if values.len() == 0 {
        return None;
    }
    let mut best: u64 = 0;
    let mut i: usize = 0;
    while i < values.len()
        invariant
            i <= values.len(),
            best == largest(values@, i as int),
        decreases values.len() - i,
    {
        if values[i] > best {
            best = values[i];
        }
        i = i + 1;
    }
    Some(best / 1000)
}

/// What the files hold that could be read and are not empty.
pub open spec fn contents(files: Seq<Option<String>>) -> Seq<Seq<char>>
    decreases files.len(),
{
    if files.len() == 0 {
        seq![]
    } else {
        let front = contents(files.drop_last());
        match files.last() {
            Some(t) => if text::trim(t@).len() > 0 {
                front.push(text::trim(t@))
            } else {
                front
            },
            None => front,
        }
    }
}

/// Whether all are alike.
pub open spec fn uniform(values: Seq<Seq<char>>) -> bool {
    forall|i: int| 0 <= i < values.len() ==> #[trigger] values[i] == values[0]
}

/// The frequency governor, where every processor that tells one tells the same.
pub fn read_cpu_governor(files: &Vec<Option<String>>) -> (r: Option<String>)
    ensures
        ({
            let values = contents(files@);
            text::optional(r) == if values.len() > 0 && uniform(values) {
                Some(values[0])
            } else {
                None
            }
        }),
{
    let mut first: Option<String> = None;
    let mut alike = true;
    let mut i: usize = 0;
    while i < files.len()
        invariant
            i <= files.len(),
            ({
                let values = contents(files@.take(i as int));
                &&& text::optional(first) == if values.len() > 0 {
                    Some(values[0])
                } else {
                    None
                }
                &&& alike == uniform(values)
            }),
        decreases files.len() - i,
    {
        let ghost seen = contents(files@.take(i as int));
        let ghost now = contents(files@.take(i + 1));
        proof {
            assert(files@.take(i + 1).drop_last() == files@.take(i as int));
            assert(files@.take(i + 1).last() == files@[i as int]);
        }
        match &files[i] {
            Some(t) => match read_trimmed(Some(t.as_str())) {
                Some(v) => {
                    assert(now == seen.push(v@));
                    let same = match &first {
                        Some(f) => text::same_str(f.as_str(), v.as_str()),
                        None => true,
                    };
                    proof {
                        if uniform(now) {
                            assert(now[now.len() - 1] == now[0]);
                            assert forall|j: int| 0 <= j < seen.len() implies #[trigger] seen[j]
                                == seen[0] by {
                                assert(now[j] == now[0]);
                                assert(now[j] == seen[j]);
                            }
                        }
                    }
                    if !same {
                        alike = false;
                    }
                    if first.is_none() {
                        first = Some(v);
                    }
                },
                None => {},
            },
            None => {},
        }
        i = i + 1;
    }
    assert(files@.take(i as int) == files@);
    if alike {
        first
    } else {
        None
    }
}

/// What was read of the machine for its facts: the text of each file that could be
/// read, and what is not in a file.
#[derive(Debug, PartialEq, Eq)]
pub struct HostReadings {
    pub route: Option<String>,
    pub mtu: Option<String>,
    pub qdisc: Option<String>,
    pub meminfo: Option<String>,
    pub kernel: Option<String>,
    pub cpuinfo: Option<String>,
    pub cores: u32,
    pub max_frequencies: Vec<Option<String>>,
    pub governors: Vec<Option<String>>,
    pub congestion: Option<String>,
    pub available_congestion: Option<String>,
    pub default_qdisc: Option<String>,
    pub disk: DiskInfo,
    pub mount: Option<DiskIdentity>,
    pub conntrack_max: Option<String>,
    pub ephemeral: Option<EphemeralPortRange>,
    pub installer_settings: Option<String>,
    pub arch: String,
    pub os_release: Option<String>,
    pub container: Option<String>,
    pub vz: bool,
    pub product: Option<String>,
    pub rmem_max: Option<String>,
    pub wmem_max: Option<String>,
    pub somaxconn: Option<String>,
}

/// Slowly changing facts about the machine.
#[derive(Debug, PartialEq, Eq)]
pub struct HostFacts {
    pub kernel: String,
    pub cpu_model: String,
    pub cores: u32,
    pub cpu_freq_max_mhz: Option<u64>,
    pub cpu_governor: Option<String>,
    pub cc_algo: String,
    pub available_cc: Vec<String>,
    pub default_qdisc: String,
    pub nic_qdisc: String,
    pub nic: String,
    pub nic_mtu: Option<u32>,
    pub mem_total_bytes: u64,
    pub disk_total_bytes: u64,
    pub disk_mount: Option<String>,
    pub disk_filesystem: Option<String>,
    pub disk_device: Option<String>,
    pub disk_read_only: Option<bool>,
    pub conntrack_max: Option<u64>,
    pub ephemeral_port_low: Option<u16>,
    pub ephemeral_port_high: Option<u16>,
    pub ephemeral_port_capacity: Option<u64>,
    pub sysctl_managed: bool,
    pub arch: String,
    pub os_pretty: String,
    pub virt: String,
    pub rmem_max: u64,
    pub wmem_max: u64,
    pub somaxconn: u64,
}

/// A file's text with blanks at either end removed; empty where it could not be read.
pub open spec fn trimmed_or_empty(file: Option<String>) -> Seq<char> {
    match file {
        Some(t) => text::trim(t@),
        None => seq![],
    }
}

/// The number in a file.
pub open spec fn number_in(file: Option<String>) -> Option<u64> {
    match file {
        Some(t) => numbers::as_u64(text::trim(t@)),
        None => None,
    }
}

fn line_in(file: &Option<String>) -> (r: String)
    ensures
        r@ == trimmed_or_empty(*file),
{
    match file {
        Some(t) => {
            let chars = text::chars_of(t.as_str());
            text::string_of(text::trimmed(chars.as_slice()))
        },
        None => String::new(),
    }
}

fn u64_in(file: &Option<String>) -> (r: Option<u64>)
    ensures
        r == number_in(*file),
{
    match file {
        Some(t) => read_u64_file(Some(t.as_str())),
        None => None,
    }
}

fn text_in(file: &Option<String>) -> (r: Option<&str>)
    ensures
        given(r) == text::optional(*file),
        (r is Some) == (*file is Some),
        r matches Some(s) ==> *file matches Some(t) && s@ == t@,
{
    match file {
        Some(t) => Some(t.as_str()),
        None => None,
    }
}

fn words_in(file: &Option<String>) -> (r: Vec<String>)
    ensures
        text::string_views(r@) == text::words(trimmed_or_empty(*file)),
{
    let line = line_in(file);
    let chars = text::chars_of(line.as_str());
    let words = text::split_words(chars.as_slice());
    let ghost all = text::words(line@);
    let mut out: Vec<String> = Vec::new();
    let mut i: usize = 0;
    while i < words.len()
        invariant
            i <= words.len(),
            all == text::views(words@),
            text::string_views(out@) == all.take(i as int),
        decreases words.len() - i,
    {
        let ghost before = out@;
        out.push(text::string_of(words[i]));
        assert(text::string_views(out@) == text::string_views(before).push(words@[i as int]@));
        assert(all.take(i + 1) == all.take(i as int).push(words@[i as int]@));
        i = i + 1;
    }
    assert(all.take(i as int) == all);
    out
}

/// The interface carrying the default route, where it is known.
pub open spec fn routed_interface(route: Option<String>) -> Option<Seq<char>> {
    match route {
        Some(t) => nettables::default_interface(text::lines(t@), 1),
        None => None,
    }
}

/// The machine's facts. An interface that could not be found is shown as `eth0`, but
/// the transmission unit of `eth0` is not shown as that of the default route.
pub fn host_facts(read: &HostReadings) -> (r: HostFacts)
    ensures
        r.kernel@ == trimmed_or_empty(read.kernel),
        r.cpu_model@ == (match read.cpuinfo {
            Some(t) => model_of(t@),
            None => seq![],
        }),
        r.cores == read.cores,
        ({
            let values = readings(read.max_frequencies@);
            r.cpu_freq_max_mhz == if values.len() == 0 {
                None
            } else {
                Some((largest(values, values.len() as int) / 1000) as u64)
            }
        }),
        ({
            let values = contents(read.governors@);
            text::optional(r.cpu_governor) == if values.len() > 0 && uniform(values) {
                Some(values[0])
            } else {
                None
            }
        }),
        r.cc_algo@ == trimmed_or_empty(read.congestion),
        text::string_views(r.available_cc@) == text::words(
            trimmed_or_empty(read.available_congestion),
        ),
        r.default_qdisc@ == trimmed_or_empty(read.default_qdisc),
        r.nic_qdisc@ == qdisc_in(text::optional(read.qdisc)),
        r.nic@ == (match routed_interface(read.route) {
            Some(nic) => nic,
            None => "eth0"@,
        }),
        r.nic_mtu == (match (routed_interface(read.route), read.mtu) {
            (Some(_), Some(t)) => numbers::as_u32(text::trim(t@)),
            _ => None::<u32>,
        }),
        r.mem_total_bytes == procfs::meminfo_of(text::or_empty(text::optional(read.meminfo))).total,
        r.disk_total_bytes == read.disk.total_bytes,
        match read.mount {
            Some(m) => text::optional(r.disk_mount) == Some(m.mount@) && text::optional(
                r.disk_filesystem,
            ) == Some(m.filesystem@) && text::optional(r.disk_device) == Some(m.device@)
                && r.disk_read_only == Some(m.read_only),
            None => r.disk_mount is None && r.disk_filesystem is None && r.disk_device is None
                && r.disk_read_only is None,
        },
        r.conntrack_max == number_in(read.conntrack_max),
        match read.ephemeral {
            Some(e) => r.ephemeral_port_low == Some(e.low) && r.ephemeral_port_high == Some(e.high)
                && r.ephemeral_port_capacity == Some(e.capacity),
            None => r.ephemeral_port_low is None && r.ephemeral_port_high is None
                && r.ephemeral_port_capacity is None,
        },
        r.sysctl_managed == (match read.installer_settings {
            Some(t) => text::contains_sub(t@, "tcp_congestion_control"@),
            None => false,
        }),
        r.arch@ == read.arch@,
        r.os_pretty@ == (match read.os_release {
            Some(t) => match text::after_line_prefix(text::lines(t@), "PRETTY_NAME="@) {
                Some(v) => strip_end(strip_start(text::trim(v), '"'), '"'),
                None => seq![],
            },
            None => seq![],
        }),
        r.virt@ == virt_of(text::optional(read.container), read.vz, text::optional(read.product)),
        r.rmem_max == procfs::or_zero(number_in(read.rmem_max)),
        r.wmem_max == procfs::or_zero(number_in(read.wmem_max)),
        r.somaxconn == procfs::or_zero(number_in(read.somaxconn)),
{
    let detected = match &read.route {
        Some(t) => main_interface(t.as_str()),
        None => None,
    };
    let nic_mtu = match &detected {
        Some(_) => read_nic_mtu(text_in(&read.mtu)),
        None => None,
    };
    let nic = match detected {
        Some(nic) => nic,
        None => "eth0".to_owned(),
    };
    let mem = match &read.meminfo {
        Some(t) => parse_meminfo(t.as_str()),
        None => parse_meminfo(String::new().as_str()),
    };
    let (disk_mount, disk_filesystem, disk_device, disk_read_only) = match &read.mount {
        Some(m) => (
            Some(m.mount.as_str().to_owned()),
            Some(m.filesystem.as_str().to_owned()),
            Some(m.device.as_str().to_owned()),
            Some(m.read_only),
        ),
        None => (None, None, None, None),
    };
    let (low, high, capacity) = match &read.ephemeral {
        Some(e) => (Some(e.low), Some(e.high), Some(e.capacity)),
        None => (None, None, None),
    };
    HostFacts {
        kernel: line_in(&read.kernel),
        cpu_model: cpu_model(text_in(&read.cpuinfo)),
        cores: read.cores,
        cpu_freq_max_mhz: read_cpu_max_frequency_mhz(&read.max_frequencies),
        cpu_governor: read_cpu_governor(&read.governors),
        cc_algo: line_in(&read.congestion),
        available_cc: words_in(&read.available_congestion),
        default_qdisc: line_in(&read.default_qdisc),
        nic_qdisc: nic_qdisc(text_in(&read.qdisc)),
        nic,
        nic_mtu,
        mem_total_bytes: mem.total,
        disk_total_bytes: read.disk.total_bytes,
        disk_mount,
        disk_filesystem,
        disk_device,
        disk_read_only,
        conntrack_max: u64_in(&read.conntrack_max),
        ephemeral_port_low: low,
        ephemeral_port_high: high,
        ephemeral_port_capacity: capacity,
        sysctl_managed: installer_set_congestion_control(text_in(&read.installer_settings)),
        arch: read.arch.as_str().to_owned(),
        os_pretty: os_pretty_name(text_in(&read.os_release)),
        virt: detect_virt(text_in(&read.container), read.vz, text_in(&read.product)),
        rmem_max: or_zero(u64_in(&read.rmem_max)),
        wmem_max: or_zero(u64_in(&read.wmem_max)),
        somaxconn: or_zero(u64_in(&read.somaxconn)),
    }
}

fn or_zero(v: Option<u64>) -> (r: u64)
    ensures
        r == procfs::or_zero(v),
{
    match v {
        Some(n) => n,
        None => 0,
    }
}

/// The largest of numbers is one of them, and none is larger.
pub proof fn lemma_largest_is_one_of_them(values: Seq<u64>, n: int)
    requires
        0 < n <= values.len(),
    ensures
        exists|i: int| 0 <= i < n && #[trigger] values[i] == largest(values, n),
        forall|i: int| 0 <= i < n ==> #[trigger] values[i] <= largest(values, n),
    decreases n,
{
    if n > 1 {
        lemma_largest_is_one_of_them(values, n - 1);
        let k = choose|i: int| 0 <= i < n - 1 && #[trigger] values[i] == largest(values, n - 1);
        assert(values[k] == largest(values, n) || values[n - 1] == largest(values, n));
    } else {
        assert(largest(values, 0) == 0);
        assert(values[0] == largest(values, 1));
    }
}

/// Whether a line names a field and tells something of it.
pub open spec fn tells(line: Seq<char>, key: Seq<char>, value: Seq<char>) -> bool {
    exists|name: Seq<char>, behind: Seq<char>|
        line == #[trigger] (name + ":"@ + behind) && !name.contains(':') && text::trim(name) == key
            && text::trim(behind) == value && value.len() > 0
}

proof fn lemma_tells(line: Seq<char>, key: Seq<char>, value: Seq<char>)
    ensures
        tells(line, key, value) <==> (match text::split_once(line, ':') {
            Some((name, behind)) => text::trim(name) == key && text::trim(behind) == value
                && value.len() > 0,
            None => false,
        }),
{
    reveal_strlit(":");
    text::lemma_find_char(line, ':', 0);
    match text::find_char(line, ':', 0) {
        Some(k) => {
            assert(line =~= line.take(k) + ":"@ + line.skip(k + 1));
            assert forall|name: Seq<char>, behind: Seq<char>|
                line == #[trigger] (name + ":"@ + behind) && !name.contains(':') implies name
                == line.take(k) && behind == line.skip(k + 1) by {
                let n = name.len() as int;
                assert(line[n] == ':');
                if k < n {
                    assert(name[k] == ':');
                    assert(name.contains(name[k]));
                }
                assert(name =~= line.take(k));
                assert(behind =~= line.skip(k + 1));
            }
        },
        None => {
            assert forall|name: Seq<char>, behind: Seq<char>| true implies line != #[trigger] (name
                + ":"@ + behind) by {
                if line == name + ":"@ + behind {
                    assert(line[name.len() as int] == ':');
                }
            }
        },
    }
}

/// Of the lines that tell something of a field the first counts, and there is nothing told
/// exactly where none does.
pub proof fn lemma_first_told_counts(lines: Seq<Seq<char>>, key: Seq<char>, from: int)
    requires
        0 <= from <= lines.len(),
    ensures
        match cpuinfo_field(lines, key, from) {
            Some(value) => exists|k: int|
                from <= k < lines.len() && #[trigger] tells(lines[k], key, value) && forall|
                    j: int,
                    other: Seq<char>,
                |
                    from <= j < k ==> !#[trigger] tells(lines[j], key, other),
            None => forall|j: int, other: Seq<char>|
                from <= j < lines.len() ==> !#[trigger] tells(lines[j], key, other),
        },
    decreases lines.len() - from,
{
    if from < lines.len() {
        let line = lines[from];
        lemma_first_told_counts(lines, key, from + 1);
        let here = match text::split_once(line, ':') {
            Some((name, value)) => text::trim(name) == key && text::trim(value).len() > 0,
            None => false,
        };
        let found = cpuinfo_field(lines, key, from);
        if here {
            let value = found->0;
            lemma_tells(line, key, value);
            assert(tells(lines[from], key, value));
        } else {
            assert(found == cpuinfo_field(lines, key, from + 1));
            assert forall|other: Seq<char>| !#[trigger] tells(lines[from], key, other) by {
                lemma_tells(line, key, other);
            }
            if found is Some {
                let value = found->0;
                let k = choose|k: int|
                    from + 1 <= k < lines.len() && #[trigger] tells(lines[k], key, value)
                        && forall|j: int, other: Seq<char>|
                        from + 1 <= j < k ==> !#[trigger] tells(lines[j], key, other);
                assert(tells(lines[k], key, value));
                assert forall|j: int, other: Seq<char>| from <= j < k implies !#[trigger] tells(
                    lines[j],
                    key,
                    other,
                ) by {
                    assert(j == from || from + 1 <= j);
                }
            } else {
                assert forall|j: int, other: Seq<char>|
                    from <= j < lines.len() implies !#[trigger] tells(lines[j], key, other) by {
                    assert(j == from || from + 1 <= j);
                }
            }
        }
    }
}

/// A number is read exactly where a file that could be read holds one.
pub proof fn lemma_readings_are_what_files_hold(files: Seq<Option<String>>, v: u64)
    ensures
        readings(files).contains(v) <==> exists|i: int|
            0 <= i < files.len() && number_in(#[trigger] files[i]) == Some(v),
    decreases files.len(),
{
    if files.len() > 0 {
        let front = files.drop_last();
        lemma_readings_are_what_files_hold(front, v);
        let before = readings(front);
        assert forall|i: int| 0 <= i < front.len() implies front[i] == #[trigger] files[i] by {}
        assert(files.last() == files[files.len() - 1]);
        if before.contains(v) {
            let i = choose|i: int| 0 <= i < front.len() && number_in(#[trigger] front[i]) == Some(v);
            assert(number_in(files[i]) == Some(v));
            let k = choose|k: int| 0 <= k < before.len() && before[k] == v;
            assert(readings(files)[k] == v);
        }
        match number_in(files.last()) {
            Some(last) => {
                assert(readings(files) == before.push(last));
                assert(readings(files)[before.len() as int] == last);
                if readings(files).contains(v) && !before.contains(v) {
                    let k = choose|k: int| 0 <= k < readings(files).len() && readings(files)[k] == v;
                    assert(k < before.len() ==> before[k] == v);
                }
            },
            None => {},
        }
    }
}

/// What a container says of itself is told whatever else is found, and a machine without
/// either mark is told by its product's name alone.
pub proof fn lemma_container_is_told_first(container: Seq<char>, vz: bool, dmi: Option<Seq<char>>)
    ensures
        text::trim(container).len() > 0 ==> virt_of(Some(container), vz, dmi) == text::trim(
            container,
        ),
        text::trim(container).len() == 0 ==> virt_of(Some(container), vz, dmi) == virt_of(
            None,
            vz,
            dmi,
        ),
        virt_of(None, true, dmi) == "OpenVZ"@,
        dmi is None ==> virt_of(None, false, dmi).len() == 0,
{
}

/// The words that speak of platforms, each with its platform, in the order in which they
/// count.
pub open spec fn known_platforms() -> Seq<(Seq<char>, Seq<char>)> {
    seq![
        ("kvm"@, "KVM"@),
        ("qemu"@, "KVM"@),
        ("vmware"@, "VMware"@),
        ("virtualbox"@, "VirtualBox"@),
        ("microsoft"@, "Hyper-V"@),
        ("hyper-v"@, "Hyper-V"@),
        ("xen"@, "Xen"@),
        ("amazon"@, "AWS"@),
        ("ec2"@, "AWS"@),
        ("google"@, "GCP"@),
        ("oracle"@, "Oracle Cloud"@),
        ("alibaba"@, "Alibaba Cloud"@),
        ("aliyun"@, "Alibaba Cloud"@),
        ("tencent"@, "Tencent Cloud"@),
        ("digitalocean"@, "DigitalOcean"@),
    ]
}

/// A platform is told exactly where its product's name speaks of one, and of several the one
/// that counts first.
pub proof fn lemma_platform_is_one_spoken_of(lower: Seq<char>)
    ensures
        platform(lower).len() > 0 ==> exists|k: int|
            0 <= k < known_platforms().len() && text::contains_sub(
                lower,
                (#[trigger] known_platforms()[k]).0,
            ) && platform(lower) == known_platforms()[k].1 && forall|j: int|
                0 <= j < k ==> !text::contains_sub(lower, (#[trigger] known_platforms()[j]).0),
        platform(lower).len() == 0 ==> forall|j: int|
            0 <= j < known_platforms().len() ==> !text::contains_sub(
                lower,
                (#[trigger] known_platforms()[j]).0,
            ),
{
    let known = known_platforms();
    reveal_strlit("");
    reveal_strlit("KVM");
    reveal_strlit("VMware");
    reveal_strlit("VirtualBox");
    reveal_strlit("Hyper-V");
    reveal_strlit("Xen");
    reveal_strlit("AWS");
    reveal_strlit("GCP");
    reveal_strlit("Oracle Cloud");
    reveal_strlit("Alibaba Cloud");
    reveal_strlit("Tencent Cloud");
    reveal_strlit("DigitalOcean");
    assert(known.len() == 15);
    let spoken = |k: int| text::contains_sub(lower, known[k].0);
    assert(platform(lower) == if spoken(0) || spoken(1) {
        known[0].1
    } else if spoken(2) {
        known[2].1
    } else if spoken(3) {
        known[3].1
    } else if spoken(4) || spoken(5) {
        known[4].1
    } else if spoken(6) {
        known[6].1
    } else if spoken(7) || spoken(8) {
        known[7].1
    } else if spoken(9) {
        known[9].1
    } else if spoken(10) {
        known[10].1
    } else if spoken(11) || spoken(12) {
        known[11].1
    } else if spoken(13) {
        known[13].1
    } else if spoken(14) {
        known[14].1
    } else {
        ""@
    });
    assert(known[1].1 == known[0].1 && known[5].1 == known[4].1 && known[8].1 == known[7].1
        && known[12].1 == known[11].1);
    lemma_first_that_holds(spoken, 15);
    if exists|k: int| 0 <= k < 15 && #[trigger] spoken(k) {
        let k = choose|k: int|
            0 <= k < 15 && #[trigger] spoken(k) && forall|j: int| 0 <= j < k ==> !#[trigger] spoken(j);
        assert(platform(lower) == known[k].1);
        assert(text::contains_sub(lower, known[k].0));
        assert forall|j: int| 0 <= j < k implies !text::contains_sub(
            lower,
            (#[trigger] known[j]).0,
        ) by {
            assert(!spoken(j));
        }
    } else {
        assert forall|j: int| 0 <= j < 15 implies !text::contains_sub(
            lower,
            (#[trigger] known[j]).0,
        ) by {
            assert(!spoken(j));
        }
    }
}

proof fn lemma_first_that_holds(spoken: spec_fn(int) -> bool, n: int)
    requires
        0 <= n,
    ensures
        (exists|k: int| 0 <= k < n && #[trigger] spoken(k)) ==> exists|k: int|
            0 <= k < n && #[trigger] spoken(k) && forall|j: int| 0 <= j < k ==> !#[trigger] spoken(j),
    decreases n,
{
    if n > 0 {
        lemma_first_that_holds(spoken, n - 1);
        if !(exists|k: int| 0 <= k < n - 1 && #[trigger] spoken(k)) && spoken(n - 1) {
            assert(forall|j: int| 0 <= j < n - 1 ==> !#[trigger] spoken(j));
        }
    }
}

/// A discipline is the second word of the line that begins what is printed.
pub proof fn lemma_discipline_is_the_second_word(pieces: Seq<Seq<char>>, rest: Seq<char>)
    requires
        pieces.len() >= 2,
        forall|i: int| 0 <= i < pieces.len() ==> text::is_word(#[trigger] pieces[i]),
    ensures
        qdisc_in(Some(text::join(pieces, seq![' ']) + "\n"@ + rest)) == pieces[1],
{
    let line = text::join(pieces, seq![' ']);
    let all = line + "\n"@ + rest;
    reveal_strlit("\n");
    text::lemma_spaced_words(pieces);
    text::lemma_joined_words_hold_no_break(pieces);
    assert forall|j: int| 0 <= j < line.len() implies #[trigger] all[j] != '\n' && all[j]
        != '\r' by {
        assert(all[j] == line[j]);
    }
    assert(all[line.len() as int] == '\n');
    text::lemma_find_char_at(all, '\n', 0, line.len() as int);
    assert(all.take(line.len() as int) =~= line);
    assert(line.len() > 0 ==> line[line.len() - 1] != '\r');
    assert(text::lines(all)[0] == line);
}

/// A quoted name is told without its quotes.
pub proof fn lemma_quotes_are_taken_off(name: Seq<char>)
    requires
        name.len() > 0,
        name[0] != '"',
        name.last() != '"',
    ensures
        strip_end(strip_start(seq!['"'] + name + seq!['"'], '"'), '"') == name,
        strip_end(strip_start(name, '"'), '"') == name,
{
    let quoted = seq!['"'] + name + seq!['"'];
    assert(quoted.skip(1) =~= name + seq!['"']);
    assert(strip_start(name + seq!['"'], '"') == name + seq!['"']) by {
        assert((name + seq!['"'])[0] == name[0]);
    }
    assert((name + seq!['"']).drop_last() =~= name);
    reveal_with_fuel(strip_start, 2);
    reveal_with_fuel(strip_end, 2);
}

/// A processor goes by its name where it has one. One without goes by the part that its numbers
/// name, and where they name none by its board before its kind; words are told as they stand.
pub proof fn lemma_processor_goes_by_the_best_name(content: Seq<char>, pieces: Seq<Seq<char>>)
    requires
        pieces.len() > 0,
        forall|i: int| 0 <= i < pieces.len() ==> text::is_word(#[trigger] pieces[i]),
    ensures
        ({
            let lines = text::lines(content);
            let name = text::join(pieces, seq![' ']);
            let model = cpuinfo_field(lines, "model name"@, 0);
            let board = cpuinfo_field(lines, "Hardware"@, 0);
            let kind = cpuinfo_field(lines, "Processor"@, 0);
            let known = match (
                cpuinfo_field(lines, "CPU implementer"@, 0),
                cpuinfo_field(lines, "CPU part"@, 0),
            ) {
                (Some(maker), Some(part)) => arm_part(maker, part),
                _ => None,
            };
            &&& model == Some(name) ==> model_of(content) == name
            &&& model is None && known is Some ==> Some(model_of(content)) == known
            &&& model is None && known is None && board == Some(name) ==> model_of(content) == name
            &&& model is None && known is None && board is None && kind == Some(name)
                ==> model_of(content) == name
        }),
{
    reveal_strlit(" ");
    assert(" "@ =~= seq![' ']);
    text::lemma_spaced_words(pieces);
}

/// No two parts have one name.
pub proof fn lemma_parts_are_told_apart(a: int, b: int, c: int, d: int)
    requires
        part_name(a, b) is Some,
        part_name(a, b) == part_name(c, d),
    ensures
        a == c && b == d,
{
    reveal_strlit("Cortex-A53");
    reveal_strlit("Cortex-A35");
    reveal_strlit("Cortex-A55");
    reveal_strlit("Cortex-A57");
    reveal_strlit("Cortex-A72");
    reveal_strlit("Cortex-A73");
    reveal_strlit("Cortex-A75");
    reveal_strlit("Cortex-A76");
    reveal_strlit("Neoverse-N1");
    reveal_strlit("Cortex-A77");
    reveal_strlit("Neoverse-V1");
    reveal_strlit("Cortex-A78");
    reveal_strlit("Cortex-X1");
    reveal_strlit("Cortex-A510");
    reveal_strlit("Cortex-A710");
    reveal_strlit("Cortex-X2");
    reveal_strlit("Neoverse-N2");
    reveal_strlit("Cortex-A715");
    reveal_strlit("Cortex-X3");
    reveal_strlit("Neoverse-V2");
    reveal_strlit("Cavium ThunderX2");
    let (s, t) = (part_name(a, b)->0, part_name(c, d)->0);
    assert(s.len() == t.len());
    assert(s[0] == t[0] && s[s.len() - 1] == t[t.len() - 1] && s[s.len() - 2] == t[t.len() - 2]
        && s[s.len() - 3] == t[t.len() - 3]);
}

} // verus!
