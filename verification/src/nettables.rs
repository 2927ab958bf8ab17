//! What the kernel's text files say about the network.
use vstd::prelude::*;
use vstd::string::*;

use crate::procfs::{parse_single_value_mib, Table};
use crate::{numbers, procfs, text};

verus! {

/// Counters of the interface that carries the default route.
#[derive(Debug, Clone, Copy, PartialEq, Eq, Structural)]
pub struct NetCounters {
    pub rx_bytes: u64,
    pub tx_bytes: u64,
    pub rx_drop: u64,
    pub tx_drop: u64,
    pub errs: u64,
}

impl NetCounters {
    pub open spec fn zero() -> NetCounters {
        NetCounters { rx_bytes: 0, tx_bytes: 0, rx_drop: 0, tx_drop: 0, errs: 0 }
    }
}

impl Default for NetCounters {
    fn default() -> (r: NetCounters)
        ensures
            r == NetCounters::zero(),
    {
        NetCounters { rx_bytes: 0, tx_bytes: 0, rx_drop: 0, tx_drop: 0, errs: 0 }
    }
}

/// The interface on the first line at or after `from` whose destination is the
/// default route; a line of fewer than two words ends the search.
pub open spec fn default_interface(lines: Seq<Seq<char>>, from: int) -> Option<Seq<char>>
    decreases lines.len() - from,
{
    if from < 0 || from >= lines.len() {
        None
    } else {
        match (text::word(lines[from], 0), text::word(lines[from], 1)) {
            (Some(iface), Some(destination)) => if destination == "00000000"@ {
                Some(iface)
            } else {
                default_interface(lines, from + 1)
            },
            _ => None,
        }
    }
}

/// The interface carrying the default route, from `/proc/net/route`.
pub fn main_interface(route: &str) -> (r: Option<String>)
    ensures
        match r {
            Some(nic) => default_interface(text::lines(route@), 1) == Some(nic@),
            None => default_interface(text::lines(route@), 1) is None,
        },
{
    let chars = text::chars_of(route);
    let lines = text::split_lines(chars.as_slice());
    assert(text::views(lines@).len() == lines@.len());
    let mut i: usize = 1;
    while i < lines.len()
        invariant
            1 <= i,
            i <= lines.len() || i == 1,
            text::views(lines@) == text::lines(route@),
            default_interface(text::lines(route@), 1) == default_interface(
                text::lines(route@),
                i as int,
            ),
        decreases lines.len() - i,
    {
        assert(text::views(lines@)[i as int] == lines@[i as int]@);
        match (text::nth_word(lines[i], 0), text::nth_word(lines[i], 1)) {
            (Some(iface), Some(destination)) => {
                if text::same(destination, "00000000") {
                    return Some(text::string_of(iface));
                }
            },
            _ => {
                return None;
            },
        }
        i = i + 1;
    }
    None
}

/// The counters behind an interface's name: receiving first, then sending.
pub open spec fn counters_in(rest: Seq<char>) -> NetCounters {
    let f = numbers::numbers_in(text::words(rest));
    NetCounters {
        rx_bytes: numbers::nth_or_zero(f, 0),
        rx_drop: numbers::nth_or_zero(f, 3),
        tx_bytes: numbers::nth_or_zero(f, 8),
        tx_drop: numbers::nth_or_zero(f, 11),
        errs: numbers::capped(numbers::nth_or_zero(f, 2) + numbers::nth_or_zero(f, 10)),
    }
}

/// The counters on the first line at or after `from` about `nic`.
pub open spec fn net_counters(lines: Seq<Seq<char>>, nic: Seq<char>, from: int) -> NetCounters
    decreases lines.len() - from,
{
    if from < 0 || from >= lines.len() {
        NetCounters::zero()
    } else {
        match text::split_once(lines[from], ':') {
            Some((name, rest)) => if text::trim(name) == nic {
                counters_in(rest)
            } else {
                net_counters(lines, nic, from + 1)
            },
            None => net_counters(lines, nic, from + 1),
        }
    }
}

/// The counters of one interface, from `/proc/net/dev`.
pub fn parse_net(dev: &str, nic: &str) -> (r: NetCounters)
    ensures
        r == net_counters(text::lines(dev@), nic@, 0),
{
    let chars = text::chars_of(dev);
    let lines = text::split_lines(chars.as_slice());
    let mut i: usize = 0;
    while i < lines.len()
        invariant
            i <= lines.len(),
            text::views(lines@) == text::lines(dev@),
            net_counters(text::lines(dev@), nic@, 0) == net_counters(
                text::lines(dev@),
                nic@,
                i as int,
            ),
        decreases lines.len() - i,
    {
        assert(text::views(lines@)[i as int] == lines@[i as int]@);
        match text::cut_once(lines[i], ':') {
            Some((name, rest)) => {
                if text::same(text::trimmed(name), nic) {
                    let words = text::split_words(rest);
                    let f = numbers::read_numbers(&words, 0);
                    assert(text::views(words@).skip(0) =~= text::words(rest@));
                    return NetCounters {
                        rx_bytes: numbers::get_or_zero(&f, 0),
                        rx_drop: numbers::get_or_zero(&f, 3),
                        tx_bytes: numbers::get_or_zero(&f, 8),
                        tx_drop: numbers::get_or_zero(&f, 11),
                        errs: numbers::get_or_zero(&f, 2).saturating_add(
                            numbers::get_or_zero(&f, 10),
                        ),
                    };
                }
            },
            None => {},
        }
        i = i + 1;
    }
    NetCounters::default()
}

/// Counters of the interface that carries the default route; all zero where
/// there is none, or the counters cannot be read.
pub fn read_net(route: Option<&str>, dev: Option<&str>) -> (r: NetCounters)
    ensures
        r == (match (route, dev) {
            (Some(route), Some(dev)) => match default_interface(text::lines(route@), 1) {
                Some(nic) => net_counters(text::lines(dev@), nic, 0),
                None => NetCounters::zero(),
            },
            _ => NetCounters::zero(),
        }),
{
    match (route, dev) {
        (Some(route), Some(dev)) => match main_interface(route) {
            Some(nic) => parse_net(dev, nic.as_str()),
            None => NetCounters::default(),
        },
        _ => NetCounters::default(),
    }
}

/// The first rows of a group: names on one line, values on the next.
pub open spec fn mib_rows(lines: Seq<Seq<char>>, prefix: Seq<char>, from: int) -> Option<
    (Seq<char>, Seq<char>),
>
    decreases lines.len() - from,
{
    if from < 0 || from >= lines.len() {
        None
    } else if !text::starts_with(lines[from], prefix) {
        mib_rows(lines, prefix, from + 1)
    } else if from + 1 >= lines.len() {
        None
    } else if !text::starts_with(lines[from + 1], prefix) {
        mib_rows(lines, prefix, from + 2)
    } else {
        Some((lines[from], lines[from + 1]))
    }
}

/// Names and values side by side, up to position `n`, where the value is a number.
pub open spec fn zipped(names: Seq<Seq<char>>, values: Seq<Seq<char>>, n: int) -> Seq<
    (Seq<char>, u64),
>
    decreases n,
{
    if n <= 0 || n > names.len() || n > values.len() {
        seq![]
    } else {
        let front = zipped(names, values, n - 1);
        match numbers::as_u64(values[n - 1]) {
            Some(v) => front.push((names[n - 1], v)),
            None => front,
        }
    }
}

/// The shorter of two lengths.
pub open spec fn shorter(a: nat, b: nat) -> int {
    if a < b {
        a as int
    } else {
        b as int
    }
}

/// The names and the values of a group, as they stand in its rows.
pub open spec fn mib_columns(content: Seq<char>, group: Seq<char>) -> (
    Seq<Seq<char>>,
    Seq<Seq<char>>,
) {
    match mib_rows(text::lines(content), group + ":"@, 0) {
        Some((header, values)) => (
            text::tail(text::words(header)),
            text::tail(text::words(values)),
        ),
        None => (seq![], seq![]),
    }
}

/// The counters of a group: names and values joined by position.
pub open spec fn mib_group(content: Seq<char>, group: Seq<char>) -> Seq<(Seq<char>, u64)> {
    let (names, values) = mib_columns(content, group);
    zipped(names, values, shorter(names.len(), values.len()))
}

fn zip_rows(header: &[char], values: &[char]) -> (r: Table)
    ensures
        r@ == ({
            let names = text::tail(text::words(header@));
            let numbers = text::tail(text::words(values@));
            zipped(names, numbers, shorter(names.len(), numbers.len()))
        }),
{
    let names = text::split_words(header);
    let counts = text::split_words(values);
    let ghost a = text::tail(text::words(header@));
    let ghost b = text::tail(text::words(values@));
    assert(text::views(names@).len() == names@.len());
    assert(text::views(counts@).len() == counts@.len());
    let mut out = Table::new();
    let mut i: usize = 1;
    while i < names.len() && i < counts.len()
        invariant
            1 <= i,
            i <= names.len() || i == 1,
            i <= counts.len() || i == 1,
            text::views(names@) == text::words(header@),
            text::views(counts@) == text::words(values@),
            a == text::tail(text::words(header@)),
            b == text::tail(text::words(values@)),
            out@ == zipped(a, b, i - 1),
        decreases names.len() - i,
    {
        assert(text::views(names@)[i as int] == names@[i as int]@);
        assert(text::views(counts@)[i as int] == counts@[i as int]@);
        assert(a[i - 1] == names@[i as int]@);
        assert(b[i - 1] == counts@[i as int]@);
        match numbers::read_u64(counts[i]) {
            Some(v) => {
                out.push(text::string_of(names[i]), v);
            },
            None => {},
        }
        i = i + 1;
    }
    out
}

/// The counters of a group in `/proc/net/snmp` or `/proc/net/netstat`.
pub fn parse_mib_group(content: &str, group: &str) -> (r: Table)
    ensures
        r@ == mib_group(content@, group@),
{
    let mut prefix = group.to_owned();
    prefix.append(":");
    let p = text::chars_of(prefix.as_str());
    let chars = text::chars_of(content);
    let lines = text::split_lines(chars.as_slice());
    let ghost all = text::lines(content@);
    let mut i: usize = 0;
    while i < lines.len()
        invariant
            i <= lines.len(),
            all == text::views(lines@),
            all == text::lines(content@),
            p@ == group@ + ":"@,
            mib_rows(all, group@ + ":"@, 0) == mib_rows(all, group@ + ":"@, i as int),
        decreases lines.len() - i,
    {
        let n: usize = lines.len();
        assert(all[i as int] == lines@[i as int]@);
        if !text::stands(lines[i], p.as_slice(), 0) {
            i = i + 1;
        } else if i + 1 >= n {
            return Table::new();
        } else {
            assert(all[i + 1] == lines@[i + 1]@);
            if !text::stands(lines[i + 1], p.as_slice(), 0) {
                i = i + 2;
            } else {
                return zip_rows(lines[i], lines[i + 1]);
            }
        }
    }
    Table::new()
}

proof fn lemma_zipped_value(
    names: Seq<Seq<char>>,
    values: Seq<Seq<char>>,
    n: int,
    key: Seq<char>,
)
    requires
        0 <= n <= names.len(),
        n <= values.len(),
    ensures
        match procfs::value_of(zipped(names, values, n), key) {
            Some(v) => exists|i: int|
                0 <= i < n && names[i] == key && #[trigger] numbers::as_u64(values[i]) == Some(v),
            None => forall|i: int|
                0 <= i < n && names[i] == key ==> #[trigger] numbers::as_u64(values[i]) is None,
        },
    decreases n,
{
    if n > 0 {
        lemma_zipped_value(names, values, n - 1, key);
        let front = zipped(names, values, n - 1);
        match numbers::as_u64(values[n - 1]) {
            Some(v) => {
                let all = front.push((names[n - 1], v));
                assert(all == zipped(names, values, n));
                if names[n - 1] != key {
                    lemma_value_before(all, front, key, front.len() - 1);
                }
            },
            None => {},
        }
    }
}

proof fn lemma_value_before(
    all: Seq<(Seq<char>, u64)>,
    front: Seq<(Seq<char>, u64)>,
    key: Seq<char>,
    from: int,
)
    requires
        from < front.len() <= all.len(),
        forall|i: int| 0 <= i < front.len() ==> all[i] == front[i],
    ensures
        procfs::value_at(all, key, from) == procfs::value_at(front, key, from),
    decreases from + 1,
{
    if from >= 0 && front[from].0 != key {
        lemma_value_before(all, front, key, from - 1);
    }
}

/// A value is found under the name that stands above it, and nothing under any other
/// name, wherever in its row the name stands.
pub proof fn lemma_values_are_joined_by_name(content: Seq<char>, group: Seq<char>, key: Seq<char>)
    requires
        mib_columns(content, group).0.no_duplicates(),
        mib_columns(content, group).0.len() == mib_columns(content, group).1.len(),
    ensures
        ({
            let (names, values) = mib_columns(content, group);
            &&& forall|i: int|
                0 <= i < names.len() && #[trigger] names[i] == key ==> procfs::value_of(
                    mib_group(content, group),
                    key,
                ) == numbers::as_u64(values[i])
            &&& !names.contains(key) ==> procfs::value_of(mib_group(content, group), key) is None
        }),
{
    let (names, values) = mib_columns(content, group);
    lemma_zipped_value(names, values, names.len() as int, key);
}

/// Which column a name stands in makes no difference: a file whose rows hold the same
/// columns in another order gives the same value under every name.
pub proof fn lemma_columns_may_change_places(
    content: Seq<char>,
    other: Seq<char>,
    group: Seq<char>,
    key: Seq<char>,
)
    requires
        mib_columns(content, group).0.no_duplicates(),
        mib_columns(content, group).0.len() == mib_columns(content, group).1.len(),
        mib_columns(other, group).0.len() == mib_columns(other, group).1.len(),
        mib_columns(content, group).0.zip_with(mib_columns(content, group).1).to_multiset()
            == mib_columns(other, group).0.zip_with(mib_columns(other, group).1).to_multiset(),
    ensures
        procfs::value_of(mib_group(content, group), key) == procfs::value_of(
            mib_group(other, group),
            key,
        ),
{
    let (names, values) = mib_columns(content, group);
    let (others, their) = mib_columns(other, group);
    let here = names.zip_with(values);
    let there = others.zip_with(their);
    lemma_zipped_value(names, values, names.len() as int, key);
    lemma_zipped_value(others, their, others.len() as int, key);
    here.to_multiset_ensures();
    there.to_multiset_ensures();
    assert forall|i: int| 0 <= i < names.len() implies exists|j: int|
        0 <= j < others.len() && others[j] == #[trigger] names[i] && #[trigger] their[j]
            == values[i] by {
        assert(here[i] == (names[i], values[i]));
        assert(here.contains(here[i]));
        assert(here.to_multiset().count(here[i]) > 0);
        assert(there.contains(here[i]));
        let j = choose|j: int| 0 <= j < there.len() && there[j] == here[i];
        assert(others[j] == names[i] && their[j] == values[i]);
    }
    assert forall|j: int| 0 <= j < others.len() implies exists|i: int|
        0 <= i < names.len() && names[i] == #[trigger] others[j] && #[trigger] values[i]
            == their[j] by {
        assert(there[j] == (others[j], their[j]));
        assert(there.contains(there[j]));
        assert(there.to_multiset().count(there[j]) > 0);
        assert(here.contains(there[j]));
        let i = choose|i: int| 0 <= i < here.len() && here[i] == there[j];
        assert(names[i] == others[j] && values[i] == their[j]);
    }
    match procfs::value_of(mib_group(content, group), key) {
        Some(v) => {
            let i = choose|i: int|
                0 <= i < names.len() && names[i] == key && #[trigger] numbers::as_u64(values[i])
                    == Some(v);
            assert(names[i] == key);
            let j = choose|j: int|
                0 <= j < others.len() && others[j] == names[i] && #[trigger] their[j] == values[i];
            assert(numbers::as_u64(their[j]) == Some(v));
            match procfs::value_of(mib_group(other, group), key) {
                Some(w) => {
                    let l = choose|l: int|
                        0 <= l < others.len() && others[l] == key && #[trigger] numbers::as_u64(
                            their[l],
                        ) == Some(w);
                    assert(others[l] == key);
                    let m = choose|m: int|
                        0 <= m < names.len() && names[m] == others[l] && #[trigger] values[m]
                            == their[l];
                    assert(m == i);
                },
                None => {},
            }
        },
        None => {
            match procfs::value_of(mib_group(other, group), key) {
                Some(w) => {
                    let l = choose|l: int|
                        0 <= l < others.len() && others[l] == key && #[trigger] numbers::as_u64(
                            their[l],
                        ) == Some(w);
                    assert(others[l] == key);
                    let m = choose|m: int|
                        0 <= m < names.len() && names[m] == others[l] && #[trigger] values[m]
                            == their[l];
                    assert(numbers::as_u64(values[m]) is None);
                },
                None => {},
            }
        },
    }
}

/// Fields with a blank before each.
pub open spec fn spaced(fields: Seq<Seq<char>>) -> Seq<char>
    decreases fields.len(),
{
    if fields.len() == 0 {
        seq![]
    } else {
        " "@ + fields[0] + spaced(fields.skip(1))
    }
}

/// A row of a group.
pub open spec fn printed_row(group: Seq<char>, fields: Seq<Seq<char>>) -> Seq<char> {
    group + ":"@ + spaced(fields)
}

/// A group as the kernel prints it: a row of names and a row of values.
pub open spec fn printed_group(
    group: Seq<char>,
    names: Seq<Seq<char>>,
    values: Seq<Seq<char>>,
) -> Seq<char> {
    printed_row(group, names) + "\n"@ + printed_row(group, values) + "\n"@
}

/// Whether no blank stands in a word.
pub open spec fn unbroken(word: Seq<char>) -> bool {
    forall|i: int| 0 <= i < word.len() ==> !text::is_space(#[trigger] word[i])
}

/// Whether fields can be told apart again once they stand in a row.
pub open spec fn are_words(fields: Seq<Seq<char>>) -> bool {
    forall|i: int| 0 <= i < fields.len() ==> (#[trigger] fields[i]).len() > 0 && unbroken(fields[i])
}

proof fn lemma_first_word(word: Seq<char>, rest: Seq<char>)
    requires
        word.len() > 0,
        unbroken(word),
        rest.len() == 0 || text::is_space(rest[0]),
    ensures
        text::words(word + rest) == seq![word] + text::words(rest),
{
    let s = word + rest;
    assert(s[0] == word[0]);
    assert(text::trim_start(s) == s);
    lemma_word_ends(word, rest, 0);
    assert(s.take(word.len() as int) =~= word);
    assert(s.skip(word.len() as int) =~= rest);
}

proof fn lemma_word_ends(word: Seq<char>, rest: Seq<char>, from: int)
    requires
        unbroken(word),
        0 <= from <= word.len(),
        rest.len() == 0 || text::is_space(rest[0]),
    ensures
        text::word_end(word + rest, from) == word.len(),
    decreases word.len() - from,
{
    let s = word + rest;
    if from < word.len() {
        assert(s[from] == word[from]);
        lemma_word_ends(word, rest, from + 1);
    } else if rest.len() > 0 {
        assert(s[from] == rest[0]);
    }
}

proof fn lemma_spaced_words(fields: Seq<Seq<char>>)
    requires
        are_words(fields),
    ensures
        text::words(spaced(fields)) == fields,
        spaced(fields).len() > 0 ==> spaced(fields)[0] == ' ' && !text::is_space(
            spaced(fields).last(),
        ),
        !spaced(fields).contains('\n'),
    decreases fields.len(),
{
    reveal_strlit(" ");
    if fields.len() == 0 {
        assert(text::words(spaced(fields)) =~= fields);
    } else {
        let rest = fields.skip(1);
        assert forall|i: int| 0 <= i < rest.len() implies (#[trigger] rest[i]).len() > 0
            && unbroken(rest[i]) by {
            assert(rest[i] == fields[i + 1]);
        }
        lemma_spaced_words(rest);
        let word = fields[0];
        let s = spaced(fields);
        let behind = word + spaced(rest);
        assert(s =~= seq![' '] + behind);
        assert(s.skip(1) =~= behind);
        assert(behind[0] == word[0]);
        assert(text::trim_start(behind) == behind);
        assert(text::trim_start(s) == behind);
        lemma_first_word(word, spaced(rest));
        assert(text::words(s) =~= text::words(behind));
        assert(seq![word] + rest =~= fields);
        assert(s.last() == behind.last());
        if spaced(rest).len() > 0 {
            assert(behind.last() == spaced(rest).last());
        } else {
            assert(behind.last() == word.last());
        }
        if s.contains('\n') {
            let i = choose|i: int| 0 <= i < s.len() && s[i] == '\n';
            if 0 < i && i <= word.len() {
                assert(s[i] == word[i - 1]);
            } else if i > word.len() {
                assert(s[i] == spaced(rest)[i - 1 - word.len()]);
                assert(spaced(rest).contains('\n'));
            }
        }
    }
}

proof fn lemma_printed_row(group: Seq<char>, fields: Seq<Seq<char>>)
    requires
        unbroken(group),
        are_words(fields),
    ensures
        text::tail(text::words(printed_row(group, fields))) == fields,
        !printed_row(group, fields).contains('\n'),
        text::without_cr(printed_row(group, fields)) == printed_row(group, fields),
        text::starts_with(printed_row(group, fields), group + ":"@),
{
    reveal_strlit(":");
    let head = group + ":"@;
    let row = printed_row(group, fields);
    lemma_spaced_words(fields);
    assert(row == head + spaced(fields));
    assert forall|i: int| 0 <= i < head.len() implies !text::is_space(#[trigger] head[i]) by {
        if i < group.len() {
            assert(head[i] == group[i]);
        }
    }
    lemma_first_word(head, spaced(fields));
    assert(text::tail(text::words(row)) =~= fields);
    if row.contains('\n') {
        let i = choose|i: int| 0 <= i < row.len() && row[i] == '\n';
        if i < head.len() {
            assert(row[i] == head[i]);
        } else {
            assert(row[i] == spaced(fields)[i - head.len()]);
            assert(spaced(fields).contains('\n'));
        }
    }
    if spaced(fields).len() > 0 {
        assert(row.last() == spaced(fields).last());
    } else {
        assert(row.last() == head.last());
    }
    assert(row.subrange(0, head.len() as int) =~= head);
}

/// What the kernel prints of a group is read back column by column.
pub proof fn lemma_printed_group_reads_back(
    group: Seq<char>,
    names: Seq<Seq<char>>,
    values: Seq<Seq<char>>,
)
    requires
        unbroken(group),
        are_words(names),
        are_words(values),
    ensures
        mib_columns(printed_group(group, names, values), group) == (names, values),
{
    reveal_strlit("\n");
    let header = printed_row(group, names);
    let row = printed_row(group, values);
    lemma_printed_row(group, names);
    lemma_printed_row(group, values);
    let nothing = Seq::<char>::empty();
    assert(text::lines(nothing) =~= seq![]);
    text::lemma_one_more_line(nothing, header);
    let first = header + "\n"@;
    assert(nothing + header + "\n"@ =~= first);
    assert(first.last() == '\n');
    text::lemma_one_more_line(first, row);
    let lines = text::lines(printed_group(group, names, values));
    assert(lines =~= seq![header, row]);
    assert(mib_rows(lines, group + ":"@, 0) == Some((header, row)));
}

/// Names and values in turn, up to pair `n`, where the value is a number.
pub open spec fn alternating(fields: Seq<Seq<char>>, n: int) -> Seq<(Seq<char>, u64)>
    decreases n,
{
    if n <= 0 || 2 * n > fields.len() {
        seq![]
    } else {
        let front = alternating(fields, n - 1);
        match numbers::as_u64(fields[2 * n - 1]) {
            Some(v) => front.push((fields[2 * n - 2], v)),
            None => front,
        }
    }
}

/// The counters of a group in a sockstat file.
pub open spec fn sockstat_group(content: Seq<char>, group: Seq<char>) -> Seq<(Seq<char>, u64)> {
    match text::line_with_prefix(text::lines(content), group + ":"@, 0) {
        Some(k) => {
            let fields = text::tail(text::words(text::lines(content)[k]));
            alternating(fields, fields.len() as int / 2)
        },
        None => seq![],
    }
}

/// The counters of a group in `/proc/net/sockstat` or `/proc/net/sockstat6`.
pub fn parse_sockstat_group(content: &str, group: &str) -> (r: Table)
    ensures
        r@ == sockstat_group(content@, group@),
{
    let mut prefix = group.to_owned();
    prefix.append(":");
    let chars = text::chars_of(content);
    let lines = text::split_lines(chars.as_slice());
    match text::find_line(&lines, prefix.as_str()) {
        None => Table::new(),
        Some(k) => {
            assert(text::views(lines@)[k as int] == lines@[k as int]@);
            let words = text::split_words(lines[k]);
            let ghost fields = text::tail(text::words(lines@[k as int]@));
            assert(text::views(words@).len() == words@.len());
            let count: usize = if words.len() == 0 {
                0
            } else {
                (words.len() - 1) / 2
            };
            let mut out = Table::new();
            let mut i: usize = 0;
            while i < count
                invariant
                    i <= count,
                    count == fields.len() as int / 2,
                    text::views(words@) == text::words(lines@[k as int]@),
                    text::views(words@).len() == words@.len(),
                    fields == text::tail(text::words(lines@[k as int]@)),
                    out@ == alternating(fields, i as int),
                decreases count - i,
            {
                let n: usize = words.len();
                assert(text::views(words@)[2 * i + 1] == words@[2 * i + 1]@);
                assert(text::views(words@)[2 * i + 2] == words@[2 * i + 2]@);
                assert(fields[2 * i] == words@[2 * i + 1]@);
                assert(fields[2 * i + 1] == words@[2 * i + 2]@);
                match numbers::read_u64(words[2 * i + 2]) {
                    Some(v) => {
                        out.push(text::string_of(words[2 * i + 1]), v);
                    },
                    None => {},
                }
                i = i + 1;
            }
            out
        },
    }
}

/// Raw host-wide network counters. Each is optional by itself: a kernel may
/// expose one table and not another.
#[derive(Debug, Clone, Copy, PartialEq, Eq, Structural)]
pub struct NetworkRaw {
    pub tcp_curr_estab: Option<u64>,
    pub tcp_inuse: Option<u64>,
    pub tcp_time_wait: Option<u64>,
    pub tcp_orphan: Option<u64>,
    pub tcp_alloc: Option<u64>,
    pub tcp_mem_pages: Option<u64>,
    pub udp_inuse: Option<u64>,
    pub udp_mem_pages: Option<u64>,
    pub tcp_active_opens: Option<u64>,
    pub tcp_passive_opens: Option<u64>,
    pub tcp_attempt_fails: Option<u64>,
    pub tcp_estab_resets: Option<u64>,
    pub tcp_retrans_segs: Option<u64>,
    pub tcp_syn_retrans: Option<u64>,
    pub tcp_in_errors: Option<u64>,
    pub tcp_out_resets: Option<u64>,
    pub tcp_timeouts: Option<u64>,
    pub tcp_listen_overflows: Option<u64>,
    pub tcp_listen_drops: Option<u64>,
    pub udp_in_errors: Option<u64>,
    pub udp_no_ports: Option<u64>,
    pub udp_rcvbuf_errors: Option<u64>,
    pub udp_sndbuf_errors: Option<u64>,
}

impl NetworkRaw {
    /// Nothing was read.
    pub open spec fn nothing() -> NetworkRaw {
        NetworkRaw {
            tcp_curr_estab: None,
            tcp_inuse: None,
            tcp_time_wait: None,
            tcp_orphan: None,
            tcp_alloc: None,
            tcp_mem_pages: None,
            udp_inuse: None,
            udp_mem_pages: None,
            tcp_active_opens: None,
            tcp_passive_opens: None,
            tcp_attempt_fails: None,
            tcp_estab_resets: None,
            tcp_retrans_segs: None,
            tcp_syn_retrans: None,
            tcp_in_errors: None,
            tcp_out_resets: None,
            tcp_timeouts: None,
            tcp_listen_overflows: None,
            tcp_listen_drops: None,
            udp_in_errors: None,
            udp_no_ports: None,
            udp_rcvbuf_errors: None,
            udp_sndbuf_errors: None,
        }
    }

    /// Whether any counter was read.
    pub fn has_any(&self) -> (r: bool)
        ensures
            r == (*self != NetworkRaw::nothing()),
    {
        self.tcp_curr_estab.is_some() || self.tcp_inuse.is_some() || self.tcp_time_wait.is_some()
            || self.tcp_orphan.is_some() || self.tcp_alloc.is_some() || self.tcp_mem_pages.is_some()
            || self.udp_inuse.is_some() || self.udp_mem_pages.is_some()
            || self.tcp_active_opens.is_some() || self.tcp_passive_opens.is_some()
            || self.tcp_attempt_fails.is_some() || self.tcp_estab_resets.is_some()
            || self.tcp_retrans_segs.is_some() || self.tcp_syn_retrans.is_some()
            || self.tcp_in_errors.is_some() || self.tcp_out_resets.is_some()
            || self.tcp_timeouts.is_some() || self.tcp_listen_overflows.is_some()
            || self.tcp_listen_drops.is_some() || self.udp_in_errors.is_some()
            || self.udp_no_ports.is_some() || self.udp_rcvbuf_errors.is_some()
            || self.udp_sndbuf_errors.is_some()
    }
}

impl Default for NetworkRaw {
    fn default() -> (r: NetworkRaw)
        ensures
            r == NetworkRaw::nothing(),
    {
        NetworkRaw {
            tcp_curr_estab: None,
            tcp_inuse: None,
            tcp_time_wait: None,
            tcp_orphan: None,
            tcp_alloc: None,
            tcp_mem_pages: None,
            udp_inuse: None,
            udp_mem_pages: None,
            tcp_active_opens: None,
            tcp_passive_opens: None,
            tcp_attempt_fails: None,
            tcp_estab_resets: None,
            tcp_retrans_segs: None,
            tcp_syn_retrans: None,
            tcp_in_errors: None,
            tcp_out_resets: None,
            tcp_timeouts: None,
            tcp_listen_overflows: None,
            tcp_listen_drops: None,
            udp_in_errors: None,
            udp_no_ports: None,
            udp_rcvbuf_errors: None,
            udp_sndbuf_errors: None,
        }
    }
}

/// Both counts together, capped; what is missing counts as zero where the other is there.
pub open spec fn both(a: Option<u64>, b: Option<u64>) -> Option<u64> {
    match (a, b) {
        (None, None) => None,
        _ => Some(numbers::capped(procfs::or_zero(a) + procfs::or_zero(b))),
    }
}

fn add_both(a: Option<u64>, b: Option<u64>) -> (r: Option<u64>)
    ensures
        r == both(a, b),
{
    match (a, b) {
        (None, None) => None,
        (Some(x), None) => Some(x),
        (None, Some(y)) => Some(y),
        (Some(x), Some(y)) => Some(x.saturating_add(y)),
    }
}

/// Host-wide counters, joined by name from the kernel's tables. IPv6 sockets and
/// datagrams count with those of IPv4.
pub open spec fn network_of(
    snmp: Seq<char>,
    netstat: Seq<char>,
    snmp6: Seq<char>,
    sockstat: Seq<char>,
    sockstat6: Seq<char>,
) -> NetworkRaw {
    let tcp = mib_group(snmp, "Tcp"@);
    let udp = mib_group(snmp, "Udp"@);
    let tcp_ext = mib_group(netstat, "TcpExt"@);
    let ipv6 = procfs::pairs_in(text::lines(snmp6));
    let tcp_sock = sockstat_group(sockstat, "TCP"@);
    let udp_sock = sockstat_group(sockstat, "UDP"@);
    let tcp6_sock = sockstat_group(sockstat6, "TCP6"@);
    let udp6_sock = sockstat_group(sockstat6, "UDP6"@);
    NetworkRaw {
        tcp_curr_estab: procfs::value_of(tcp, "CurrEstab"@),
        tcp_inuse: both(
            procfs::value_of(tcp_sock, "inuse"@),
            procfs::value_of(tcp6_sock, "inuse"@),
        ),
        tcp_time_wait: procfs::value_of(tcp_sock, "tw"@),
        tcp_orphan: procfs::value_of(tcp_sock, "orphan"@),
        tcp_alloc: procfs::value_of(tcp_sock, "alloc"@),
        tcp_mem_pages: procfs::value_of(tcp_sock, "mem"@),
        udp_inuse: both(
            procfs::value_of(udp_sock, "inuse"@),
            procfs::value_of(udp6_sock, "inuse"@),
        ),
        udp_mem_pages: procfs::value_of(udp_sock, "mem"@),
        tcp_active_opens: procfs::value_of(tcp, "ActiveOpens"@),
        tcp_passive_opens: procfs::value_of(tcp, "PassiveOpens"@),
        tcp_attempt_fails: procfs::value_of(tcp, "AttemptFails"@),
        tcp_estab_resets: procfs::value_of(tcp, "EstabResets"@),
        tcp_retrans_segs: procfs::value_of(tcp, "RetransSegs"@),
        tcp_syn_retrans: procfs::value_of(tcp_ext, "TCPSynRetrans"@),
        tcp_in_errors: procfs::value_of(tcp, "InErrs"@),
        tcp_out_resets: procfs::value_of(tcp, "OutRsts"@),
        tcp_timeouts: procfs::value_of(tcp_ext, "TCPTimeouts"@),
        tcp_listen_overflows: procfs::value_of(tcp_ext, "ListenOverflows"@),
        tcp_listen_drops: procfs::value_of(tcp_ext, "ListenDrops"@),
        udp_in_errors: both(
            procfs::value_of(udp, "InErrors"@),
            procfs::value_of(ipv6, "Udp6InErrors"@),
        ),
        udp_no_ports: both(
            procfs::value_of(udp, "NoPorts"@),
            procfs::value_of(ipv6, "Udp6NoPorts"@),
        ),
        udp_rcvbuf_errors: both(
            procfs::value_of(udp, "RcvbufErrors"@),
            procfs::value_of(ipv6, "Udp6RcvbufErrors"@),
        ),
        udp_sndbuf_errors: both(
            procfs::value_of(udp, "SndbufErrors"@),
            procfs::value_of(ipv6, "Udp6SndbufErrors"@),
        ),
    }
}

/// Host-wide counters, from the kernel's tables.
pub fn network_from_text(
    snmp: &str,
    netstat: &str,
    snmp6: &str,
    sockstat: &str,
    sockstat6: &str,
) -> (r: NetworkRaw)
    ensures
        r == network_of(snmp@, netstat@, snmp6@, sockstat@, sockstat6@),
{
    let tcp = parse_mib_group(snmp, "Tcp");
    let udp = parse_mib_group(snmp, "Udp");
    let tcp_ext = parse_mib_group(netstat, "TcpExt");
    let ipv6 = parse_single_value_mib(snmp6);
    let tcp_sock = parse_sockstat_group(sockstat, "TCP");
    let udp_sock = parse_sockstat_group(sockstat, "UDP");
    let tcp6_sock = parse_sockstat_group(sockstat6, "TCP6");
    let udp6_sock = parse_sockstat_group(sockstat6, "UDP6");
    NetworkRaw {
        tcp_curr_estab: tcp.get("CurrEstab"),
        tcp_inuse: add_both(tcp_sock.get("inuse"), tcp6_sock.get("inuse")),
        tcp_time_wait: tcp_sock.get("tw"),
        tcp_orphan: tcp_sock.get("orphan"),
        tcp_alloc: tcp_sock.get("alloc"),
        tcp_mem_pages: tcp_sock.get("mem"),
        udp_inuse: add_both(udp_sock.get("inuse"), udp6_sock.get("inuse")),
        udp_mem_pages: udp_sock.get("mem"),
        tcp_active_opens: tcp.get("ActiveOpens"),
        tcp_passive_opens: tcp.get("PassiveOpens"),
        tcp_attempt_fails: tcp.get("AttemptFails"),
        tcp_estab_resets: tcp.get("EstabResets"),
        tcp_retrans_segs: tcp.get("RetransSegs"),
        tcp_syn_retrans: tcp_ext.get("TCPSynRetrans"),
        tcp_in_errors: tcp.get("InErrs"),
        tcp_out_resets: tcp.get("OutRsts"),
        tcp_timeouts: tcp_ext.get("TCPTimeouts"),
        tcp_listen_overflows: tcp_ext.get("ListenOverflows"),
        tcp_listen_drops: tcp_ext.get("ListenDrops"),
        udp_in_errors: add_both(udp.get("InErrors"), ipv6.get("Udp6InErrors")),
        udp_no_ports: add_both(udp.get("NoPorts"), ipv6.get("Udp6NoPorts")),
        udp_rcvbuf_errors: add_both(udp.get("RcvbufErrors"), ipv6.get("Udp6RcvbufErrors")),
        udp_sndbuf_errors: add_both(udp.get("SndbufErrors"), ipv6.get("Udp6SndbufErrors")),
    }
}

/// The ports from which outgoing connections are made.
#[derive(Debug, PartialEq, Eq)]
pub struct EphemeralPortRange {
    pub low: u16,
    pub high: u16,
    pub capacity: u64,
    pub reserved: Vec<(u16, u16)>,
}

/// Whether some range covers `port`.
pub open spec fn covered(ranges: Seq<(u16, u16)>, port: int) -> bool {
    exists|i: int| 0 <= i < ranges.len() && (#[trigger] ranges[i]).0 <= port <= ranges[i].1
}

/// How many ports below `to` and from `low` on no range covers.
pub open spec fn free_ports(ranges: Seq<(u16, u16)>, low: int, to: int) -> int
    decreases to - low,
{
    if to <= low {
        0
    } else {
        free_ports(ranges, low, to - 1) + (if covered(ranges, to - 1) {
            0int
        } else {
            1int
        })
    }
}

/// The part of a reserved item that lies between `low` and `high`.
pub open spec fn reserved_item(item: Seq<char>, low: u16, high: u16) -> Option<(u16, u16)> {
    let (start, end) = match text::split_once(item, '-') {
        Some((start, end)) => (start, end),
        None => (item, item),
    };
    match (numbers::as_u16(start), numbers::as_u16(end)) {
        (Some(s), Some(e)) => {
            let from = if s > low {
                s
            } else {
                low
            };
            let to = if e < high {
                e
            } else {
                high
            };
            if from > to {
                None
            } else {
                Some((from, to))
            }
        },
        _ => None,
    }
}

/// The reserved ranges between `low` and `high`, in the order they are listed.
pub open spec fn reserved_ranges(items: Seq<Seq<char>>, low: u16, high: u16) -> Seq<(u16, u16)>
    decreases items.len(),
{
    if items.len() == 0 {
        seq![]
    } else {
        let front = reserved_ranges(items.drop_last(), low, high);
        match reserved_item(items.last(), low, high) {
            Some(range) => front.push(range),
            None => front,
        }
    }
}

impl EphemeralPortRange {
    /// Whether a connection may be made from `port`.
    pub open spec fn usable(self, port: int) -> bool {
        self.low <= port <= self.high && !covered(self.reserved@, port)
    }

    pub fn contains(&self, port: u16) -> (r: bool)
        ensures
            r == self.usable(port as int),
    {
        if port < self.low || port > self.high {
            return false;
        }
        !is_covered(&self.reserved, port)
    }
}

fn is_covered(ranges: &Vec<(u16, u16)>, port: u16) -> (r: bool)
    ensures
        r == covered(ranges@, port as int),
{
    let mut i: usize = 0;
    while i < ranges.len()
        invariant
            i <= ranges.len(),
            forall|j: int|
                0 <= j < i ==> !((#[trigger] ranges@[j]).0 <= port <= ranges@[j].1),
        decreases ranges.len() - i,
    {
        if ranges[i].0 <= port && port <= ranges[i].1 {
            return true;
        }
        i = i + 1;
    }
    false
}

/// The ports of a range that are not reserved. An item that is empty or no
/// number reserves nothing.
pub fn ephemeral_port_range(low: u16, high: u16, reserved: &str) -> (r: EphemeralPortRange)
    requires
        low <= high,
    ensures
        r.low == low,
        r.high == high,
        r.reserved@ == reserved_ranges(text::split_char(text::trim(reserved@), ','), low, high),
        r.capacity == free_ports(r.reserved@, low as int, high + 1),
{
    let chars = text::chars_of(reserved);
    let items = text::split_at_char(text::trimmed(chars.as_slice()), ',');
    let ghost all = text::views(items@);
    let mut ranges: Vec<(u16, u16)> = Vec::new();
    let mut i: usize = 0;
    while i < items.len()
        invariant
            i <= items.len(),
            all == text::views(items@),
            ranges@ == reserved_ranges(all.take(i as int), low, high),
        decreases items.len() - i,
    {
        proof {
            assert(all.take(i + 1).drop_last() == all.take(i as int));
            assert(all.take(i + 1).last() == items@[i as int]@);
        }
        let (start, end) = match text::cut_once(items[i], '-') {
            Some((start, end)) => (start, end),
            None => (items[i], items[i]),
        };
        match (numbers::read_u16(start), numbers::read_u16(end)) {
            (Some(s), Some(e)) => {
                let from: u16 = if s > low {
                    s
                } else {
                    low
                };
                let to: u16 = if e < high {
                    e
                } else {
                    high
                };
                if from <= to {
                    ranges.push((from, to));
                }
            },
            _ => {},
        }
        i = i + 1;
    }
    assert(all.take(i as int) == all);
    let mut capacity: u64 = 0;
    let mut port: u32 = low as u32;
    while port <= high as u32
        invariant
            low <= port <= high + 1,
            capacity == free_ports(ranges@, low as int, port as int),
            capacity <= port,
        decreases high + 1 - port,
    {
        if !is_covered(&ranges, port as u16) {
            capacity = capacity + 1;
        }
        port = port + 1;
    }
    EphemeralPortRange { low, high, capacity, reserved: ranges }
}

/// The bounds in `/proc/sys/net/ipv4/ip_local_port_range`.
pub open spec fn port_bounds(content: Seq<char>) -> Option<(u16, u16)> {
    match (text::word(content, 0), text::word(content, 1)) {
        (Some(a), Some(b)) => match (numbers::as_u16(a), numbers::as_u16(b)) {
            (Some(low), Some(high)) => if low > high {
                None
            } else {
                Some((low, high))
            },
            _ => None,
        },
        _ => None,
    }
}

/// The usable ports, from the bounds and the list of reserved ports.
pub fn read_ephemeral_port_range(bounds: &str, reserved: &str) -> (r: Option<EphemeralPortRange>)
    ensures
        match r {
            Some(range) => port_bounds(bounds@) == Some((range.low, range.high)) && range.reserved@
                == reserved_ranges(
                text::split_char(text::trim(reserved@), ','),
                range.low,
                range.high,
            ) && range.capacity == free_ports(
                range.reserved@,
                range.low as int,
                range.high + 1,
            ),
            None => port_bounds(bounds@) is None,
        },
{
    let chars = text::chars_of(bounds);
    match (text::nth_word(chars.as_slice(), 0), text::nth_word(chars.as_slice(), 1)) {
        (Some(a), Some(b)) => match (numbers::read_u16(a), numbers::read_u16(b)) {
            (Some(low), Some(high)) => if low > high {
                None
            } else {
                Some(ephemeral_port_range(low, high, reserved))
            },
            _ => None,
        },
        _ => None,
    }
}

/// The ports between `low` and `to` from which connections may be made.
pub open spec fn usable_ports(range: EphemeralPortRange, to: int) -> Set<int> {
    Set::new(|p: int| range.low <= p < to && range.usable(p))
}

/// The capacity is the number of usable ports: a port that two items reserve is
/// subtracted once, and one outside the range not at all.
pub proof fn lemma_capacity_counts_usable_ports(range: EphemeralPortRange, to: int)
    requires
        range.low <= to <= range.high + 1,
    ensures
        usable_ports(range, to).finite(),
        usable_ports(range, to).len() == free_ports(range.reserved@, range.low as int, to),
    decreases to,
{
    if to == range.low {
        assert(usable_ports(range, to) =~= Set::empty());
    } else {
        lemma_capacity_counts_usable_ports(range, to - 1);
        let smaller = usable_ports(range, to - 1);
        if covered(range.reserved@, to - 1) {
            assert(usable_ports(range, to) =~= smaller);
        } else {
            assert(usable_ports(range, to) =~= smaller.insert(to - 1));
        }
    }
}

/// The counters of an interface as the kernel prints them: what it received first, in bytes and
/// packets, with errors and drops, and what it sent in the same order eight places on.
pub proof fn lemma_interface_counters_stand_in_their_places(f: Seq<u64>)
    requires
        f.len() >= 12,
        f[2] + f[10] <= u64::MAX,
    ensures
        ({
            let read = counters_in(text::join(numbers::spelled(f), seq![' ']));
            &&& read.rx_bytes == f[0]
            &&& read.rx_drop == f[3]
            &&& read.tx_bytes == f[8]
            &&& read.tx_drop == f[11]
            &&& read.errs == f[2] + f[10]
        }),
{
    numbers::lemma_spelled_numbers_read_back(f);
    text::lemma_spaced_words(numbers::spelled(f));
}

/// Every counter of the network is the one that the kernel gives under its name in its own
/// table; what is in use of both families is added up.
pub proof fn lemma_network_counters_go_by_name(
    snmp: Seq<char>,
    netstat: Seq<char>,
    snmp6: Seq<char>,
    sockstat: Seq<char>,
    sockstat6: Seq<char>,
    count: u64,
)
    ensures
        ({
            let read = network_of(snmp, netstat, snmp6, sockstat, sockstat6);
            let tcp = |name: Seq<char>| procfs::value_of(mib_group(snmp, "Tcp"@), name);
            let ext = |name: Seq<char>| procfs::value_of(mib_group(netstat, "TcpExt"@), name);
            let sock = |name: Seq<char>| procfs::value_of(sockstat_group(sockstat, "TCP"@), name);
            &&& read.tcp_curr_estab == tcp("CurrEstab"@)
            &&& read.tcp_active_opens == tcp("ActiveOpens"@)
            &&& read.tcp_passive_opens == tcp("PassiveOpens"@)
            &&& read.tcp_attempt_fails == tcp("AttemptFails"@)
            &&& read.tcp_estab_resets == tcp("EstabResets"@)
            &&& read.tcp_retrans_segs == tcp("RetransSegs"@)
            &&& read.tcp_in_errors == tcp("InErrs"@)
            &&& read.tcp_out_resets == tcp("OutRsts"@)
            &&& read.tcp_syn_retrans == ext("TCPSynRetrans"@)
            &&& read.tcp_timeouts == ext("TCPTimeouts"@)
            &&& read.tcp_listen_overflows == ext("ListenOverflows"@)
            &&& read.tcp_listen_drops == ext("ListenDrops"@)
            &&& read.tcp_time_wait == sock("tw"@)
            &&& read.tcp_orphan == sock("orphan"@)
            &&& read.tcp_alloc == sock("alloc"@)
            &&& read.tcp_mem_pages == sock("mem"@)
            &&& sock("inuse"@) == Some(count) ==> read.tcp_inuse is Some && read.tcp_inuse->0 >= count
            &&& procfs::value_of(sockstat_group(sockstat6, "TCP6"@), "inuse"@) == Some(count)
                ==> read.tcp_inuse is Some && read.tcp_inuse->0 >= count
        }),
{
}

/// Where both families count something, what is told is both together.
pub proof fn lemma_both_families_are_added_up(
    snmp: Seq<char>,
    netstat: Seq<char>,
    snmp6: Seq<char>,
    sockstat: Seq<char>,
    sockstat6: Seq<char>,
    a: u64,
    b: u64,
)
    requires
        a + b <= u64::MAX,
    ensures
        ({
            let read = network_of(snmp, netstat, snmp6, sockstat, sockstat6);
            let sum = Some((a + b) as u64);
            let udp = |name: Seq<char>| procfs::value_of(mib_group(snmp, "Udp"@), name) == Some(a);
            let udp6 = |name: Seq<char>|
                procfs::value_of(procfs::pairs_in(text::lines(snmp6)), name) == Some(b);
            let sock = |group: Seq<char>|
                procfs::value_of(sockstat_group(sockstat, group), "inuse"@) == Some(a);
            let sock6 = |group: Seq<char>|
                procfs::value_of(sockstat_group(sockstat6, group), "inuse"@) == Some(b);
            &&& sock("TCP"@) && sock6("TCP6"@) ==> read.tcp_inuse == sum
            &&& sock("UDP"@) && sock6("UDP6"@) ==> read.udp_inuse == sum
            &&& udp("InErrors"@) && udp6("Udp6InErrors"@) ==> read.udp_in_errors == sum
            &&& udp("NoPorts"@) && udp6("Udp6NoPorts"@) ==> read.udp_no_ports == sum
            &&& udp("RcvbufErrors"@) && udp6("Udp6RcvbufErrors"@) ==> read.udp_rcvbuf_errors == sum
            &&& udp("SndbufErrors"@) && udp6("Udp6SndbufErrors"@) ==> read.udp_sndbuf_errors == sum
        }),
{
}

/// The interface of the first line that goes everywhere carries the default route.
pub proof fn lemma_first_way_everywhere_counts(lines: Seq<Seq<char>>, from: int)
    requires
        0 <= from <= lines.len(),
    ensures
        default_interface(lines, from) matches Some(nic) ==> exists|k: int|
            from <= k < lines.len() && text::word(#[trigger] lines[k], 0) == Some(nic) && text::word(
                lines[k],
                1,
            ) == Some("00000000"@) && forall|j: int|
                from <= j < k ==> text::word(#[trigger] lines[j], 1) != Some("00000000"@),
        default_interface(lines, from) is None ==> forall|k: int|
            from <= k < lines.len() && text::word(#[trigger] lines[k], 1) == Some("00000000"@)
                ==> exists|j: int| from <= j < k && text::word(#[trigger] lines[j], 1) is None,
    decreases lines.len() - from,
{
    if from < lines.len() {
        lemma_first_way_everywhere_counts(lines, from + 1);
        let line = lines[from];
        assert(text::word(line, 1) is Some ==> text::word(line, 0) is Some);
        if text::word(line, 1) is None {
            assert forall|k: int|
                from <= k < lines.len() && text::word(#[trigger] lines[k], 1) == Some(
                    "00000000"@,
                ) implies exists|j: int|
                from <= j < k && text::word(#[trigger] lines[j], 1) is None by {
                assert(text::word(lines[from], 1) is None);
            }
        } else if text::word(line, 1) == Some("00000000"@) {
            assert(text::word(lines[from], 0) == default_interface(lines, from));
        } else {
            let found = default_interface(lines, from + 1);
            assert(default_interface(lines, from) == found);
            if found is Some {
                let nic = found->0;
                let k = choose|k: int|
                    from + 1 <= k < lines.len() && text::word(#[trigger] lines[k], 0) == Some(nic)
                        && text::word(lines[k], 1) == Some("00000000"@) && forall|j: int|
                        from + 1 <= j < k ==> text::word(#[trigger] lines[j], 1) != Some(
                            "00000000"@,
                        );
                assert(text::word(lines[k], 0) == Some(nic));
            } else {
                assert forall|k: int|
                    from <= k < lines.len() && text::word(#[trigger] lines[k], 1) == Some(
                        "00000000"@,
                    ) implies exists|j: int|
                    from <= j < k && text::word(#[trigger] lines[j], 1) is None by {
                    assert(k >= from + 1);
                    let j = choose|j: int|
                        from + 1 <= j < k && text::word(#[trigger] lines[j], 1) is None;
                    assert(text::word(lines[j], 1) is None);
                }
            }
        }
    }
}

/// A reserved range takes away exactly the ports that it shares with those in use.
pub proof fn lemma_reserved_ports_are_the_shared_ones(
    start: u16,
    end: u16,
    low: u16,
    high: u16,
    port: u16,
)
    ensures
        ({
            let item = numbers::decimal(start as int) + "-"@ + numbers::decimal(end as int);
            let taken = match reserved_item(item, low, high) {
                Some((from, to)) => from <= port <= to,
                None => false,
            };
            taken <==> start <= port <= end && low <= port <= high
        }),
        ({
            let taken = match reserved_item(numbers::decimal(start as int), low, high) {
                Some((from, to)) => from <= port <= to,
                None => false,
            };
            taken <==> port == start && low <= port <= high
        }),
{
    let (a, b) = (numbers::decimal(start as int), numbers::decimal(end as int));
    let item = a + "-"@ + b;
    let at = a.len() as int;
    reveal_strlit("-");
    numbers::lemma_decimal_digits(start as int);
    numbers::lemma_decimal_digits(end as int);
    numbers::lemma_parse_decimal(start as int, u16::MAX as int);
    numbers::lemma_parse_decimal(end as int, u16::MAX as int);
    assert forall|j: int| 0 <= j < at implies #[trigger] item[j] != '-' by {
        assert(item[j] == a[j]);
    }
    assert(item[at] == '-');
    text::lemma_find_char_at(item, '-', 0, at);
    text::lemma_find_char(a, '-', 0);
    assert(item.take(at) =~= a);
    assert(item.skip(at + 1) =~= b);
}

/// Bounds that are written lower first read back, and others do not.
pub proof fn lemma_port_bounds_read_back(low: u16, high: u16)
    ensures
        port_bounds(
            text::join(
                seq![numbers::decimal(low as int), numbers::decimal(high as int)],
                seq![' '],
            ),
        ) == if low <= high {
            Some((low, high))
        } else {
            None
        },
{
    let pieces = seq![numbers::decimal(low as int), numbers::decimal(high as int)];
    numbers::lemma_decimal_digits(low as int);
    numbers::lemma_decimal_digits(high as int);
    numbers::lemma_parse_decimal(low as int, u16::MAX as int);
    numbers::lemma_parse_decimal(high as int, u16::MAX as int);
    assert forall|i: int| 0 <= i < pieces.len() implies text::is_word(#[trigger] pieces[i]) by {
        assert(i == 0 || i == 1);
    }
    text::lemma_spaced_words(pieces);
}

} // verus!
