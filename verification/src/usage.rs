//! What accounts used, and how a reading of it is told from every other.
use vstd::prelude::*;
use vstd::string::*;

use crate::order::TextMap;
use crate::probe::XrayStat;
use crate::{numbers, order, text};

verus! {

/// What tells one reading of usage from every other: who took it, and how many were
/// taken before.
#[derive(Debug, PartialEq, Eq)]
pub struct UsageCursor {
    pub agent_instance_id: String,
    pub last_sequence: u64,
}

/// The two hexadecimal digits of a byte.
pub open spec fn hex_byte(b: u8) -> Seq<char> {
    seq![numbers::digit_char(b as int / 16), numbers::digit_char(b as int % 16)]
}

/// Bytes as hexadecimal digits.
pub open spec fn hex(bytes: Seq<u8>) -> Seq<char>
    decreases bytes.len(),
{
    if bytes.len() == 0 {
        seq![]
    } else {
        hex(bytes.drop_last()) + hex_byte(bytes.last())
    }
}

fn hex_digit(d: u8) -> (r: char)
    requires
        d < 16,
    ensures
        r == numbers::digit_char(d as int),
{
    match d {
        0 => '0',
        1 => '1',
        2 => '2',
        3 => '3',
        4 => '4',
        5 => '5',
        6 => '6',
        7 => '7',
        8 => '8',
        9 => '9',
        10 => 'a',
        11 => 'b',
        12 => 'c',
        13 => 'd',
        14 => 'e',
        _ => 'f',
    }
}

/// The cursor of an agent that has taken no reading yet, from bytes that nobody else
/// has.
pub fn first_cursor(bytes: &[u8]) -> (r: UsageCursor)
    ensures
        r.agent_instance_id@ == hex(bytes@),
        r.last_sequence == 0,
{
    let mut id = "".to_owned();
    proof {
        reveal_strlit("");
    }
    let mut i: usize = 0;
    assert(id@ == hex(bytes@.take(0)));
    while i < bytes.len()
        invariant
            i <= bytes@.len(),
            id@ == hex(bytes@.take(i as int)),
        decreases bytes.len() - i,
    {
        let b: u8 = bytes[i];
        assert(bytes@.take(i + 1).drop_last() == bytes@.take(i as int));
        assert(bytes@.take(i + 1).last() == b);
        id.push(hex_digit(b / 16));
        id.push(hex_digit(b % 16));
        assert(id@ == hex(bytes@.take(i as int)) + hex_byte(b));
        i = i + 1;
    }
    assert(bytes@.take(i as int) == bytes@);
    UsageCursor { agent_instance_id: id, last_sequence: 0 }
}

/// Sixteen bytes from `getrandom::fill`. Which ones they are is not stated: that is
/// chance.
#[verifier::external_body]
fn fill() -> (r: Result<Vec<u8>, String>)
    ensures
        r matches Ok(bytes) ==> bytes@.len() == 16,
{
    let mut bytes = [0_u8; 16];
    getrandom::fill(&mut bytes).map(|()| bytes.to_vec()).map_err(|error| error.to_string())
}

/// The cursor of the next reading.
pub fn next_cursor(cursor: UsageCursor) -> (r: Result<UsageCursor, String>)
    ensures
        match r {
            Ok(next) => next.agent_instance_id@ == cursor.agent_instance_id@ && next.last_sequence
                == cursor.last_sequence + 1,
            Err(e) => cursor.last_sequence == u64::MAX && e@ == "usage sequence exhausted"@,
        },
{
    match cursor.last_sequence.checked_add(1) {
        Some(last_sequence) => Ok(
            UsageCursor { agent_instance_id: cursor.agent_instance_id, last_sequence },
        ),
        None => Err("usage sequence exhausted".to_owned()),
    }
}

/// What is kept of the readings so far.
#[derive(Debug, PartialEq, Eq)]
pub enum StoredCursor {
    Kept(UsageCursor),
    Absent,
    Unreadable(String),
    Undecodable(String),
}

/// The cursor of the next reading, which has to be kept before the reading is taken: a
/// gap does no harm, and one cursor for two readings would. An agent that has kept none
/// takes a new identity.
pub fn reserve_usage_sequence(stored: StoredCursor) -> (r: Result<UsageCursor, String>)
    ensures
        match stored {
            StoredCursor::Kept(cursor) => match r {
                Ok(next) => next.agent_instance_id@ == cursor.agent_instance_id@
                    && next.last_sequence == cursor.last_sequence + 1,
                Err(e) => cursor.last_sequence == u64::MAX && e@ == "usage sequence exhausted"@,
            },
            StoredCursor::Absent => r matches Ok(next) ==> next.last_sequence == 1 && exists|
                bytes: Seq<u8>,
            | bytes.len() == 16 && next.agent_instance_id@ == #[trigger] hex(bytes),
            StoredCursor::Unreadable(error) => r matches Err(e) && e@
                == "failed to read usage cursor: "@ + error@,
            StoredCursor::Undecodable(error) => r matches Err(e) && e@
                == "failed to decode usage cursor: "@ + error@,
        },
{
    match stored {
        StoredCursor::Kept(cursor) => next_cursor(cursor),
        StoredCursor::Absent => match fill() {
            Ok(bytes) => next_cursor(first_cursor(bytes.as_slice())),
            Err(e) => Err(e),
        },
        StoredCursor::Unreadable(error) => {
            let mut out = "failed to read usage cursor: ".to_owned();
            out.append(error.as_str());
            Err(out)
        },
        StoredCursor::Undecodable(error) => {
            let mut out = "failed to decode usage cursor: ".to_owned();
            out.append(error.as_str());
            Err(out)
        },
    }
}

/// Whether a cursor is the one after another.
pub open spec fn follows(next: UsageCursor, cursor: UsageCursor) -> bool {
    next.agent_instance_id@ == cursor.agent_instance_id@ && next.last_sequence
        == cursor.last_sequence + 1
}

/// Cursors that follow each other are all different: no two readings of one agent are
/// told by the same cursor.
pub proof fn lemma_no_cursor_is_used_twice(cursors: Seq<UsageCursor>, i: int, j: int)
    requires
        0 <= i < j < cursors.len(),
        forall|k: int|
            0 <= k < cursors.len() - 1 ==> #[trigger] follows(cursors[k + 1], cursors[k]),
    ensures
        cursors[i].last_sequence < cursors[j].last_sequence,
        cursors[i].agent_instance_id@ == cursors[j].agent_instance_id@,
    decreases j - i,
{
    assert(follows(cursors[j - 1 + 1], cursors[j - 1]));
    if i < j - 1 {
        lemma_no_cursor_is_used_twice(cursors, i, j - 1);
    }
}

/// Different identities spell differently, so two agents never share one by spelling.
pub proof fn lemma_hex_tells_bytes_apart(a: Seq<u8>, b: Seq<u8>)
    requires
        hex(a) == hex(b),
    ensures
        a == b,
    decreases a.len(),
{
    lemma_hex_len(a);
    lemma_hex_len(b);
    assert(a.len() == b.len());
    if a.len() > 0 {
        let s = hex(a);
        let n = s.len();
        assert(s.subrange(0, n - 2) == hex(a.drop_last()));
        assert(s.subrange(0, n - 2) == hex(b.drop_last()));
        assert(s.subrange(n - 2, n as int) == hex_byte(a.last()));
        assert(s.subrange(n - 2, n as int) == hex_byte(b.last()));
        lemma_hex_tells_bytes_apart(a.drop_last(), b.drop_last());
        assert(hex_byte(a.last())[0] == hex_byte(b.last())[0]);
        assert(hex_byte(a.last())[1] == hex_byte(b.last())[1]);
        lemma_digits_differ(a.last() as int / 16, b.last() as int / 16);
        lemma_digits_differ(a.last() as int % 16, b.last() as int % 16);
        assert(a.last() == b.last());
        assert(a == a.drop_last().push(a.last()));
        assert(b == b.drop_last().push(b.last()));
    }
}

proof fn lemma_hex_len(bytes: Seq<u8>)
    ensures
        hex(bytes).len() == 2 * bytes.len(),
    decreases bytes.len(),
{
    if bytes.len() > 0 {
        lemma_hex_len(bytes.drop_last());
    }
}

proof fn lemma_digits_differ(a: int, b: int)
    requires
        0 <= a < 16,
        0 <= b < 16,
        numbers::digit_char(a) == numbers::digit_char(b),
    ensures
        a == b,
{
}

/// What a file held, or why it could not be read.
#[derive(Debug)]
pub enum FileText<'a> {
    Held(&'a str),
    Absent,
    Unreadable(&'a str),
}

/// The generation of usage that is kept.
pub fn read_usage_generation(file: &FileText) -> (r: Result<Option<i64>, String>)
    ensures
        match *file {
            FileText::Held(t) => match numbers::parse_signed(
                text::trim(t@),
                i64::MIN as int,
                i64::MAX as int,
            ) {
                Ok(v) => r == Ok::<Option<i64>, String>(Some(v as i64)),
                Err(cause) => r matches Err(e) && e@ == "failed to decode usage generation: "@
                    + cause.sentence(),
            },
            FileText::Absent => r == Ok::<Option<i64>, String>(None),
            FileText::Unreadable(error) => r matches Err(e) && e@
                == "failed to read usage generation: "@ + error@,
        },
{
    match file {
        FileText::Held(t) => {
            let chars = text::chars_of(t);
            match numbers::read_i64(text::trimmed(chars.as_slice())) {
                Ok(v) => Ok(Some(v)),
                Err(cause) => {
                    let mut out = "failed to decode usage generation: ".to_owned();
                    out.append(cause.describe().as_str());
                    Err(out)
                },
            }
        },
        FileText::Absent => Ok(None),
        FileText::Unreadable(error) => {
            let mut out = "failed to read usage generation: ".to_owned();
            out.append(error);
            Err(out)
        },
    }
}

/// The text under which a generation of usage is kept.
pub fn write_usage_generation(generation_id: i64) -> (r: String)
    ensures
        r@ == numbers::signed_decimal(generation_id as int),
{
    numbers::signed_string(generation_id)
}

/// The account and the direction that a counter's name tells: `user>>>{label}>>>traffic>>>`
/// and the direction.
pub open spec fn stat_name(name: Seq<char>) -> Option<(Seq<char>, Seq<char>)> {
    let parts = text::split_sub(name, ">>>"@);
    if parts.len() == 4 && parts[0] == "user"@ && parts[2] == "traffic"@ && (parts[3] == "uplink"@
        || parts[3] == "downlink"@) {
        Some((parts[1], parts[3]))
    } else {
        None
    }
}

/// The account and the direction that a counter's name tells.
pub fn parse_xray_stat_name(name: &str) -> (r: Option<(String, String)>)
    ensures
        match r {
            Some((label, direction)) => stat_name(name@) == Some((label@, direction@)),
            None => stat_name(name@) is None,
        },
{
    proof {
        reveal_strlit(">>>");
    }
    let chars = text::chars_of(name);
    let parts = text::split_at_sub(chars.as_slice(), ">>>");
    assert(text::views(parts@).len() == parts@.len());
    if parts.len() != 4 {
        return None;
    }
    assert(text::views(parts@)[0] == parts@[0]@);
    assert(text::views(parts@)[1] == parts@[1]@);
    assert(text::views(parts@)[2] == parts@[2]@);
    assert(text::views(parts@)[3] == parts@[3]@);
    if text::same(parts[0], "user") && text::same(parts[2], "traffic") && (text::same(
        parts[3],
        "uplink",
    ) || text::same(parts[3], "downlink")) {
        Some((text::string_of(parts[1]), text::string_of(parts[3])))
    } else {
        None
    }
}

/// What an account used.
#[derive(Debug, PartialEq, Eq)]
pub struct UsageCounter {
    pub label: String,
    pub uplink_bytes: u64,
    pub downlink_bytes: u64,
}

/// What an account used, by its characters.
pub struct CounterView {
    pub label: Seq<char>,
    pub uplink_bytes: u64,
    pub downlink_bytes: u64,
}

impl View for UsageCounter {
    type V = CounterView;

    open spec fn view(&self) -> CounterView {
        CounterView {
            label: self.label@,
            uplink_bytes: self.uplink_bytes,
            downlink_bytes: self.downlink_bytes,
        }
    }
}

pub open spec fn counter_views(counters: Seq<UsageCounter>) -> Seq<CounterView> {
    Seq::new(counters.len(), |i: int| counters[i]@)
}

/// What was counted of an account so far; nothing where it was not named yet.
pub open spec fn so_far(counts: Map<Seq<char>, (u64, u64)>, label: Seq<char>) -> (u64, u64) {
    if counts.dom().contains(label) {
        counts[label]
    } else {
        (0, 0)
    }
}

/// What counters say of accounts, upwards and downwards. A counter below zero is no
/// amount, and one of another kind is none of this; of two for one direction the later
/// stands.
pub open spec fn usage_of(stats: Seq<XrayStat>) -> Map<Seq<char>, (u64, u64)>
    decreases stats.len(),
{
    if stats.len() == 0 {
        Map::empty()
    } else {
        let before = usage_of(stats.drop_last());
        let stat = stats.last();
        match stat_name(stat.name@) {
            Some((label, direction)) => if stat.value < 0 {
                before
            } else if direction == "uplink"@ {
                before.insert(label, (stat.value as u64, so_far(before, label).1))
            } else {
                before.insert(label, (so_far(before, label).0, stat.value as u64))
            },
            None => before,
        }
    }
}

/// Whether counters are those of a map, in the order of their labels.
pub open spec fn lists(counters: Seq<CounterView>, counts: Map<Seq<char>, (u64, u64)>) -> bool {
    &&& forall|i: int, j: int|
        0 <= i < j < counters.len() ==> order::before(
            (#[trigger] counters[i]).label,
            (#[trigger] counters[j]).label,
        )
    &&& forall|i: int|
        0 <= i < counters.len() ==> counts.dom().contains((#[trigger] counters[i]).label)
            && counts[counters[i].label] == (counters[i].uplink_bytes, counters[i].downlink_bytes)
    &&& forall|label: Seq<char>| #[trigger]
        counts.dom().contains(label) ==> exists|i: int|
            0 <= i < counters.len() && (#[trigger] counters[i]).label == label
}

/// What accounts used, in the order of their labels.
pub fn usage_counters_from_stats(stats: &Vec<XrayStat>) -> (r: Vec<UsageCounter>)
    ensures
        lists(counter_views(r@), usage_of(stats@)),
        forall|i: int|
            0 <= i < r@.len() ==> last_counted(
                stats@,
                (#[trigger] r@[i]).label@,
                "uplink"@,
                r@[i].uplink_bytes,
            ) && last_counted(stats@, r@[i].label@, "downlink"@, r@[i].downlink_bytes),
        forall|k: int, label: Seq<char>|
            0 <= k < stats@.len() && (counted(stats@[k], label, "uplink"@) || counted(
                stats@[k],
                label,
                "downlink"@,
            )) ==> exists|i: int| 0 <= i < r@.len() && (#[trigger] r@[i]).label@ == label,
{
    let mut counts: TextMap<(u64, u64)> = TextMap::new();
    let mut i: usize = 0;
    assert(counts@ == usage_of(stats@.take(0)));
    while i < stats.len()
        invariant
            i <= stats@.len(),
            counts.wf(),
            counts@ == usage_of(stats@.take(i as int)),
        decreases stats.len() - i,
    {
        assert(stats@.take(i + 1).drop_last() == stats@.take(i as int));
        assert(stats@.take(i + 1).last() == stats@[i as int]);
        proof {
            reveal_strlit("uplink");
            reveal_strlit("downlink");
        }
        let stat = &stats[i];
        if stat.value >= 0 {
            let value: u64 = stat.value as u64;
            if let Some((label, direction)) = parse_xray_stat_name(stat.name.as_str()) {
                let (up, down): (u64, u64) = match counts.get(label.as_str()) {
                    Some(held) => (held.0, held.1),
                    None => (0, 0),
                };
                if text::same_str(direction.as_str(), "uplink") {
                    counts.insert(label, (value, down));
                } else {
                    counts.insert(label, (up, value));
                }
            }
        }
        i = i + 1;
    }
    assert(stats@.take(i as int) == stats@);
    let mut out: Vec<UsageCounter> = Vec::new();
    let mut k: usize = 0;
    while k < counts.entries.len()
        invariant
            k <= counts.entries@.len(),
            counts.wf(),
            counts@ == usage_of(stats@),
            out@.len() == k,
            forall|m: int|
                0 <= m < k ==> (#[trigger] out@[m])@ == (CounterView {
                    label: counts.entries@[m].0@,
                    uplink_bytes: counts.entries@[m].1.0,
                    downlink_bytes: counts.entries@[m].1.1,
                }),
        decreases counts.entries.len() - k,
    {
        out.push(
            UsageCounter {
                label: counts.entries[k].0.as_str().to_owned(),
                uplink_bytes: counts.entries[k].1.0,
                downlink_bytes: counts.entries[k].1.1,
            },
        );
        k = k + 1;
    }
    proof {
        let views = counter_views(out@);
        assert(views.len() == out@.len());
        assert forall|a: int, b: int| 0 <= a < b < views.len() implies order::before(
            (#[trigger] views[a]).label,
            (#[trigger] views[b]).label,
        ) by {
            assert(views[a] == out@[a]@ && views[b] == out@[b]@);
            assert(order::before(counts.entries@[a].0@, counts.entries@[b].0@));
        }
        assert forall|a: int| 0 <= a < views.len() implies counts@.dom().contains(
            (#[trigger] views[a]).label,
        ) && counts@[views[a].label] == (views[a].uplink_bytes, views[a].downlink_bytes) by {
            assert(views[a] == out@[a]@);
            counts.lemma_entry(a);
        }
        assert forall|label: Seq<char>| #[trigger] counts@.dom().contains(label) implies exists|
            a: int,
        | 0 <= a < views.len() && (#[trigger] views[a]).label == label by {
            assert(order::has_key(counts.entries@, label));
            let a = order::key_position(counts.entries@, label);
            assert(views[a] == out@[a]@);
            assert(views[a].label == label);
        }
        assert forall|a: int| 0 <= a < out@.len() implies last_counted(
            stats@,
            (#[trigger] out@[a]).label@,
            "uplink"@,
            out@[a].uplink_bytes,
        ) && last_counted(stats@, out@[a].label@, "downlink"@, out@[a].downlink_bytes) by {
            assert(views[a] == out@[a]@);
            lemma_usage_is_what_was_counted_last(stats@, out@[a].label@);
        }
        assert forall|a: int, label: Seq<char>|
            0 <= a < stats@.len() && (counted(stats@[a], label, "uplink"@) || counted(
                stats@[a],
                label,
                "downlink"@,
            )) implies exists|i: int|
            0 <= i < out@.len() && (#[trigger] out@[i]).label@ == label by {
            lemma_usage_is_what_was_counted_last(stats@, label);
            let i = choose|i: int| 0 <= i < views.len() && (#[trigger] views[i]).label == label;
            assert(out@[i].label@ == label);
        }
    }
    out
}

/// A counter below zero changes nothing.
pub proof fn lemma_negative_counter_is_not_billed(stats: Seq<XrayStat>, stat: XrayStat)
    requires
        stat.value < 0,
    ensures
        usage_of(stats.push(stat)) == usage_of(stats),
{
    assert(stats.push(stat).drop_last() == stats);
}

/// Whether a counter is an account's own for a direction and gives an amount: it is named
/// `user>>>`, the account, `>>>traffic>>>` and the direction, and is not below zero.
pub open spec fn counted(stat: XrayStat, label: Seq<char>, direction: Seq<char>) -> bool {
    &&& stat.value >= 0
    &&& stat.name@ == "user>>>"@ + label + ">>>traffic>>>"@ + direction
    &&& text::ends_at_first(label, ">>>"@)
}

/// Whether an amount is that of the last counter that is an account's own for a
/// direction, or nothing where there is none.
pub open spec fn last_counted(
    stats: Seq<XrayStat>,
    label: Seq<char>,
    direction: Seq<char>,
    amount: u64,
) -> bool {
    ||| exists|k: int|
        0 <= k < stats.len() && #[trigger] counted(stats[k], label, direction) && stats[k].value
            == amount && (forall|j: int|
            k < j < stats.len() ==> !#[trigger] counted(stats[j], label, direction))
    ||| amount == 0 && (forall|j: int|
        0 <= j < stats.len() ==> !#[trigger] counted(stats[j], label, direction))
}

/// Whether an account has a counter of its own for a direction.
pub open spec fn has_counter(stats: Seq<XrayStat>, label: Seq<char>, direction: Seq<char>) -> bool {
    exists|k: int| 0 <= k < stats.len() && #[trigger] counted(stats[k], label, direction)
}

/// A name tells an account and a direction exactly where it is `user>>>`, the account,
/// `>>>traffic>>>` and one of the two directions, and the account holds no separator.
pub proof fn lemma_stat_name_spells_account(
    name: Seq<char>,
    label: Seq<char>,
    direction: Seq<char>,
)
    ensures
        stat_name(name) == Some((label, direction)) <==> name == "user>>>"@ + label
            + ">>>traffic>>>"@ + direction && text::ends_at_first(label, ">>>"@) && (direction
            == "uplink"@ || direction == "downlink"@),
{
    let sep = ">>>"@;
    reveal_strlit(">>>");
    reveal_strlit("user>>>");
    reveal_strlit("user");
    reveal_strlit("traffic");
    reveal_strlit(">>>traffic>>>");
    reveal_strlit("uplink");
    reveal_strlit("downlink");
    assert("user>>>"@ == "user"@ + sep);
    assert(">>>traffic>>>"@ == sep + "traffic"@ + sep);
    if stat_name(name) == Some((label, direction)) {
        let parts = text::split_sub(name, sep);
        let behind_user = text::lemma_split_off(name, sep);
        assert(text::split_sub(behind_user, sep)[0] == parts[1]);
        let behind_label = text::lemma_split_off(behind_user, sep);
        assert(text::split_sub(behind_label, sep)[0] == parts[2]);
        let behind_kind = text::lemma_split_off(behind_label, sep);
        assert(text::split_sub(behind_kind, sep)[0] == parts[3]);
        text::lemma_split_whole(behind_kind, sep);
        assert(name == "user>>>"@ + label + ">>>traffic>>>"@ + direction);
    }
    if name == "user>>>"@ + label + ">>>traffic>>>"@ + direction && text::ends_at_first(
        label,
        sep,
    ) && (direction == "uplink"@ || direction == "downlink"@) {
        assert forall|j: int| !#[trigger] text::stands_at(direction, sep, j) by {
            if text::stands_at(direction, sep, j) {
                assert(direction.subrange(j, j + 3)[0] == direction[j]);
            }
        }
        text::lemma_split_whole(direction, sep);
        let behind_label = "traffic"@ + sep + direction;
        let behind_user = label + sep + behind_label;
        assert forall|j: int| 0 <= j < "traffic"@.len() implies !#[trigger] text::stands_at(
            "traffic"@ + sep,
            sep,
            j,
        ) by {
            assert(("traffic"@ + sep).subrange(j, j + 3)[0] == "traffic"@[j]);
        }
        assert forall|j: int| 0 <= j < "user"@.len() implies !#[trigger] text::stands_at(
            "user"@ + sep,
            sep,
            j,
        ) by {
            assert(("user"@ + sep).subrange(j, j + 3)[0] == "user"@[j]);
        }
        text::lemma_split_first("traffic"@, sep, direction);
        text::lemma_split_first(label, sep, behind_label);
        text::lemma_split_first("user"@, sep, behind_user);
        assert(name == "user"@ + sep + behind_user);
        assert(text::split_sub(name, sep) == seq!["user"@, label, "traffic"@, direction]);
    }
}

proof fn lemma_one_more_counter(
    stats: Seq<XrayStat>,
    label: Seq<char>,
    direction: Seq<char>,
    amount: u64,
)
    requires
        stats.len() > 0,
        last_counted(stats.drop_last(), label, direction, amount),
    ensures
        has_counter(stats, label, direction) <==> has_counter(stats.drop_last(), label, direction)
            || counted(stats.last(), label, direction),
        counted(stats.last(), label, direction) ==> last_counted(
            stats,
            label,
            direction,
            stats.last().value as u64,
        ),
        !counted(stats.last(), label, direction) ==> last_counted(stats, label, direction, amount),
{
    let front = stats.drop_last();
    let last = stats.len() - 1;
    assert(stats.last() == stats[last]);
    assert forall|i: int| 0 <= i < last implies front[i] == stats[i] by {}
    if has_counter(front, label, direction) {
        let k = choose|k: int|
            0 <= k < front.len() && #[trigger] counted(front[k], label, direction);
        assert(counted(stats[k], label, direction));
    }
    if has_counter(stats, label, direction) && !counted(stats[last], label, direction) {
        let k = choose|k: int|
            0 <= k < stats.len() && #[trigger] counted(stats[k], label, direction);
        assert(counted(front[k], label, direction));
    }
    if !counted(stats[last], label, direction) {
        assert forall|j: int| 0 <= j < stats.len() implies #[trigger] counted(
            stats[j],
            label,
            direction,
        ) == (j < last && counted(front[j], label, direction)) by {}
        if exists|k: int|
            0 <= k < front.len() && #[trigger] counted(front[k], label, direction)
                && front[k].value == amount && (forall|j: int|
                k < j < front.len() ==> !#[trigger] counted(front[j], label, direction)) {
            let k = choose|k: int|
                0 <= k < front.len() && #[trigger] counted(front[k], label, direction)
                    && front[k].value == amount && (forall|j: int|
                    k < j < front.len() ==> !#[trigger] counted(front[j], label, direction));
            assert(counted(stats[k], label, direction));
        }
    }
}

/// An account's upward and downward amounts are each those of the last counter that is
/// its own for that direction, or nothing where there is none, whatever stands for the
/// other direction; and an account is told of exactly where it has a counter.
pub proof fn lemma_usage_is_what_was_counted_last(stats: Seq<XrayStat>, label: Seq<char>)
    ensures
        usage_of(stats).dom().contains(label) <==> has_counter(stats, label, "uplink"@)
            || has_counter(stats, label, "downlink"@),
        last_counted(stats, label, "uplink"@, so_far(usage_of(stats), label).0),
        last_counted(stats, label, "downlink"@, so_far(usage_of(stats), label).1),
    decreases stats.len(),
{
    if stats.len() > 0 {
        let front = stats.drop_last();
        let stat = stats.last();
        lemma_usage_is_what_was_counted_last(front, label);
        lemma_stat_name_spells_account(stat.name@, label, "uplink"@);
        lemma_stat_name_spells_account(stat.name@, label, "downlink"@);
        reveal_strlit("uplink");
        reveal_strlit("downlink");
        assert("uplink"@.len() != "downlink"@.len());
        lemma_one_more_counter(stats, label, "uplink"@, so_far(usage_of(front), label).0);
        lemma_one_more_counter(stats, label, "downlink"@, so_far(usage_of(front), label).1);
    }
}

proof fn lemma_same_amount(
    s: Seq<XrayStat>,
    t: Seq<XrayStat>,
    label: Seq<char>,
    direction: Seq<char>,
    in_s: u64,
    in_t: u64,
)
    requires
        forall|x: XrayStat| s.contains(x) <==> t.contains(x),
        forall|i: int, j: int|
            0 <= i < j < s.len() ==> (#[trigger] s[i]).name@ != (#[trigger] s[j]).name@,
        last_counted(s, label, direction, in_s),
        last_counted(t, label, direction, in_t),
    ensures
        in_s == in_t,
        has_counter(s, label, direction) == has_counter(t, label, direction),
{
    if has_counter(s, label, direction) {
        let k = choose|k: int| 0 <= k < s.len() && #[trigger] counted(s[k], label, direction);
        assert(s.contains(s[k]));
        assert(t.contains(s[k]));
        let m = choose|m: int| 0 <= m < t.len() && t[m] == s[k];
        assert(counted(t[m], label, direction));
    }
    if has_counter(t, label, direction) {
        let k = choose|k: int|
            0 <= k < t.len() && #[trigger] counted(t[k], label, direction) && t[k].value == in_t;
        assert(t.contains(t[k]));
        assert(s.contains(t[k]));
        let m = choose|m: int| 0 <= m < s.len() && s[m] == t[k];
        assert(counted(s[m], label, direction));
        let n = choose|n: int|
            0 <= n < s.len() && #[trigger] counted(s[n], label, direction) && s[n].value == in_s;
        assert(s[m].name@ == s[n].name@);
    }
}

/// Counters of different names may change places without changing what is told.
pub proof fn lemma_order_of_counters_does_not_matter(s: Seq<XrayStat>, t: Seq<XrayStat>)
    requires
        s.to_multiset() == t.to_multiset(),
        forall|i: int, j: int|
            0 <= i < j < s.len() ==> (#[trigger] s[i]).name@ != (#[trigger] s[j]).name@,
    ensures
        usage_of(s) == usage_of(t),
{
    s.to_multiset_ensures();
    t.to_multiset_ensures();
    assert forall|x: XrayStat| s.contains(x) <==> t.contains(x) by {
        assert(s.contains(x) <==> s.to_multiset().count(x) > 0);
        assert(t.contains(x) <==> t.to_multiset().count(x) > 0);
    }
    let in_s = usage_of(s);
    let in_t = usage_of(t);
    assert forall|label: Seq<char>| #[trigger]
        in_s.dom().contains(label) == in_t.dom().contains(label) && so_far(in_s, label) == so_far(
            in_t,
            label,
        ) by {
        lemma_usage_is_what_was_counted_last(s, label);
        lemma_usage_is_what_was_counted_last(t, label);
        lemma_same_amount(s, t, label, "uplink"@, so_far(in_s, label).0, so_far(in_t, label).0);
        lemma_same_amount(s, t, label, "downlink"@, so_far(in_s, label).1, so_far(in_t, label).1);
    }
    assert(in_s =~= in_t);
}

/// What a round of accounting comes to, from the reading and from the sending of what
/// was read before: neither failure hides the other.
pub fn usage_cycle(sampled: Result<(), String>, drained: Result<(), String>) -> (r: Result<
    (),
    String,
>)
    ensures
        match (sampled, drained) {
            (Ok(()), Ok(())) => r is Ok,
            (Ok(()), Err(drain)) => r matches Err(e) && e@ == drain@,
            (Err(sample), Ok(())) => r matches Err(e) && e@ == sample@,
            (Err(sample), Err(drain)) => r matches Err(e) && e@ == "本轮 usage 采集失败："@ + sample@
                + "；历史 usage spool 发送也失败："@ + drain@,
        },
{
    match (sampled, drained) {
        (Ok(()), Ok(())) => Ok(()),
        (Ok(()), Err(drain)) => Err(drain),
        (Err(sample), Ok(())) => Err(sample),
        (Err(sample), Err(drain)) => {
            let mut out = "本轮 usage 采集失败：".to_owned();
            out.append(sample.as_str());
            out.append("；历史 usage spool 发送也失败：");
            out.append(drain.as_str());
            Err(out)
        },
    }
}

/// Whether there is a proxy whose counters are read.
pub fn collect_usage_report(xray_json: bool, xray_disabled: bool) -> (r: bool)
    ensures
        r == (xray_json && !xray_disabled),
{
    xray_json && !xray_disabled
}

/// What is written of a generation reads back as it.
pub proof fn lemma_generation_reads_back(generation_id: i64)
    ensures
        numbers::parse_signed(
            text::trim(numbers::signed_decimal(generation_id as int)),
            i64::MIN as int,
            i64::MAX as int,
        ) == Ok::<int, numbers::NumberError>(generation_id as int),
{
    let n = generation_id as int;
    let spelled = numbers::signed_decimal(n);
    numbers::lemma_parse_signed_decimal(n, i64::MIN as int, i64::MAX as int);
    reveal_strlit("-");
    if n < 0 {
        numbers::lemma_decimal_digits(-n);
        let digits = numbers::decimal(-n);
        assert(spelled.last() == digits[digits.len() - 1]);
    } else {
        numbers::lemma_decimal_digits(n);
        assert(spelled.last() == spelled[spelled.len() - 1]);
    }
    text::lemma_trim_of_trimmed(spelled);
}

} // verus!
