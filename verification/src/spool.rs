//! What is kept for the control plane until it has taken it.
use vstd::prelude::*;
use vstd::string::*;

use crate::text;

verus! {

/// Where usage is kept.
pub const USAGE_SPOOL_FILE: &'static str = "usage.spool.jsonl";

/// Where the results of rounds are kept.
pub const OBSERVATION_SPOOL_FILE: &'static str = "observation.spool.jsonl";

/// What is kept once one more entry is added: the newest entries, in their order.
pub open spec fn pushed<T>(kept: Seq<T>, entry: T, max: int) -> Seq<T> {
    let all = kept.push(entry);
    if all.len() > max {
        all.skip(all.len() - max)
    } else {
        all
    }
}

/// Adds an entry. Over the limit the oldest go: dropping the newest would leave what is
/// kept in the past.
pub fn spool_push(kept: &mut Vec<String>, entry: String, max: usize)
    requires
        old(kept)@.len() < usize::MAX,
    ensures
        final(kept)@ == pushed(old(kept)@, entry, max as int),
{
    let ghost before = kept@;
    kept.push(entry);
    let ghost all = kept@;
    assert(all == before.push(entry));
    let ghost mut gone: int = 0;
    assert(all.skip(0) == all);
    while kept.len() > max
        invariant
            0 <= gone <= all.len(),
            kept@ == all.skip(gone),
            gone > 0 ==> kept@.len() >= max,
        decreases kept.len(),
    {
        let ghost now = kept@;
        kept.remove(0);
        assert(kept@ == all.skip(gone + 1)) by {
            assert(kept@ =~= now.remove(0));
            assert(now.remove(0) =~= all.skip(gone + 1));
        }
        proof {
            gone = gone + 1;
        }
    }
    proof {
        if gone > 0 {
            assert(gone == all.len() - max);
        }
    }
}

/// Whatever was kept, an entry that is added is kept, as the newest, and no more than
/// the limit are.
pub proof fn lemma_newest_entry_is_kept<T>(kept: Seq<T>, entry: T, max: int)
    requires
        max > 0,
    ensures
        pushed(kept, entry, max).len() <= max,
        pushed(kept, entry, max).len() > 0,
        pushed(kept, entry, max).last() == entry,
        forall|i: int|
            0 <= i < pushed(kept, entry, max).len() - 1 ==> (#[trigger] pushed(
                kept,
                entry,
                max,
            )[i]) == kept[i + kept.len() + 1 - pushed(kept, entry, max).len()],
{
}

/// What becomes of the oldest entry once it was sent.
#[derive(Debug, Clone, Copy, PartialEq, Eq, Structural)]
pub enum Delivery {
    /// It was taken, and is kept no longer.
    Taken,
    /// It can never be taken, and is kept no longer: it would hold up all behind it.
    Refused,
    /// It is sent again later, and nothing behind it before it.
    Later,
}

/// What becomes of the oldest entry, from the status of the answer and those with which
/// the control plane says that it will never take it.
pub fn after_delivery(status: u16, terminal: &Vec<u16>) -> (r: Delivery)
    ensures
        r == (if 200 <= status < 300 {
            Delivery::Taken
        } else if terminal@.contains(status) {
            Delivery::Refused
        } else {
            Delivery::Later
        }),
{
    if status >= 200 && status < 300 {
        return Delivery::Taken;
    }
    let mut i: usize = 0;
    while i < terminal.len()
        invariant
            i <= terminal@.len(),
            forall|k: int| 0 <= k < i ==> terminal@[k] != status,
            !(200 <= status < 300),
        decreases terminal.len() - i,
    {
        if terminal[i] == status {
            assert(terminal@[i as int] == status);
            return Delivery::Refused;
        }
        i = i + 1;
    }
    Delivery::Later
}

/// The entries that a file holds, one to a line.
pub fn spool_read(content: &str) -> (r: Vec<String>)
    ensures
        text::string_views(r@) == filled(text::lines(content@)),
{
    let chars = text::chars_of(content);
    let lines = text::split_lines(chars.as_slice());
    let ghost all = text::lines(content@);
    assert(text::views(lines@).len() == lines@.len());
    let mut out: Vec<String> = Vec::new();
    let mut i: usize = 0;
    assert(text::string_views(out@) == filled(all.take(0)));
    while i < lines.len()
        invariant
            i <= lines@.len(),
            text::views(lines@) == all,
            all.len() == lines@.len(),
            text::string_views(out@) == filled(all.take(i as int)),
        decreases lines.len() - i,
    {
        assert(text::views(lines@)[i as int] == lines@[i as int]@);
        assert(all.take(i + 1).drop_last() == all.take(i as int));
        assert(all.take(i + 1).last() == all[i as int]);
        if text::trimmed(lines[i]).len() > 0 {
            let ghost before = out@;
            out.push(text::string_of(lines[i]));
            assert(text::string_views(out@) == text::string_views(before).push(all[i as int]));
        }
        i = i + 1;
    }
    assert(all.take(i as int) == all);
    out
}

/// The lines that hold something.
pub open spec fn filled(lines: Seq<Seq<char>>) -> Seq<Seq<char>>
    decreases lines.len(),
{
    if lines.len() == 0 {
        seq![]
    } else {
        let front = filled(lines.drop_last());
        if text::trim(lines.last()).len() > 0 {
            front.push(lines.last())
        } else {
            front
        }
    }
}

/// Entries as a file keeps them, one to a line.
pub open spec fn spooled(entries: Seq<Seq<char>>) -> Seq<char>
    decreases entries.len(),
{
    if entries.len() == 0 {
        seq![]
    } else {
        spooled(entries.drop_last()) + entries.last() + "\n"@
    }
}

/// Entries as a file keeps them, one to a line.
pub fn spool_write(entries: &Vec<String>) -> (r: String)
    ensures
        r@ == spooled(text::string_views(entries@)),
{
    let ghost all = text::string_views(entries@);
    assert(all.len() == entries@.len());
    let mut out = String::new();
    let mut i: usize = 0;
    assert(out@ =~= spooled(all.take(0)));
    while i < entries.len()
        invariant
            i <= entries@.len(),
            all == text::string_views(entries@),
            all.len() == entries@.len(),
            out@ == spooled(all.take(i as int)),
        decreases entries.len() - i,
    {
        assert(all.take(i + 1).drop_last() == all.take(i as int));
        assert(all.take(i + 1).last() == entries@[i as int]@);
        out.append(entries[i].as_str());
        out.append("\n");
        i = i + 1;
    }
    assert(all.take(i as int) == all);
    out
}

/// What is kept is read back, entry by entry: where each is one line that holds something
/// and does not end in a carriage return.
pub proof fn lemma_kept_entries_are_read_back(entries: Seq<Seq<char>>)
    requires
        forall|i: int|
            0 <= i < entries.len() ==> !(#[trigger] entries[i]).contains('\n') && text::trim(
                entries[i],
            ).len() > 0 && entries[i].last() != '\r',
    ensures
        filled(text::lines(spooled(entries))) == entries,
    decreases entries.len(),
{
    reveal_strlit("\n");
    if entries.len() > 0 {
        let front = entries.drop_last();
        let last = entries.last();
        assert(last == entries[entries.len() - 1]);
        assert forall|i: int| 0 <= i < front.len() implies !(#[trigger] front[i]).contains('\n')
            && text::trim(front[i]).len() > 0 && front[i].last() != '\r' by {
            assert(front[i] == entries[i]);
        }
        lemma_kept_entries_are_read_back(front);
        text::lemma_one_more_line(spooled(front), last);
        let lines = text::lines(spooled(front));
        assert(text::without_cr(last) == last);
        assert(lines.push(last).drop_last() == lines);
        assert(filled(lines.push(last)) == filled(lines).push(last));
        assert(front.push(last) == entries);
    } else {
        assert(text::lines(spooled(entries)) =~= seq![]);
        assert(filled(text::lines(spooled(entries))) =~= entries);
    }
}

} // verus!
