//! Character sequences: the splitting, trimming and searching that every
//! parser in this crate is built from.
//!
//! Specifications speak of `Seq<char>`; the functions work on `&[char]`, which
//! [`chars_of`] makes from a `&str`.
use vstd::prelude::*;
use vstd::slice::slice_subrange;
use vstd::string::*;

verus! {

broadcast use vstd::string::group_string_axioms;

/// Appends one character (`String::push`).
pub assume_specification[ String::push ](s: &mut String, c: char)
    ensures
        final(s)@ == old(s)@.push(c),
;

/// The characters of `s`, in order.
pub fn chars_of(s: &str) -> (out: Vec<char>)
    ensures
        out@ == s@,
{
    let mut out: Vec<char> = Vec::new();
    for c in it: s.chars()
        invariant
            out@ == it.seq().take(it.index() as int),
    {
        out.push(c);
        assert(it.seq().take(it.index() + 1) == it.seq().take(it.index() as int).push(c));
    }
    assert(out@ == s@);
    out
}

/// A string of the characters of `s`.
pub fn string_of(s: &[char]) -> (out: String)
    ensures
        out@ == s@,
{
    let mut out = String::new();
    let mut i: usize = 0;
    while i < s.len()
        invariant
            i <= s.len(),
            out@ == s@.take(i as int),
        decreases s.len() - i,
    {
        out.push(s[i]);
        assert(s@.take(i as int).push(s@[i as int]) == s@.take(i + 1));
        i = i + 1;
    }
    assert(s@.take(i as int) == s@);
    out
}


/// Unicode's `White_Space` property, as `char::is_whitespace` has it.
pub open spec fn is_space(c: char) -> bool {
    let n = c as u32;
    ||| 0x09 <= n <= 0x0d
    ||| n == 0x20
    ||| n == 0x85
    ||| n == 0xa0
    ||| n == 0x1680
    ||| 0x2000 <= n <= 0x200a
    ||| n == 0x2028
    ||| n == 0x2029
    ||| n == 0x202f
    ||| n == 0x205f
    ||| n == 0x3000
}

/// `s` without its leading whitespace.
pub open spec fn trim_start(s: Seq<char>) -> Seq<char>
    decreases s.len(),
{
    if s.len() > 0 && is_space(s[0]) {
        trim_start(s.skip(1))
    } else {
        s
    }
}

/// `s` without its trailing whitespace.
pub open spec fn trim_end(s: Seq<char>) -> Seq<char>
    decreases s.len(),
{
    if s.len() > 0 && is_space(s.last()) {
        trim_end(s.drop_last())
    } else {
        s
    }
}

/// `s` without whitespace at either end.
pub open spec fn trim(s: Seq<char>) -> Seq<char> {
    trim_end(trim_start(s))
}

/// The first position at or after `from` that holds `c`.
pub open spec fn find_char(s: Seq<char>, c: char, from: int) -> Option<int>
    decreases s.len() - from,
{
    if from < 0 || from >= s.len() {
        None
    } else if s[from] == c {
        Some(from)
    } else {
        find_char(s, c, from + 1)
    }
}

/// The last position before `to` that holds `c`.
pub open spec fn rfind_char(s: Seq<char>, c: char, to: int) -> Option<int>
    decreases to,
{
    if to <= 0 || to > s.len() {
        None
    } else if s[to - 1] == c {
        Some(to - 1)
    } else {
        rfind_char(s, c, to - 1)
    }
}

/// Whether `pat` stands in `s` at position `at`.
pub open spec fn stands_at(s: Seq<char>, pat: Seq<char>, at: int) -> bool {
    0 <= at && at + pat.len() <= s.len() && s.subrange(at, at + pat.len()) == pat
}

/// The first position at or after `from` where `pat` stands in `s`.
pub open spec fn find_sub(s: Seq<char>, pat: Seq<char>, from: int) -> Option<int>
    decreases s.len() + 1 - from,
{
    if from < 0 || from > s.len() {
        None
    } else if stands_at(s, pat, from) {
        Some(from)
    } else {
        find_sub(s, pat, from + 1)
    }
}

/// The last position at or before `at` where `pat` stands in `s`.
pub open spec fn rfind_sub(s: Seq<char>, pat: Seq<char>, at: int) -> Option<int>
    decreases at + 1,
{
    if at < 0 {
        None
    } else if stands_at(s, pat, at) {
        Some(at)
    } else {
        rfind_sub(s, pat, at - 1)
    }
}

/// Whether `pat` stands anywhere in `s`.
pub open spec fn contains_sub(s: Seq<char>, pat: Seq<char>) -> bool {
    find_sub(s, pat, 0) is Some
}

/// Whether `s` begins with `pat`.
pub open spec fn starts_with(s: Seq<char>, pat: Seq<char>) -> bool {
    stands_at(s, pat, 0)
}

/// Whether `s` ends with `pat`.
pub open spec fn ends_with(s: Seq<char>, pat: Seq<char>) -> bool {
    stands_at(s, pat, s.len() - pat.len())
}

/// What follows `pat` in `s`, where `s` begins with it.
pub open spec fn strip_prefix(s: Seq<char>, pat: Seq<char>) -> Option<Seq<char>> {
    if starts_with(s, pat) {
        Some(s.skip(pat.len() as int))
    } else {
        None
    }
}

/// What precedes `pat` in `s`, where `s` ends with it.
pub open spec fn strip_suffix(s: Seq<char>, pat: Seq<char>) -> Option<Seq<char>> {
    if ends_with(s, pat) {
        Some(s.take(s.len() - pat.len()))
    } else {
        None
    }
}

/// `s` cut at the first `c`.
pub open spec fn split_once(s: Seq<char>, c: char) -> Option<(Seq<char>, Seq<char>)> {
    match find_char(s, c, 0) {
        Some(k) => Some((s.take(k), s.skip(k + 1))),
        None => None,
    }
}

/// `s` cut around the first `pat`.
pub open spec fn split_once_sub(s: Seq<char>, pat: Seq<char>) -> Option<(Seq<char>, Seq<char>)> {
    match find_sub(s, pat, 0) {
        Some(k) => Some((s.take(k), s.skip((k + pat.len()) as int))),
        None => None,
    }
}

/// `s` cut at the last `c`.
pub open spec fn rsplit_once(s: Seq<char>, c: char) -> Option<(Seq<char>, Seq<char>)> {
    match rfind_char(s, c, s.len() as int) {
        Some(k) => Some((s.take(k), s.skip(k + 1))),
        None => None,
    }
}

/// The pieces of `s` between occurrences of `c`; one more than there are of them.
pub open spec fn split_char(s: Seq<char>, c: char) -> Seq<Seq<char>>
    decreases s.len(),
{
    match find_char(s, c, 0) {
        Some(k) => if 0 <= k < s.len() {
            seq![s.take(k)] + split_char(s.skip(k + 1), c)
        } else {
            seq![s]
        },
        None => seq![s],
    }
}

/// The pieces of `s` between non-overlapping occurrences of `pat`.
pub open spec fn split_sub(s: Seq<char>, pat: Seq<char>) -> Seq<Seq<char>>
    decreases s.len(),
{
    match find_sub(s, pat, 0) {
        Some(k) => if pat.len() > 0 && 0 <= k && k + pat.len() <= s.len() {
            seq![s.take(k)] + split_sub(s.skip((k + pat.len()) as int), pat)
        } else {
            seq![s]
        },
        None => seq![s],
    }
}

/// The first position at or after `from` that is whitespace, or the length.
pub open spec fn word_end(s: Seq<char>, from: int) -> int
    decreases s.len() - from,
{
    if from < 0 || from >= s.len() || is_space(s[from]) {
        from
    } else {
        word_end(s, from + 1)
    }
}

/// The maximal runs of non-whitespace in `s`.
pub open spec fn words(s: Seq<char>) -> Seq<Seq<char>>
    decreases s.len(),
{
    let t = trim_start(s);
    let k = word_end(t, 0);
    if t.len() > 0 && 0 < k && k <= t.len() && t.len() <= s.len() {
        seq![t.take(k)] + words(t.skip(k))
    } else {
        seq![]
    }
}

/// `s` without one trailing carriage return.
pub open spec fn without_cr(s: Seq<char>) -> Seq<char> {
    if s.len() > 0 && s.last() == '\r' {
        s.drop_last()
    } else {
        s
    }
}

/// The lines of `s`. A line ends with a line feed, or a carriage return and a
/// line feed; the last one may lack its ending.
pub open spec fn lines(s: Seq<char>) -> Seq<Seq<char>>
    decreases s.len(),
{
    if s.len() == 0 {
        seq![]
    } else {
        match find_char(s, '\n', 0) {
            Some(k) => if 0 <= k < s.len() {
                seq![without_cr(s.take(k))] + lines(s.skip(k + 1))
            } else {
                seq![s]
            },
            None => seq![s],
        }
    }
}

/// `c` in lower case, where it is an ASCII letter.
pub open spec fn lower_char(c: char) -> char {
    if 'A' <= c <= 'Z' {
        (c as u32 + 32) as char
    } else {
        c
    }
}

/// `s` with its ASCII letters in lower case.
pub open spec fn lower(s: Seq<char>) -> Seq<char> {
    Seq::new(s.len(), |i: int| lower_char(s[i]))
}

/// The parts one after the other, with `sep` between neighbours.
pub open spec fn join(parts: Seq<Seq<char>>, sep: Seq<char>) -> Seq<char>
    decreases parts.len(),
{
    if parts.len() == 0 {
        seq![]
    } else if parts.len() == 1 {
        parts[0]
    } else {
        join(parts.drop_last(), sep) + sep + parts.last()
    }
}

/// `s` with every `from` replaced by `to`.
pub open spec fn replace_char(s: Seq<char>, from: char, to: Seq<char>) -> Seq<char>
    decreases s.len(),
{
    if s.len() == 0 {
        seq![]
    } else {
        replace_char(s.drop_last(), from, to) + (if s.last() == from {
            to
        } else {
            seq![s.last()]
        })
    }
}

/// The contents of each piece.
pub open spec fn views(pieces: Seq<&[char]>) -> Seq<Seq<char>> {
    pieces.map_values(|p: &[char]| p@)
}

/// The contents of each string.
pub open spec fn string_views(parts: Seq<String>) -> Seq<Seq<char>> {
    parts.map_values(|p: String| p@)
}

pub proof fn lemma_find_char(s: Seq<char>, c: char, from: int)
    requires
        0 <= from,
    ensures
        match find_char(s, c, from) {
            Some(k) => from <= k < s.len() && s[k] == c && forall|j: int|
                from <= j < k ==> s[j] != c,
            None => forall|j: int| from <= j < s.len() ==> s[j] != c,
        },
    decreases s.len() - from,
{
    if from < s.len() && s[from] != c {
        lemma_find_char(s, c, from + 1);
    }
}

pub proof fn lemma_find_char_at(s: Seq<char>, c: char, from: int, k: int)
    requires
        0 <= from <= k < s.len(),
        s[k] == c,
        forall|j: int| from <= j < k ==> s[j] != c,
    ensures
        find_char(s, c, from) == Some(k),
    decreases k - from,
{
    if from < k {
        lemma_find_char_at(s, c, from + 1, k);
    }
}

pub proof fn lemma_rfind_char(s: Seq<char>, c: char, to: int)
    requires
        to <= s.len(),
    ensures
        match rfind_char(s, c, to) {
            Some(k) => 0 <= k < to && s[k] == c && forall|j: int| k < j < to ==> s[j] != c,
            None => forall|j: int| 0 <= j < to ==> s[j] != c,
        },
    decreases to,
{
    if to > 0 && s[to - 1] != c {
        lemma_rfind_char(s, c, to - 1);
    }
}

pub proof fn lemma_find_sub(s: Seq<char>, pat: Seq<char>, from: int)
    requires
        0 <= from,
    ensures
        match find_sub(s, pat, from) {
            Some(k) => from <= k && stands_at(s, pat, k),
            None => true,
        },
    decreases s.len() + 1 - from,
{
    if from <= s.len() && !stands_at(s, pat, from) {
        lemma_find_sub(s, pat, from + 1);
    }
}

/// Text without whitespace at its ends is left as it is.
pub proof fn lemma_trim_of_trimmed(s: Seq<char>)
    requires
        s.len() > 0,
        !is_space(s[0]),
        !is_space(s.last()),
    ensures
        trim(s) == s,
{
}

/// The pieces between occurrences of a character hold none of it, and joined by it they
/// are the whole again.
pub proof fn lemma_split_char(s: Seq<char>, c: char)
    ensures
        split_char(s, c).len() > 0,
        forall|i: int|
            0 <= i < split_char(s, c).len() ==> !(#[trigger] split_char(s, c)[i]).contains(c),
        join(split_char(s, c), seq![c]) == s,
    decreases s.len(),
{
    lemma_find_char(s, c, 0);
    let pieces = split_char(s, c);
    match find_char(s, c, 0) {
        Some(k) => {
            let rest = s.skip(k + 1);
            let behind = split_char(rest, c);
            lemma_split_char(rest, c);
            let first = s.take(k);
            assert(pieces == seq![first] + behind);
            if first.contains(c) {
                let i = choose|i: int| 0 <= i < first.len() && first[i] == c;
                assert(s[i] == c);
            }
            assert forall|i: int| 0 <= i < pieces.len() implies !(#[trigger] pieces[i]).contains(
                c,
            ) by {
                if i > 0 {
                    assert(pieces[i] == behind[i - 1]);
                }
            }
            lemma_join_first(first, behind, seq![c]);
            assert(first + seq![c] + rest =~= s);
        },
        None => {
            assert(pieces =~= seq![s]);
            if s.contains(c) {
                let i = choose|i: int| 0 <= i < s.len() && s[i] == c;
                assert(s[i] == c);
            }
        },
    }
}

proof fn lemma_join_first(first: Seq<char>, behind: Seq<Seq<char>>, sep: Seq<char>)
    requires
        behind.len() > 0,
    ensures
        join(seq![first] + behind, sep) == first + sep + join(behind, sep),
    decreases behind.len(),
{
    let all = seq![first] + behind;
    if behind.len() == 1 {
        assert(all.drop_last() =~= seq![first]);
        assert(all.last() == behind[0]);
        assert(join(all.drop_last(), sep) == first);
    } else {
        assert(all.drop_last() =~= seq![first] + behind.drop_last());
        assert(all.last() == behind.last());
        lemma_join_first(first, behind.drop_last(), sep);
        let middle = join(behind.drop_last(), sep);
        assert(first + sep + middle + sep + behind.last() =~= first + sep + (middle + sep
            + behind.last()));
    }
}

proof fn lemma_one_more_piece(s: Seq<char>, piece: Seq<char>, c: char)
    requires
        !piece.contains(c),
    ensures
        split_char(s + seq![c] + piece, c) == split_char(s, c).push(piece),
    decreases s.len(),
{
    let whole = s + seq![c] + piece;
    lemma_find_char(s, c, 0);
    match find_char(s, c, 0) {
        Some(k) => {
            assert forall|j: int| 0 <= j < k implies #[trigger] whole[j] != c by {
                assert(whole[j] == s[j]);
            }
            assert(whole[k] == s[k]);
            lemma_find_char_at(whole, c, 0, k);
            let rest = s.skip(k + 1);
            assert(whole.take(k) =~= s.take(k));
            assert(whole.skip(k + 1) =~= rest + seq![c] + piece);
            lemma_one_more_piece(rest, piece, c);
            assert(split_char(whole, c) =~= split_char(s, c).push(piece));
        },
        None => {
            let k = s.len() as int;
            assert forall|j: int| 0 <= j < k implies #[trigger] whole[j] != c by {
                assert(whole[j] == s[j]);
            }
            lemma_find_char_at(whole, c, 0, k);
            assert(whole.take(k) =~= s);
            assert(whole.skip(k + 1) =~= piece);
            lemma_find_char(piece, c, 0);
            match find_char(piece, c, 0) {
                Some(j) => {
                    assert(piece.contains(piece[j]));
                },
                None => {},
            }
            assert(split_char(piece, c) == seq![piece]);
            assert(split_char(s, c) == seq![s]);
            assert(split_char(whole, c) == seq![s] + seq![piece]);
            assert(seq![s] + seq![piece] =~= seq![s].push(piece));
        },
    }
}

/// Pieces that hold none of a character come apart again once it joined them.
pub proof fn lemma_split_joined(pieces: Seq<Seq<char>>, c: char, sep: Seq<char>)
    requires
        sep == seq![c],
        pieces.len() > 0,
        forall|i: int| 0 <= i < pieces.len() ==> !(#[trigger] pieces[i]).contains(c),
    ensures
        split_char(join(pieces, sep), c) == pieces,
    decreases pieces.len(),
{
    if pieces.len() == 1 {
        let s = pieces[0];
        lemma_find_char(s, c, 0);
        match find_char(s, c, 0) {
            Some(j) => {
                assert(s.contains(s[j]));
            },
            None => {},
        }
        assert(split_char(s, c) =~= pieces);
    } else {
        let front = pieces.drop_last();
        assert forall|i: int| 0 <= i < front.len() implies !(#[trigger] front[i]).contains(c) by {
            assert(front[i] == pieces[i]);
        }
        lemma_split_joined(front, c, sep);
        lemma_one_more_piece(join(front, sep), pieces.last(), c);
        assert(front.push(pieces.last()) =~= pieces);
    }
}

/// Joined pieces begin with the character that joins them exactly where the first of
/// several is empty.
pub proof fn lemma_joined_start(pieces: Seq<Seq<char>>, c: char, sep: Seq<char>)
    requires
        sep == seq![c],
        pieces.len() > 0,
        forall|i: int| 0 <= i < pieces.len() ==> !(#[trigger] pieces[i]).contains(c),
    ensures
        (join(pieces, sep).len() > 0 && join(pieces, sep)[0] == c) == (pieces.len() > 1
            && pieces[0].len() == 0),
{
    let first = pieces[0];
    if pieces.len() == 1 {
        if first.len() > 0 {
            assert(first.contains(first[0]));
        }
    } else {
        let behind = pieces.skip(1);
        assert(seq![first] + behind =~= pieces);
        lemma_join_first(first, behind, sep);
        if first.len() > 0 {
            assert(first.contains(first[0]));
        }
    }
}

/// A line more behind lines that all have their endings.
pub proof fn lemma_one_more_line(s: Seq<char>, line: Seq<char>)
    requires
        s.len() == 0 || s.last() == '\n',
        !line.contains('\n'),
    ensures
        lines(s + line + "\n"@) == lines(s).push(without_cr(line)),
    decreases s.len(),
{
    reveal_strlit("\n");
    let whole = s + line + "\n"@;
    if s.len() == 0 {
        assert forall|j: int| 0 <= j < line.len() implies #[trigger] whole[j] != '\n' by {
            assert(whole[j] == line[j]);
            assert(line.contains(line[j]));
        }
        lemma_find_char_at(whole, '\n', 0, line.len() as int);
        assert(whole.take(line.len() as int) == line);
        assert(whole.skip(line.len() as int + 1) == Seq::<char>::empty());
        assert(lines(Seq::<char>::empty()) =~= seq![]);
        assert(lines(s) =~= seq![]);
        assert(lines(whole) =~= seq![without_cr(line)]);
        assert(lines(s).push(without_cr(line)) =~= seq![without_cr(line)]);
    } else {
        lemma_find_char(s, '\n', 0);
        match find_char(s, '\n', 0) {
            Some(k) => {
                assert forall|j: int| 0 <= j < k implies #[trigger] whole[j] != '\n' by {
                    assert(whole[j] == s[j]);
                }
                assert(whole[k] == s[k]);
                lemma_find_char_at(whole, '\n', 0, k);
                let rest = s.skip(k + 1);
                assert(rest.len() > 0 ==> rest.last() == s.last());
                assert(whole.take(k) == s.take(k));
                assert(whole.skip(k + 1) == rest + line + "\n"@);
                lemma_one_more_line(rest, line);
                assert(lines(whole) =~= lines(s).push(without_cr(line)));
            },
            None => {
                assert(s[s.len() - 1] == '\n');
            },
        }
    }
}

/// Joined parts with one more are the joined parts, the separator and that one.
pub proof fn lemma_join_one_more(parts: Seq<Seq<char>>, part: Seq<char>, sep: Seq<char>)
    requires
        parts.len() > 0,
    ensures
        join(parts.push(part), sep) == join(parts, sep) + sep + part,
{
    assert(parts.push(part).drop_last() == parts);
}

/// Whether `pat`, written right behind `head`, is the first of it.
pub open spec fn ends_at_first(head: Seq<char>, pat: Seq<char>) -> bool {
    forall|j: int| 0 <= j < head.len() ==> !#[trigger] stands_at(head + pat, pat, j)
}

/// A pattern is found where it stands first.
pub proof fn lemma_find_first(s: Seq<char>, pat: Seq<char>, from: int, k: int)
    requires
        0 <= from <= k,
        stands_at(s, pat, k),
        forall|j: int| from <= j < k ==> !#[trigger] stands_at(s, pat, j),
    ensures
        find_sub(s, pat, from) == Some(k),
    decreases k - from,
{
    if from < k {
        lemma_find_first(s, pat, from + 1, k);
    }
}

proof fn lemma_none_before(s: Seq<char>, pat: Seq<char>, from: int, j: int)
    requires
        0 <= from <= j,
        match find_sub(s, pat, from) {
            Some(k) => j < k,
            None => true,
        },
    ensures
        !stands_at(s, pat, j),
    decreases j - from,
{
    if from < j && from <= s.len() {
        lemma_find_sub(s, pat, from);
        lemma_none_before(s, pat, from + 1, j);
    }
}

/// What stands before the first separator is the first piece, and the other pieces are
/// those of what stands behind it.
pub proof fn lemma_split_first(head: Seq<char>, pat: Seq<char>, rest: Seq<char>)
    requires
        pat.len() > 0,
        ends_at_first(head, pat),
    ensures
        split_sub(head + pat + rest, pat) == seq![head] + split_sub(rest, pat),
{
    let s = head + pat + rest;
    let k = head.len() as int;
    assert(s.subrange(k, k + pat.len()) == pat);
    assert forall|j: int| 0 <= j < k implies !#[trigger] stands_at(s, pat, j) by {
        assert(s.subrange(j, j + pat.len()) == (head + pat).subrange(j, j + pat.len()));
        assert(!stands_at(head + pat, pat, j));
    }
    lemma_find_first(s, pat, 0, k);
    assert(s.take(k) == head);
    assert(s.skip((k + pat.len()) as int) == rest);
}

/// A text of more pieces than one is its first piece, the separator, and what the other
/// pieces come from.
pub proof fn lemma_split_off(s: Seq<char>, pat: Seq<char>) -> (rest: Seq<char>)
    requires
        pat.len() > 0,
        split_sub(s, pat).len() > 1,
    ensures
        s == split_sub(s, pat)[0] + pat + rest,
        split_sub(s, pat).skip(1) == split_sub(rest, pat),
        ends_at_first(split_sub(s, pat)[0], pat),
{
    lemma_find_sub(s, pat, 0);
    let k = find_sub(s, pat, 0).unwrap();
    let head = s.take(k);
    let rest = s.skip((k + pat.len()) as int);
    assert(s == head + pat + rest) by {
        assert(s.subrange(k, k + pat.len()) == pat);
        assert forall|i: int| 0 <= i < s.len() implies s[i] == (head + pat + rest)[i] by {
            if k <= i < k + pat.len() {
                assert(s.subrange(k, k + pat.len())[i - k] == s[i]);
            }
        }
    }
    assert forall|j: int| 0 <= j < head.len() implies !#[trigger] stands_at(head + pat, pat, j) by {
        lemma_none_before(s, pat, 0, j);
        assert(s.subrange(j, j + pat.len()) == (head + pat).subrange(j, j + pat.len()));
    }
    assert(split_sub(s, pat) == seq![head] + split_sub(rest, pat));
    assert(split_sub(s, pat).skip(1) == split_sub(rest, pat));
    rest
}

/// A text of one piece is that piece, and a text in which the separator nowhere stands
/// is of one piece.
pub proof fn lemma_split_whole(s: Seq<char>, pat: Seq<char>)
    requires
        pat.len() > 0,
    ensures
        split_sub(s, pat).len() == 1 ==> split_sub(s, pat)[0] == s,
        (forall|j: int| !#[trigger] stands_at(s, pat, j)) ==> split_sub(s, pat) == seq![s],
{
    lemma_find_sub(s, pat, 0);
    if let Some(k) = find_sub(s, pat, 0) {
        assert(split_sub(s.skip((k + pat.len()) as int), pat).len() > 0);
    }
}

/// A pattern is found where it stands first: none of what comes before begins it.
pub proof fn lemma_find_sub_at(s: Seq<char>, pat: Seq<char>, from: int, k: int)
    requires
        0 <= from <= k,
        pat.len() > 0,
        stands_at(s, pat, k),
        forall|j: int| from <= j < k ==> #[trigger] s[j] != pat[0],
    ensures
        find_sub(s, pat, from) == Some(k),
    decreases k - from,
{
    if from < k {
        if stands_at(s, pat, from) {
            assert(s.subrange(from, from + pat.len())[0] == s[from]);
        }
        lemma_find_sub_at(s, pat, from + 1, k);
    }
}

pub proof fn lemma_trim_start(s: Seq<char>)
    ensures
        trim_start(s).len() <= s.len(),
        trim_start(s) == s.skip(s.len() - trim_start(s).len()),
        trim_start(s).len() > 0 ==> !is_space(trim_start(s)[0]),
    decreases s.len(),
{
    if s.len() > 0 && is_space(s[0]) {
        lemma_trim_start(s.skip(1));
    } else {
        assert(s.skip(0) == s);
    }
}

pub proof fn lemma_trim_end(s: Seq<char>)
    ensures
        trim_end(s).len() <= s.len(),
        trim_end(s) == s.take(trim_end(s).len() as int),
    decreases s.len(),
{
    if s.len() > 0 && is_space(s.last()) {
        lemma_trim_end(s.drop_last());
    }
}

pub proof fn lemma_word_end(s: Seq<char>, from: int)
    requires
        0 <= from <= s.len(),
    ensures
        from <= word_end(s, from) <= s.len(),
        from < s.len() && !is_space(s[from]) ==> from < word_end(s, from),
    decreases s.len() - from,
{
    if from < s.len() && !is_space(s[from]) {
        lemma_word_end(s, from + 1);
    }
}

pub fn space(c: char) -> (r: bool)
    ensures
        r == is_space(c),
{
    let n: u32 = c as u32;
    (0x09 <= n && n <= 0x0d) || n == 0x20 || n == 0x85 || n == 0xa0 || n == 0x1680 || (0x2000 <= n
        && n <= 0x200a) || n == 0x2028 || n == 0x2029 || n == 0x202f || n == 0x205f || n == 0x3000
}

/// Whether two slices hold the same characters.
pub fn same_chars(a: &[char], b: &[char]) -> (r: bool)
    ensures
        r == (a@ == b@),
{
    if a.len() != b.len() {
        return false;
    }
    let mut i: usize = 0;
    while i < a.len()
        invariant
            i <= a.len(),
            a.len() == b.len(),
            forall|j: int| 0 <= j < i ==> a@[j] == b@[j],
        decreases a.len() - i,
    {
        if a[i] != b[i] {
            return false;
        }
        i = i + 1;
    }
    assert(a@ == b@);
    true
}

/// Whether `s` holds exactly the characters of `text`.
pub fn same(s: &[char], text: &str) -> (r: bool)
    ensures
        r == (s@ == text@),
{
    let t = chars_of(text);
    same_chars(s, t.as_slice())
}

/// Whether two strings hold the same characters.
pub fn same_str(a: &str, b: &str) -> (r: bool)
    ensures
        r == (a@ == b@),
{
    let s = chars_of(a);
    same(s.as_slice(), b)
}

/// Whether `pat` stands in `s` at `at`.
pub fn stands(s: &[char], pat: &[char], at: usize) -> (r: bool)
    ensures
        r == stands_at(s@, pat@, at as int),
{
    if at > s.len() || pat.len() > s.len() - at {
        return false;
    }
    same_chars(slice_subrange(s, at, at + pat.len()), pat)
}

pub fn find(s: &[char], c: char) -> (r: Option<usize>)
    ensures
        match r {
            Some(k) => find_char(s@, c, 0) == Some(k as int) && k < s@.len(),
            None => find_char(s@, c, 0) is None,
        },
{
    let mut i: usize = 0;
    while i < s.len()
        invariant
            i <= s.len(),
            find_char(s@, c, 0) == find_char(s@, c, i as int),
        decreases s.len() - i,
    {
        if s[i] == c {
            return Some(i);
        }
        i = i + 1;
    }
    None
}

pub fn rfind(s: &[char], c: char) -> (r: Option<usize>)
    ensures
        match r {
            Some(k) => rfind_char(s@, c, s@.len() as int) == Some(k as int) && k < s@.len(),
            None => rfind_char(s@, c, s@.len() as int) is None,
        },
{
    let mut i: usize = s.len();
    while i > 0
        invariant
            i <= s.len(),
            rfind_char(s@, c, s@.len() as int) == rfind_char(s@, c, i as int),
        decreases i,
    {
        if s[i - 1] == c {
            return Some(i - 1);
        }
        i = i - 1;
    }
    None
}

/// The first place at or after `from` where `pat` stands in `s`.
pub fn find_from(s: &[char], pat: &str, from: usize) -> (r: Option<usize>)
    ensures
        match r {
            Some(k) => find_sub(s@, pat@, from as int) == Some(k as int) && k + pat@.len()
                <= s@.len(),
            None => find_sub(s@, pat@, from as int) is None,
        },
{
    let p = chars_of(pat);
    let mut i: usize = from;
    while i < s.len()
        invariant
            p@ == pat@,
            from <= i,
            find_sub(s@, pat@, from as int) == find_sub(s@, pat@, i as int),
            i <= s.len() || i == from,
        decreases s.len() - i,
    {
        if stands(s, p.as_slice(), i) {
            return Some(i);
        }
        i = i + 1;
    }
    if i == s.len() && stands(s, p.as_slice(), i) {
        return Some(i);
    }
    proof {
        reveal_with_fuel(find_sub, 2);
    }
    None
}

pub fn contains(s: &[char], pat: &str) -> (r: bool)
    ensures
        r == contains_sub(s@, pat@),
{
    find_from(s, pat, 0).is_some()
}

pub fn begins(s: &[char], pat: &str) -> (r: bool)
    ensures
        r == starts_with(s@, pat@),
{
    let p = chars_of(pat);
    stands(s, p.as_slice(), 0)
}

pub fn after_prefix<'a>(s: &'a [char], pat: &str) -> (r: Option<&'a [char]>)
    ensures
        match r {
            Some(t) => strip_prefix(s@, pat@) == Some(t@),
            None => strip_prefix(s@, pat@) is None,
        },
{
    let p = chars_of(pat);
    if stands(s, p.as_slice(), 0) {
        let t = slice_subrange(s, p.len(), s.len());
        assert(t@ == s@.skip(pat@.len() as int));
        Some(t)
    } else {
        None
    }
}

pub fn before_suffix<'a>(s: &'a [char], pat: &str) -> (r: Option<&'a [char]>)
    ensures
        match r {
            Some(t) => strip_suffix(s@, pat@) == Some(t@),
            None => strip_suffix(s@, pat@) is None,
        },
{
    let p = chars_of(pat);
    if p.len() <= s.len() && stands(s, p.as_slice(), s.len() - p.len()) {
        let t = slice_subrange(s, 0, s.len() - p.len());
        assert(t@ == s@.take(s@.len() - pat@.len()));
        Some(t)
    } else {
        None
    }
}

pub fn cut_once<'a>(s: &'a [char], c: char) -> (r: Option<(&'a [char], &'a [char])>)
    ensures
        match r {
            Some(t) => split_once(s@, c) == Some((t.0@, t.1@)),
            None => split_once(s@, c) is None,
        },
{
    match find(s, c) {
        Some(k) => {
            let n: usize = s.len();
            let a = slice_subrange(s, 0, k);
            let b = slice_subrange(s, k + 1, n);
            assert(a@ == s@.take(k as int));
            assert(b@ == s@.skip(k + 1));
            Some((a, b))
        },
        None => None,
    }
}

pub fn cut_once_sub<'a>(s: &'a [char], pat: &str) -> (r: Option<(&'a [char], &'a [char])>)
    ensures
        match r {
            Some(t) => split_once_sub(s@, pat@) == Some((t.0@, t.1@)),
            None => split_once_sub(s@, pat@) is None,
        },
{
    let width: usize = chars_of(pat).len();
    match find_from(s, pat, 0) {
        Some(k) => {
            let n: usize = s.len();
            let a = slice_subrange(s, 0, k);
            let b = slice_subrange(s, k + width, n);
            assert(a@ == s@.take(k as int));
            assert(b@ == s@.skip((k + width) as int));
            Some((a, b))
        },
        None => None,
    }
}

pub fn rcut_once<'a>(s: &'a [char], c: char) -> (r: Option<(&'a [char], &'a [char])>)
    ensures
        match r {
            Some(t) => rsplit_once(s@, c) == Some((t.0@, t.1@)),
            None => rsplit_once(s@, c) is None,
        },
{
    match rfind(s, c) {
        Some(k) => {
            let n: usize = s.len();
            let a = slice_subrange(s, 0, k);
            let b = slice_subrange(s, k + 1, n);
            assert(a@ == s@.take(k as int));
            assert(b@ == s@.skip(k + 1));
            Some((a, b))
        },
        None => None,
    }
}

pub fn trimmed_start<'a>(s: &'a [char]) -> (r: &'a [char])
    ensures
        r@ == trim_start(s@),
{
    let mut i: usize = 0;
    proof {
        assert(s@.skip(0) == s@);
    }
    while i < s.len() && space(s[i])
        invariant
            i <= s.len(),
            trim_start(s@) == trim_start(s@.skip(i as int)),
        decreases s.len() - i,
    {
        assert(s@.skip(i as int).skip(1) == s@.skip(i + 1));
        i = i + 1;
    }
    let t = slice_subrange(s, i, s.len());
    assert(t@ == s@.skip(i as int));
    t
}

pub fn trimmed_end<'a>(s: &'a [char]) -> (r: &'a [char])
    ensures
        r@ == trim_end(s@),
{
    let mut i: usize = s.len();
    proof {
        assert(s@.take(i as int) == s@);
    }
    while i > 0 && space(s[i - 1])
        invariant
            i <= s.len(),
            trim_end(s@) == trim_end(s@.take(i as int)),
        decreases i,
    {
        assert(s@.take(i as int).drop_last() == s@.take(i - 1));
        i = i - 1;
    }
    let t = slice_subrange(s, 0, i);
    assert(t@ == s@.take(i as int));
    t
}

pub fn trimmed<'a>(s: &'a [char]) -> (r: &'a [char])
    ensures
        r@ == trim(s@),
{
    trimmed_end(trimmed_start(s))
}

/// The pieces between occurrences of `c`.
pub fn split_at_char<'a>(s: &'a [char], c: char) -> (r: Vec<&'a [char]>)
    ensures
        views(r@) == split_char(s@, c),
{
    let mut out: Vec<&'a [char]> = Vec::new();
    let mut rest: &'a [char] = s;
    assert(views(out@) + split_char(rest@, c) == split_char(s@, c));
    loop
        invariant
            views(out@) + split_char(rest@, c) == split_char(s@, c),
        decreases rest@.len(),
    {
        match find(rest, c) {
            Some(k) => {
                let n: usize = rest.len();
                let head = slice_subrange(rest, 0, k);
                let tail = slice_subrange(rest, k + 1, n);
                proof {
                    assert(head@ == rest@.take(k as int));
                    assert(tail@ == rest@.skip(k + 1));
                    assert(views(out@.push(head)) == views(out@).push(head@));
                    assert(views(out@).push(head@) + split_char(tail@, c) == views(out@) + (seq![
                        head@,
                    ] + split_char(tail@, c)));
                }
                out.push(head);
                rest = tail;
            },
            None => {
                proof {
                    assert(views(out@.push(rest)) == views(out@).push(rest@));
                    assert(views(out@).push(rest@) == views(out@) + seq![rest@]);
                }
                out.push(rest);
                return out;
            },
        }
    }
}

/// The pieces between occurrences of the non-empty `pat`.
pub fn split_at_sub<'a>(s: &'a [char], pat: &str) -> (r: Vec<&'a [char]>)
    requires
        pat@.len() > 0,
    ensures
        views(r@) == split_sub(s@, pat@),
{
    let width: usize = chars_of(pat).len();
    let mut out: Vec<&'a [char]> = Vec::new();
    let mut rest: &'a [char] = s;
    assert(views(out@) + split_sub(rest@, pat@) == split_sub(s@, pat@));
    loop
        invariant
            width == pat@.len(),
            pat@.len() > 0,
            views(out@) + split_sub(rest@, pat@) == split_sub(s@, pat@),
        decreases rest@.len(),
    {
        match find_from(rest, pat, 0) {
            Some(k) => {
                let n: usize = rest.len();
                let head = slice_subrange(rest, 0, k);
                let tail = slice_subrange(rest, k + width, n);
                proof {
                    assert(head@ == rest@.take(k as int));
                    assert(tail@ == rest@.skip(k + width));
                    assert(views(out@.push(head)) == views(out@).push(head@));
                    assert(views(out@).push(head@) + split_sub(tail@, pat@) == views(out@) + (seq![
                        head@,
                    ] + split_sub(tail@, pat@)));
                }
                out.push(head);
                rest = tail;
            },
            None => {
                proof {
                    assert(views(out@.push(rest)) == views(out@).push(rest@));
                    assert(views(out@).push(rest@) == views(out@) + seq![rest@]);
                }
                out.push(rest);
                return out;
            },
        }
    }
}

/// The maximal runs of non-whitespace.
pub fn split_words<'a>(s: &'a [char]) -> (r: Vec<&'a [char]>)
    ensures
        views(r@) == words(s@),
{
    let mut out: Vec<&'a [char]> = Vec::new();
    let mut rest: &'a [char] = s;
    assert(views(out@) + words(rest@) == words(s@));
    loop
        invariant
            views(out@) + words(rest@) == words(s@),
        decreases rest@.len(),
    {
        let t = trimmed_start(rest);
        proof {
            lemma_trim_start(rest@);
        }
        if t.len() == 0 {
            assert(words(rest@) =~= seq![]);
            assert(views(out@) + words(rest@) == views(out@));
            return out;
        }
        let mut k: usize = 0;
        while k < t.len() && !space(t[k])
            invariant
                k <= t.len(),
                word_end(t@, 0) == word_end(t@, k as int),
            decreases t.len() - k,
        {
            k = k + 1;
        }
        let head = slice_subrange(t, 0, k);
        let tail = slice_subrange(t, k, t.len());
        proof {
            lemma_word_end(t@, 0);
            assert(head@ == t@.take(k as int));
            assert(tail@ == t@.skip(k as int));
            assert(views(out@.push(head)) == views(out@).push(head@));
            assert(views(out@).push(head@) + words(tail@) == views(out@) + (seq![head@] + words(
                tail@,
            )));
        }
        out.push(head);
        rest = tail;
    }
}

/// The lines of `s`.
pub fn split_lines<'a>(s: &'a [char]) -> (r: Vec<&'a [char]>)
    ensures
        views(r@) == lines(s@),
{
    let mut out: Vec<&'a [char]> = Vec::new();
    let mut rest: &'a [char] = s;
    assert(views(out@) + lines(rest@) == lines(s@));
    while rest.len() > 0
        invariant
            views(out@) + lines(rest@) == lines(s@),
        decreases rest@.len(),
    {
        match find(rest, '\n') {
            Some(k) => {
                let whole = slice_subrange(rest, 0, k);
                let line = if k > 0 && whole[k - 1] == '\r' {
                    slice_subrange(rest, 0, k - 1)
                } else {
                    whole
                };
                let tail = slice_subrange(rest, k + 1, rest.len());
                proof {
                    assert(whole@ == rest@.take(k as int));
                    assert(line@ == without_cr(rest@.take(k as int)));
                    assert(tail@ == rest@.skip(k + 1));
                    assert(views(out@.push(line)) == views(out@).push(line@));
                    assert(views(out@).push(line@) + lines(tail@) == views(out@) + (seq![line@]
                        + lines(tail@)));
                }
                out.push(line);
                rest = tail;
            },
            None => {
                proof {
                    assert(views(out@.push(rest)) == views(out@).push(rest@));
                    assert(views(out@).push(rest@) == views(out@) + seq![rest@]);
                }
                out.push(rest);
                return out;
            },
        }
    }
    assert(views(out@) + lines(rest@) == views(out@));
    out
}

/// One character in ASCII lower case.
pub fn lowered_char(c: char) -> (r: char)
    ensures
        r == lower_char(c),
{
    if 'A' <= c && c <= 'Z' {
        (c as u8 + 32) as char
    } else {
        c
    }
}

/// `s` with its ASCII letters in lower case.
pub fn lowered(s: &[char]) -> (r: Vec<char>)
    ensures
        r@ == lower(s@),
{
    let mut out: Vec<char> = Vec::new();
    let mut i: usize = 0;
    while i < s.len()
        invariant
            i <= s.len(),
            out@ == lower(s@).take(i as int),
        decreases s.len() - i,
    {
        out.push(lowered_char(s[i]));
        assert(lower(s@).take(i as int).push(lower(s@)[i as int]) == lower(s@).take(i + 1));
        i = i + 1;
    }
    assert(lower(s@).take(i as int) == lower(s@));
    out
}

/// The strings one after the other, with `sep` between neighbours.
pub fn join_strings(parts: &Vec<String>, sep: &str) -> (r: String)
    ensures
        r@ == join(string_views(parts@), sep@),
{
    let mut out = String::new();
    let mut i: usize = 0;
    while i < parts.len()
        invariant
            i <= parts.len(),
            out@ == join(string_views(parts@).take(i as int), sep@),
        decreases parts.len() - i,
    {
        proof {
            let all = string_views(parts@);
            assert(all.take(i + 1).drop_last() == all.take(i as int));
            assert(all.take(i + 1).last() == parts@[i as int]@);
            if i == 0 {
                assert(out@ + parts@[0]@ == parts@[0]@);
            }
        }
        if i > 0 {
            out.append(sep);
        }
        out.append(parts[i].as_str());
        i = i + 1;
    }
    assert(string_views(parts@).take(i as int) == string_views(parts@));
    out
}

/// `s` with every `from` replaced by `to`.
pub fn replaced(s: &[char], from: char, to: &str) -> (r: String)
    ensures
        r@ == replace_char(s@, from, to@),
{
    let mut out = String::new();
    let mut i: usize = 0;
    while i < s.len()
        invariant
            i <= s.len(),
            out@ == replace_char(s@.take(i as int), from, to@),
        decreases s.len() - i,
    {
        assert(s@.take(i + 1).drop_last() == s@.take(i as int));
        if s[i] == from {
            out.append(to);
        } else {
            assert(out@.push(s@[i as int]) == out@ + seq![s@[i as int]]);
            out.push(s[i]);
        }
        i = i + 1;
    }
    assert(s@.take(i as int) == s@);
    out
}

/// The first line at or after `from` that begins with `prefix`.
pub open spec fn line_with_prefix(
    lines: Seq<Seq<char>>,
    prefix: Seq<char>,
    from: int,
) -> Option<int>
    decreases lines.len() - from,
{
    if from < 0 || from >= lines.len() {
        None
    } else if starts_with(lines[from], prefix) {
        Some(from)
    } else {
        line_with_prefix(lines, prefix, from + 1)
    }
}

/// What follows `prefix` on the first line that begins with it.
pub open spec fn after_line_prefix(lines: Seq<Seq<char>>, prefix: Seq<char>) -> Option<Seq<char>> {
    match line_with_prefix(lines, prefix, 0) {
        Some(k) => Some(lines[k].skip(prefix.len() as int)),
        None => None,
    }
}

/// The position of the first line that begins with `prefix`.
pub fn find_line(lines: &Vec<&[char]>, prefix: &str) -> (r: Option<usize>)
    ensures
        match r {
            Some(k) => line_with_prefix(views(lines@), prefix@, 0) == Some(k as int) && k
                < lines@.len() && starts_with(lines@[k as int]@, prefix@),
            None => line_with_prefix(views(lines@), prefix@, 0) is None,
        },
{
    let p = chars_of(prefix);
    let mut i: usize = 0;
    while i < lines.len()
        invariant
            i <= lines.len(),
            p@ == prefix@,
            line_with_prefix(views(lines@), prefix@, 0) == line_with_prefix(
                views(lines@),
                prefix@,
                i as int,
            ),
        decreases lines.len() - i,
    {
        assert(views(lines@)[i as int] == lines@[i as int]@);
        if stands(lines[i], p.as_slice(), 0) {
            return Some(i);
        }
        i = i + 1;
    }
    None
}

/// What follows `prefix` on the first line that begins with it.
pub fn find_after<'a>(lines: &Vec<&'a [char]>, prefix: &str) -> (r: Option<&'a [char]>)
    ensures
        match r {
            Some(t) => after_line_prefix(views(lines@), prefix@) == Some(t@),
            None => after_line_prefix(views(lines@), prefix@) is None,
        },
{
    match find_line(lines, prefix) {
        Some(k) => {
            assert(views(lines@)[k as int] == lines@[k as int]@);
            after_prefix(lines[k], prefix)
        },
        None => None,
    }
}

/// Everything but the first.
pub open spec fn tail<T>(s: Seq<T>) -> Seq<T> {
    if s.len() == 0 {
        s
    } else {
        s.skip(1)
    }
}

/// The word at position `n`.
pub open spec fn word(s: Seq<char>, n: int) -> Option<Seq<char>> {
    if 0 <= n < words(s).len() {
        Some(words(s)[n])
    } else {
        None
    }
}

/// The word at position `n`.
pub fn nth_word<'a>(s: &'a [char], n: usize) -> (r: Option<&'a [char]>)
    ensures
        match r {
            Some(w) => word(s@, n as int) == Some(w@),
            None => word(s@, n as int) is None,
        },
{
    let all = split_words(s);
    assert(views(all@).len() == all@.len());
    if n < all.len() {
        assert(views(all@)[n as int] == all@[n as int]@);
        Some(all[n])
    } else {
        None
    }
}

/// The characters of a string that may be missing.
pub open spec fn optional(s: Option<String>) -> Option<Seq<char>> {
    match s {
        Some(t) => Some(t@),
        None => None,
    }
}

/// The string, or an empty one where it is missing.
pub open spec fn or_empty(s: Option<Seq<char>>) -> Seq<char> {
    match s {
        Some(t) => t,
        None => seq![],
    }
}

/// The text before and after the last `pat`.
pub open spec fn rsplit_once_sub(s: Seq<char>, pat: Seq<char>) -> Option<(Seq<char>, Seq<char>)> {
    match rfind_sub(s, pat, s.len() as int) {
        Some(k) => Some((s.take(k), s.skip(k + pat.len()))),
        None => None,
    }
}

/// The text before and after the last `pat`.
pub fn rcut_once_sub<'a>(s: &'a [char], pat: &str) -> (r: Option<(&'a [char], &'a [char])>)
    ensures
        match r {
            Some((a, b)) => rsplit_once_sub(s@, pat@) == Some((a@, b@)),
            None => rsplit_once_sub(s@, pat@) is None,
        },
{
    let p = chars_of(pat);
    let n: usize = s.len();
    let mut i: usize = n;
    loop
        invariant
            i <= n,
            n == s@.len(),
            p@ == pat@,
            rfind_sub(s@, pat@, n as int) == rfind_sub(s@, pat@, i as int),
        decreases i,
    {
        if stands(s, p.as_slice(), i) {
            let m: usize = p.len();
            let head = vstd::slice::slice_subrange(s, 0, i);
            let rest = vstd::slice::slice_subrange(s, i + m, n);
            assert(head@ == s@.take(i as int));
            assert(rest@ == s@.skip(i + m));
            return Some((head, rest));
        }
        if i == 0 {
            proof {
                reveal_with_fuel(rfind_sub, 2);
            }
            return None;
        }
        i = i - 1;
    }
}

proof fn lemma_word_end_at(s: Seq<char>, from: int, k: int)
    requires
        0 <= from <= k <= s.len(),
        forall|j: int| from <= j < k ==> !is_space(#[trigger] s[j]),
        k < s.len() ==> is_space(s[k]),
    ensures
        word_end(s, from) == k,
    decreases k - from,
{
    if from < k {
        lemma_word_end_at(s, from + 1, k);
    }
}

/// Whether a text is one word.
pub open spec fn is_word(s: Seq<char>) -> bool {
    s.len() > 0 && forall|i: int| 0 <= i < s.len() ==> !is_space(#[trigger] s[i])
}

proof fn lemma_first_word(w: Seq<char>, rest: Seq<char>)
    requires
        is_word(w),
    ensures
        words(w + seq![' '] + rest) == seq![w] + words(rest),
        words(w) == seq![w],
{
    let s = w + seq![' '] + rest;
    let k = w.len() as int;
    assert(s[0] == w[0] && !is_space(w[0]));
    assert(trim_start(s) == s);
    assert forall|j: int| 0 <= j < k implies !is_space(#[trigger] s[j]) by {
        assert(s[j] == w[j]);
    }
    assert(s[k] == ' ');
    lemma_word_end_at(s, 0, k);
    assert(s.take(k) =~= w);
    let behind = s.skip(k);
    assert(behind =~= seq![' '] + rest);
    assert(behind.skip(1) =~= rest);
    assert(trim_start(behind) == trim_start(rest));
    lemma_trim_start(rest);
    assert(words(behind) == words(rest));
    assert(trim_start(w) == w);
    lemma_word_end_at(w, 0, k);
    assert(w.take(k) =~= w);
    assert(w.skip(k) =~= Seq::<char>::empty());
    assert(words(Seq::<char>::empty()) =~= Seq::<Seq<char>>::empty());
}

/// Words with single spaces between are read as those words.
pub proof fn lemma_spaced_words(pieces: Seq<Seq<char>>)
    requires
        pieces.len() > 0,
        forall|i: int| 0 <= i < pieces.len() ==> is_word(#[trigger] pieces[i]),
    ensures
        words(join(pieces, seq![' '])) == pieces,
    decreases pieces.len(),
{
    let first = pieces[0];
    assert(is_word(first));
    if pieces.len() == 1 {
        lemma_first_word(first, seq![]);
        assert(pieces =~= seq![first]);
    } else {
        let behind = pieces.skip(1);
        assert forall|i: int| 0 <= i < behind.len() implies is_word(#[trigger] behind[i]) by {
            assert(behind[i] == pieces[i + 1]);
        }
        lemma_spaced_words(behind);
        lemma_join_first(first, behind, seq![' ']);
        assert(seq![first] + behind =~= pieces);
        lemma_first_word(first, join(behind, seq![' ']));
    }
}

/// Words with single spaces between stand on one line.
pub proof fn lemma_joined_words_hold_no_break(pieces: Seq<Seq<char>>)
    requires
        forall|i: int| 0 <= i < pieces.len() ==> is_word(#[trigger] pieces[i]),
    ensures
        forall|j: int|
            0 <= j < join(pieces, seq![' ']).len() ==> #[trigger] join(
                pieces,
                seq![' '],
            )[j] != '\n' && join(pieces, seq![' '])[j] != '\r',
    decreases pieces.len(),
{
    if pieces.len() > 0 {
        let front = pieces.drop_last();
        let last = pieces.last();
        assert(is_word(pieces[pieces.len() - 1]));
        assert forall|i: int| 0 <= i < front.len() implies is_word(#[trigger] front[i]) by {
            assert(front[i] == pieces[i]);
        }
        lemma_joined_words_hold_no_break(front);
        if front.len() > 0 {
            lemma_join_one_more(front, last, seq![' ']);
            assert(front.push(last) =~= pieces);
            let before = join(front, seq![' ']);
            let whole = join(pieces, seq![' ']);
            assert(whole == before + seq![' '] + last);
            assert forall|j: int| 0 <= j < whole.len() implies #[trigger] whole[j] != '\n'
                && whole[j] != '\r' by {
                if j < before.len() {
                    assert(whole[j] == before[j]);
                } else if j > before.len() {
                    assert(whole[j] == last[j - before.len() - 1]);
                }
            }
        } else {
            assert(pieces =~= seq![last]);
            assert(join(pieces, seq![' ']) =~= last);
        }
    }
}

} // verus!
