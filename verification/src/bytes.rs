//! Byte sequences: searching, and what UTF-8 makes of them.
use vstd::prelude::*;
use vstd::slice::slice_subrange;

verus! {

/// Whether `pat` stands in `s` at position `at`.
pub open spec fn stands_at(s: Seq<u8>, pat: Seq<u8>, at: int) -> bool {
    0 <= at && at + pat.len() <= s.len() && s.subrange(at, at + pat.len()) == pat
}

/// The first position at or after `from` where `pat` stands in `s`.
pub open spec fn find_sub(s: Seq<u8>, pat: Seq<u8>, from: int) -> Option<int>
    decreases s.len() + 1 - from,
{
    if from < 0 || from > s.len() {
        None
    } else if stands_at(s, pat, from) {
        Some(from)
    } else {
        find_sub(s, pat, from + 1)
    }
}

/// A first occurrence is found.
pub proof fn lemma_find_sub_at(s: Seq<u8>, pat: Seq<u8>, from: int, k: int)
    requires
        0 <= from <= k,
        stands_at(s, pat, k),
        forall|j: int| from <= j < k ==> !stands_at(s, pat, j),
    ensures
        find_sub(s, pat, from) == Some(k),
    decreases k - from,
{
    if from < k {
        lemma_find_sub_at(s, pat, from + 1, k);
    }
}

/// Whether two slices hold the same bytes.
pub fn same_bytes(a: &[u8], b: &[u8]) -> (r: bool)
    ensures
        r == (a@ == b@),
{
    if a.len() != b.len() {
        return false;
    }
    let mut i: usize = 0;
    while i < a.len()
        invariant
            i <= a.len(),
            a.len() == b.len(),
            forall|j: int| 0 <= j < i ==> a@[j] == b@[j],
        decreases a.len() - i,
    {
        if a[i] != b[i] {
            return false;
        }
        i = i + 1;
    }
    assert(a@ == b@);
    true
}

/// Whether `pat` stands in `s` at `at`.
pub fn stands(s: &[u8], pat: &[u8], at: usize) -> (r: bool)
    ensures
        r == stands_at(s@, pat@, at as int),
{
    if at > s.len() || pat.len() > s.len() - at {
        return false;
    }
    same_bytes(slice_subrange(s, at, at + pat.len()), pat)
}

/// The first place where the non-empty `pat` stands in `s`.
pub fn find(s: &[u8], pat: &[u8]) -> (r: Option<usize>)
    requires
        pat@.len() > 0,
    ensures
        match r {
            Some(k) => find_sub(s@, pat@, 0) == Some(k as int) && k + pat@.len() <= s@.len(),
            None => find_sub(s@, pat@, 0) is None,
        },
{
    let mut i: usize = 0;
    while i < s.len()
        invariant
            i <= s.len(),
            find_sub(s@, pat@, 0) == find_sub(s@, pat@, i as int),
        decreases s.len() - i,
    {
        if stands(s, pat, i) {
            return Some(i);
        }
        i = i + 1;
    }
    proof {
        reveal_with_fuel(find_sub, 2);
    }
    None
}

/// Appends the bytes of `s`.
pub fn append(out: &mut Vec<u8>, s: &[u8])
    ensures
        final(out)@ == old(out)@ + s@,
{
    let mut i: usize = 0;
    assert(old(out)@ + s@.take(0) == old(out)@);
    while i < s.len()
        invariant
            i <= s.len(),
            out@ == old(out)@ + s@.take(i as int),
        decreases s.len() - i,
    {
        out.push(s[i]);
        i = i + 1;
        assert(out@ == old(out)@ + s@.take(i as int));
    }
    assert(s@.take(i as int) == s@);
}

/// What `String::from_utf8_lossy` makes of bytes.
pub uninterp spec fn lossy_text(bytes: Seq<u8>) -> Seq<char>;

/// Decodes with `String::from_utf8_lossy`. Valid UTF-8 comes out as it stands;
/// of anything else the claim is only that the outcome depends on the bytes
/// alone.
#[verifier::external_body]
pub(crate) fn from_utf8_lossy(bytes: &[u8]) -> (r: String)
    ensures
        r@ == lossy_text(bytes@),
        vstd::utf8::valid_utf8(bytes@) ==> r@ == vstd::utf8::decode_utf8(bytes@),
{
    String::from_utf8_lossy(bytes).into_owned()
}

/// The text of bytes: what they encode where they are valid UTF-8, and otherwise what
/// `String::from_utf8_lossy` makes of them.
pub open spec fn lossy(bytes: Seq<u8>) -> Seq<char> {
    if vstd::utf8::valid_utf8(bytes) {
        vstd::utf8::decode_utf8(bytes)
    } else {
        lossy_text(bytes)
    }
}

/// The sentence of the error that `String::from_utf8` gives for bytes that are
/// no UTF-8.
pub uninterp spec fn utf8_error(bytes: Seq<u8>) -> Seq<char>;

/// What UTF-8 makes of bytes: their characters, or the sentence of the error.
pub open spec fn utf8_text(bytes: Seq<u8>) -> Result<Seq<char>, Seq<char>> {
    if vstd::utf8::valid_utf8(bytes) {
        Ok(vstd::utf8::decode_utf8(bytes))
    } else {
        Err(utf8_error(bytes))
    }
}

/// Decodes with `String::from_utf8`: the characters that the bytes encode where
/// they are valid UTF-8, and an error otherwise, whose sentence depends on the
/// bytes alone.
#[verifier::external_body]
pub(crate) fn from_utf8(bytes: Vec<u8>) -> (r: Result<String, String>)
    ensures
        match r {
            Ok(s) => vstd::utf8::valid_utf8(bytes@) && s@ == vstd::utf8::decode_utf8(bytes@),
            Err(e) => !vstd::utf8::valid_utf8(bytes@) && e@ == utf8_error(bytes@),
        },
{
    String::from_utf8(bytes).map_err(|error| error.to_string())
}

} // verus!
