//! Text for the shell.
use vstd::prelude::*;
use vstd::string::*;

use crate::text;

verus! {

/// `value` between single quotes, each of its own replaced by one that is escaped
/// outside of them.
pub open spec fn quoted(value: Seq<char>) -> Seq<char> {
    "'"@ + text::replace_char(value, '\'', "'\\''"@) + "'"@
}

/// A value as one word of a shell command, whatever it holds.
pub fn shell_quote(value: &str) -> (r: String)
    ensures
        r@ == quoted(value@),
{
    let chars = text::chars_of(value);
    let mut out = "'".to_owned();
    out.append(text::replaced(chars.as_slice(), '\'', "'\\''").as_str());
    out.append("'");
    out
}

/// A shell in the middle of a word: whether it stands inside single quotes, whether a
/// backslash outside of them has just been read, and what the word is so far.
pub struct Reader {
    pub inside: bool,
    pub escaped: bool,
    pub word: Seq<char>,
}

/// What a shell makes of one more character. Outside of quotes a character that it
/// would treat specially ends the reading.
pub open spec fn read_one(reader: Reader, c: char) -> Option<Reader> {
    if reader.inside {
        if c == '\'' {
            Some(Reader { inside: false, ..reader })
        } else {
            Some(Reader { word: reader.word.push(c), ..reader })
        }
    } else if reader.escaped {
        Some(Reader { escaped: false, word: reader.word.push(c), ..reader })
    } else if c == '\'' {
        Some(Reader { inside: true, ..reader })
    } else if c == '\\' {
        Some(Reader { escaped: true, ..reader })
    } else {
        None
    }
}

/// What a shell makes of the characters of a word.
pub open spec fn read_word(s: Seq<char>) -> Option<Reader>
    decreases s.len(),
{
    if s.len() == 0 {
        Some(Reader { inside: false, escaped: false, word: seq![] })
    } else {
        match read_word(s.drop_last()) {
            Some(reader) => read_one(reader, s.last()),
            None => None,
        }
    }
}

proof fn lemma_read_more(s: Seq<char>, c: char)
    ensures
        read_word(s.push(c)) == (match read_word(s) {
            Some(reader) => read_one(reader, c),
            None => None,
        }),
{
    assert(s.push(c).drop_last() == s);
}

proof fn lemma_inside_quotes(value: Seq<char>)
    ensures
        read_word("'"@ + text::replace_char(value, '\'', "'\\''"@)) == Some(
            Reader { inside: true, escaped: false, word: value },
        ),
    decreases value.len(),
{
    reveal_strlit("'");
    reveal_strlit("'\\''");
    if value.len() == 0 {
        let open = "'"@ + text::replace_char(value, '\'', "'\\''"@);
        assert(open =~= Seq::<char>::empty().push('\''));
        lemma_read_more(Seq::<char>::empty(), '\'');
        assert(value =~= Seq::<char>::empty());
    } else {
        let front = value.drop_last();
        let c = value.last();
        lemma_inside_quotes(front);
        let base = "'"@ + text::replace_char(front, '\'', "'\\''"@);
        let full = "'"@ + text::replace_char(value, '\'', "'\\''"@);
        assert(front.push(c) =~= value);
        if c == '\'' {
            let a = base.push('\'');
            let b = a.push('\\');
            let d = b.push('\'');
            let e = d.push('\'');
            assert(full =~= e);
            lemma_read_more(base, '\'');
            lemma_read_more(a, '\\');
            lemma_read_more(b, '\'');
            lemma_read_more(d, '\'');
        } else {
            assert(full =~= base.push(c));
            lemma_read_more(base, c);
        }
    }
}

/// A shell reads a quoted value as one word, and the word is the value.
pub proof fn lemma_quoted_value_is_one_word(value: Seq<char>)
    ensures
        read_word(quoted(value)) == Some(Reader { inside: false, escaped: false, word: value }),
{
    reveal_strlit("'");
    lemma_inside_quotes(value);
    let base = "'"@ + text::replace_char(value, '\'', "'\\''"@);
    assert(quoted(value) =~= base.push('\''));
    lemma_read_more(base, '\'');
}

} // verus!
