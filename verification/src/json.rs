//! JSON documents as the rest of the crate reads them.
//!
//! `serde_json` does the parsing; what it produced is carried over into
//! [`Json`], a plain tree that the verified code walks.
use vstd::prelude::*;
use vstd::string::*;

use crate::numbers;
use crate::text::same_str;

verus! {

/// A JSON value. A number keeps how it is written, and its value where that is an
/// unsigned 64-bit integer, the only kind of number this crate reads.
#[derive(Debug, PartialEq, Eq)]
pub enum Json {
    Null,
    Bool(bool),
    Number { value: Option<u64>, text: String },
    Text(String),
    Array(Vec<Json>),
    Object(Vec<(String, Json)>),
}

/// A `serde_json::Value`, carried from the parser to [`json_tree`].
#[verifier::external_type_specification]
#[verifier::external_body]
pub struct ExValue(serde_json::Value);

/// The tree that a `serde_json::Value` holds.
pub uninterp spec fn tree_of(value: serde_json::Value) -> Json;

/// What `serde_json::from_str` makes of a text: the tree of the value, or the
/// sentence of the error.
pub uninterp spec fn json_of(text: Seq<char>) -> Result<Json, Seq<char>>;

/// Parses with `serde_json::from_str::<serde_json::Value>`. The claim is only
/// that the outcome depends on the text alone: a value whose tree is
/// [`json_of`] the text, or an error that prints as [`json_of`] says.
#[verifier::external_body]
fn from_str(text: &str) -> (r: Result<serde_json::Value, String>)
    ensures
        match r {
            Ok(v) => json_of(text@) == Ok::<Json, Seq<char>>(tree_of(v)),
            Err(e) => json_of(text@) == Err::<Json, Seq<char>>(e@),
        },
{
    serde_json::from_str::<serde_json::Value>(text).map_err(|error| error.to_string())
}

/// Carries a `serde_json::Value` over into a [`Json`], variant by variant and
/// field by field; `serde_json::Number::as_u64` gives a number's value, and its
/// `Display` how it is written. The claim is that the outcome is the tree that the
/// value holds.
#[verifier::external_body]
fn json_tree(value: serde_json::Value) -> (r: Json)
    ensures
        r == tree_of(value),
{
    match value {
        serde_json::Value::Null => Json::Null,
        serde_json::Value::Bool(b) => Json::Bool(b),
        serde_json::Value::Number(n) => Json::Number { value: n.as_u64(), text: n.to_string() },
        serde_json::Value::String(s) => Json::Text(s),
        serde_json::Value::Array(items) => Json::Array(items.into_iter().map(json_tree).collect()),
        serde_json::Value::Object(fields) => Json::Object(
            fields.into_iter().map(|(key, value)| (key, json_tree(value))).collect(),
        ),
    }
}

/// Parses a JSON text.
pub fn parse_json(text: &str) -> (r: Result<Json, String>)
    ensures
        match r {
            Ok(v) => json_of(text@) == Ok::<Json, Seq<char>>(v),
            Err(e) => json_of(text@) == Err::<Json, Seq<char>>(e@),
        },
{
    match from_str(text) {
        Ok(value) => Ok(json_tree(value)),
        Err(error) => Err(error),
    }
}

/// A JSON value by its characters, all the way down.
#[verifier::ext_equal]
pub enum Tree {
    Null,
    Bool(bool),
    Number { value: Option<u64>, text: Seq<char> },
    Text(Seq<char>),
    Array(Seq<Tree>),
    Object(Seq<(Seq<char>, Tree)>),
}

impl Json {
    /// The value by its characters.
    pub open spec fn tree(self) -> Tree
        decreases self,
    {
        match self {
            Json::Null => Tree::Null,
            Json::Bool(b) => Tree::Bool(b),
            Json::Number { value, text } => Tree::Number { value, text: text@ },
            Json::Text(s) => Tree::Text(s@),
            Json::Array(items) => Tree::Array(
                Seq::new(
                    items@.len(),
                    |i: int|
                        if 0 <= i < items@.len() {
                            items@[i].tree()
                        } else {
                            Tree::Null
                        },
                ),
            ),
            Json::Object(fields) => Tree::Object(
                Seq::new(
                    fields@.len(),
                    |i: int|
                        if 0 <= i < fields@.len() {
                            (fields@[i].0@, fields@[i].1.tree())
                        } else {
                            (seq![], Tree::Null)
                        },
                ),
            ),
        }
    }
}

/// Values by their characters.
pub open spec fn trees(items: Seq<Json>) -> Seq<Tree> {
    Seq::new(items.len(), |i: int| items[i].tree())
}

/// Members by their characters.
pub open spec fn member_trees(fields: Seq<(String, Json)>) -> Seq<(Seq<char>, Tree)> {
    Seq::new(fields.len(), |i: int| (fields[i].0@, fields[i].1.tree()))
}

/// An array by its characters is its elements by theirs.
pub proof fn lemma_array_tree(items: Vec<Json>)
    ensures
        Json::Array(items).tree() == Tree::Array(trees(items@)),
{
    assert(Json::Array(items).tree()->Array_0 =~= trees(items@));
}

/// An object by its characters is its members by theirs.
pub proof fn lemma_object_tree(fields: Vec<(String, Json)>)
    ensures
        Json::Object(fields).tree() == Tree::Object(member_trees(fields@)),
{
    assert(Json::Object(fields).tree()->Object_0 =~= member_trees(fields@));
}

/// The position of the first field called `key` at or after `from`.
pub open spec fn field_at(fields: Seq<(String, Json)>, key: Seq<char>, from: int) -> Option<int>
    decreases fields.len() - from,
{
    if from < 0 || from >= fields.len() {
        None
    } else if fields[from].0@ == key {
        Some(from)
    } else {
        field_at(fields, key, from + 1)
    }
}

/// An unsigned number as a value.
pub fn unsigned(n: u64) -> (r: Json)
    ensures
        r.tree() == (Tree::Number { value: Some(n), text: numbers::decimal(n as int) }),
        r.u64_spec() == Some(n),
{
    Json::Number { value: Some(n), text: numbers::decimal_string(n) }
}

/// A value that is the same all the way down.
pub fn copy(value: &Json) -> (r: Json)
    ensures
        r.tree() == value.tree(),
    decreases value,
{
    match value {
        Json::Null => Json::Null,
        Json::Bool(b) => Json::Bool(*b),
        Json::Number { value, text } => Json::Number {
            value: *value,
            text: text.as_str().to_owned(),
        },
        Json::Text(s) => Json::Text(s.as_str().to_owned()),
        Json::Array(items) => {
            let mut out: Vec<Json> = Vec::new();
            let mut i: usize = 0;
            while i < items.len()
                invariant
                    i <= items.len(),
                    out@.len() == i,
                    *value == Json::Array(*items),
                    forall|j: int| 0 <= j < i ==> (#[trigger] out@[j]).tree() == items@[j].tree(),
                decreases items.len() - i,
            {
                assert(decreases_to!(*value => value->Array_0));
                assert(decreases_to!(value->Array_0 => value->Array_0@));
                assert(decreases_to!(value->Array_0@ => value->Array_0@[i as int]));
                out.push(copy(&items[i]));
                i = i + 1;
            }
            proof {
                lemma_array_tree(*items);
                lemma_array_tree(out);
                assert(trees(out@) =~= trees(items@));
            }
            Json::Array(out)
        },
        Json::Object(fields) => {
            let mut out: Vec<(String, Json)> = Vec::new();
            let mut i: usize = 0;
            while i < fields.len()
                invariant
                    i <= fields.len(),
                    out@.len() == i,
                    *value == Json::Object(*fields),
                    forall|j: int|
                        0 <= j < i ==> (#[trigger] out@[j]).0@ == fields@[j].0@ && out@[j].1.tree()
                            == fields@[j].1.tree(),
                decreases fields.len() - i,
            {
                assert(decreases_to!(*value => value->Object_0));
                assert(decreases_to!(value->Object_0 => value->Object_0@));
                assert(decreases_to!(value->Object_0@ => value->Object_0@[i as int]));
                assert(decreases_to!(value->Object_0@[i as int] => value->Object_0@[i as int].1));
                out.push((fields[i].0.as_str().to_owned(), copy(&fields[i].1)));
                i = i + 1;
            }
            proof {
                lemma_object_tree(*fields);
                lemma_object_tree(out);
                assert(member_trees(out@) =~= member_trees(fields@));
            }
            Json::Object(out)
        },
    }
}

impl Json {
    /// The member of an object called `key`.
    pub open spec fn get_spec(self, key: Seq<char>) -> Option<Json> {
        match self {
            Json::Object(fields) => match field_at(fields@, key, 0) {
                Some(k) => Some(fields@[k].1),
                None => None,
            },
            _ => None,
        }
    }

    /// The elements, where the value is an array.
    pub open spec fn array_spec(self) -> Option<Seq<Json>> {
        match self {
            Json::Array(items) => Some(items@),
            _ => None,
        }
    }

    /// The characters, where the value is a string.
    pub open spec fn text_spec(self) -> Option<Seq<char>> {
        match self {
            Json::Text(s) => Some(s@),
            _ => None,
        }
    }

    /// The value of an unsigned integer.
    pub open spec fn u64_spec(self) -> Option<u64> {
        match self {
            Json::Number { value, .. } => value,
            _ => None,
        }
    }

    /// The string called `key` in an object.
    pub open spec fn text_at(self, key: Seq<char>) -> Option<Seq<char>> {
        match self.get_spec(key) {
            Some(v) => v.text_spec(),
            None => None,
        }
    }

    /// The unsigned integer called `key` in an object.
    pub open spec fn u64_at(self, key: Seq<char>) -> Option<u64> {
        match self.get_spec(key) {
            Some(v) => v.u64_spec(),
            None => None,
        }
    }

    /// The unsigned integer called `key`, where it fits in 16 bits.
    pub open spec fn u16_at(self, key: Seq<char>) -> Option<u16> {
        match self.u64_at(key) {
            Some(v) => if v <= u16::MAX {
                Some(v as u16)
            } else {
                None
            },
            None => None,
        }
    }

    /// The elements of the array called `key`; none where there is no such array.
    pub open spec fn items_at(self, key: Seq<char>) -> Seq<Json> {
        match self.get_spec(key) {
            Some(v) => match v.array_spec() {
                Some(items) => items,
                None => seq![],
            },
            None => seq![],
        }
    }

    pub fn get(&self, key: &str) -> (r: Option<&Json>)
        ensures
            match r {
                Some(v) => self.get_spec(key@) == Some(*v),
                None => self.get_spec(key@) is None,
            },
    {
        match self {
            Json::Object(fields) => {
                let mut i: usize = 0;
                while i < fields.len()
                    invariant
                        i <= fields.len(),
                        field_at(fields@, key@, 0) == field_at(fields@, key@, i as int),
                        *self == Json::Object(*fields),
                    decreases fields.len() - i,
                {
                    if same_str(fields[i].0.as_str(), key) {
                        return Some(&fields[i].1);
                    }
                    i = i + 1;
                }
                None
            },
            _ => None,
        }
    }

    pub fn as_array(&self) -> (r: Option<&Vec<Json>>)
        ensures
            match r {
                Some(v) => self.array_spec() == Some(v@),
                None => self.array_spec() is None,
            },
    {
        match self {
            Json::Array(items) => Some(items),
            _ => None,
        }
    }

    pub fn as_text(&self) -> (r: Option<&str>)
        ensures
            match r {
                Some(s) => self.text_spec() == Some(s@),
                None => self.text_spec() is None,
            },
    {
        match self {
            Json::Text(s) => Some(s.as_str()),
            _ => None,
        }
    }

    pub fn as_u64(&self) -> (r: Option<u64>)
        ensures
            r == self.u64_spec(),
    {
        match self {
            Json::Number { value, .. } => *value,
            _ => None,
        }
    }

    pub fn text_of(&self, key: &str) -> (r: Option<&str>)
        ensures
            match r {
                Some(s) => self.text_at(key@) == Some(s@),
                None => self.text_at(key@) is None,
            },
    {
        match self.get(key) {
            Some(v) => v.as_text(),
            None => None,
        }
    }

    pub fn u64_of(&self, key: &str) -> (r: Option<u64>)
        ensures
            r == self.u64_at(key@),
    {
        match self.get(key) {
            Some(v) => v.as_u64(),
            None => None,
        }
    }

    pub fn u16_of(&self, key: &str) -> (r: Option<u16>)
        ensures
            r == self.u16_at(key@),
    {
        match self.u64_of(key) {
            Some(v) => if v <= u16::MAX as u64 {
                Some(v as u16)
            } else {
                None
            },
            None => None,
        }
    }

    pub fn items_of(&self, key: &str) -> (r: &[Json])
        ensures
            r@ == self.items_at(key@),
    {
        match self.get(key) {
            Some(v) => match v.as_array() {
                Some(items) => items.as_slice(),
                None => &[],
            },
            None => &[],
        }
    }
}

/// The position of the first member called `key` at or after `from`.
pub open spec fn member_at(fields: Seq<(Seq<char>, Tree)>, key: Seq<char>, from: int) -> Option<int>
    decreases fields.len() - from,
{
    if from < 0 || from >= fields.len() {
        None
    } else if fields[from].0 == key {
        Some(from)
    } else {
        member_at(fields, key, from + 1)
    }
}

impl Tree {
    /// The member of an object called `key`.
    pub open spec fn member(self, key: Seq<char>) -> Option<Tree> {
        match self {
            Tree::Object(fields) => match member_at(fields, key, 0) {
                Some(k) => Some(fields[k].1),
                None => None,
            },
            _ => None,
        }
    }

    /// The object with its member called `key` replaced, or with one more where it had
    /// none. Nothing counts as an object without members; what is no object stays.
    pub open spec fn with_member(self, key: Seq<char>, value: Tree) -> Tree {
        match self {
            Tree::Null => Tree::Object(seq![(key, value)]),
            Tree::Object(fields) => match member_at(fields, key, 0) {
                Some(k) => Tree::Object(fields.update(k, (key, value))),
                None => Tree::Object(fields.push((key, value))),
            },
            _ => self,
        }
    }
}

proof fn lemma_member_at(fields: Seq<(Seq<char>, Tree)>, key: Seq<char>, from: int)
    requires
        0 <= from,
    ensures
        match member_at(fields, key, from) {
            Some(k) => from <= k < fields.len() && fields[k].0 == key && forall|j: int|
                from <= j < k ==> (#[trigger] fields[j]).0 != key,
            None => forall|j: int| from <= j < fields.len() ==> (#[trigger] fields[j]).0 != key,
        },
    decreases fields.len() - from,
{
    if from < fields.len() && fields[from].0 != key {
        lemma_member_at(fields, key, from + 1);
    }
}

proof fn lemma_member_is_at(fields: Seq<(Seq<char>, Tree)>, key: Seq<char>, from: int, k: int)
    requires
        0 <= from <= k < fields.len(),
        fields[k].0 == key,
        forall|j: int| from <= j < k ==> (#[trigger] fields[j]).0 != key,
    ensures
        member_at(fields, key, from) == Some(k),
    decreases k - from,
{
    if from < k {
        lemma_member_is_at(fields, key, from + 1, k);
    }
}

/// A member that was set is found, and every other one is as it was.
pub proof fn lemma_members_after(object: Tree, key: Seq<char>, value: Tree, other: Seq<char>)
    requires
        object is Null || object is Object,
    ensures
        object.with_member(key, value).member(key) == Some(value),
        other != key ==> object.with_member(key, value).member(other) == object.member(other),
{
    let fields = match object {
        Tree::Object(fields) => fields,
        _ => seq![],
    };
    let after = object.with_member(key, value)->Object_0;
    lemma_member_at(fields, key, 0);
    lemma_member_at(fields, other, 0);
    lemma_member_at(after, other, 0);
    let k = match member_at(fields, key, 0) {
        Some(k) => k,
        None => fields.len() as int,
    };
    assert(after[k] == (key, value));
    assert forall|j: int| 0 <= j < fields.len() && j != k implies #[trigger] after[j]
        == fields[j] by {}
    lemma_member_is_at(after, key, 0, k);
    if other != key {
        match member_at(fields, other, 0) {
            Some(m) => {
                assert forall|j: int| 0 <= j < m implies (#[trigger] after[j]).0 != other by {
                    assert(fields[j].0 != other);
                }
                lemma_member_is_at(after, other, 0, m);
            },
            None => {
                match member_at(after, other, 0) {
                    Some(m) => {
                        assert(after[m].0 == other);
                        assert(fields[m].0 != other);
                    },
                    None => {},
                }
            },
        }
    }
}

proof fn lemma_field_is_member(fields: Seq<(String, Json)>, key: Seq<char>, from: int)
    requires
        0 <= from,
    ensures
        field_at(fields, key, from) == member_at(member_trees(fields), key, from),
        match field_at(fields, key, from) {
            Some(k) => 0 <= k < fields.len(),
            None => true,
        },
    decreases fields.len() - from,
{
    if from < fields.len() {
        assert(member_trees(fields)[from].0 == fields[from].0@);
        lemma_field_is_member(fields, key, from + 1);
    }
}

/// What is read of an object is what its members are.
pub proof fn lemma_get_is_member(value: Json, key: Seq<char>)
    ensures
        value.tree().member(key) == (match value.get_spec(key) {
            Some(v) => Some(v.tree()),
            None => None,
        }),
{
    match value {
        Json::Object(fields) => {
            lemma_object_tree(fields);
            lemma_field_is_member(fields@, key, 0);
        },
        _ => {},
    }
}

/// The object with a member replaced, or with one more.
pub fn set_member(object: Json, key: &str, value: Json) -> (r: Json)
    ensures
        r.tree() == object.tree().with_member(key@, value.tree()),
{
    match object {
        Json::Null => {
            let mut fields: Vec<(String, Json)> = Vec::new();
            fields.push((key.to_owned(), value));
            proof {
                lemma_object_tree(fields);
                assert(member_trees(fields@) =~= seq![(key@, value.tree())]);
            }
            Json::Object(fields)
        },
        Json::Object(fields) => {
            let mut fields = fields;
            let ghost before = member_trees(fields@);
            proof {
                lemma_object_tree(fields);
            }
            let mut i: usize = 0;
            while i < fields.len() && !same_str(fields[i].0.as_str(), key)
                invariant
                    i <= fields.len(),
                    before == member_trees(fields@),
                    before.len() == fields@.len(),
                    member_at(before, key@, 0) == member_at(before, key@, i as int),
                decreases fields.len() - i,
            {
                assert(before[i as int].0 == fields@[i as int].0@);
                i = i + 1;
            }
            if i < fields.len() {
                assert(before[i as int].0 == fields@[i as int].0@);
                fields.set(i, (key.to_owned(), value));
                proof {
                    lemma_object_tree(fields);
                    assert(member_trees(fields@) =~= before.update(i as int, (key@, value.tree())));
                }
            } else {
                fields.push((key.to_owned(), value));
                proof {
                    lemma_object_tree(fields);
                    assert(member_trees(fields@) =~= before.push((key@, value.tree())));
                }
            }
            Json::Object(fields)
        },
        other => other,
    }
}

} // verus!
