//! JSON values, as far as a PipeWire object dump is read.
use vstd::prelude::*;

use crate::text::same_text;

verus! {

/// A JSON value.
#[derive(Debug, PartialEq, Eq)]
pub enum Json {
    Null,
    Bool(bool),
    /// A number, with its value where that is a non-negative integer of 64 bits.
    Number(Option<u64>),
    Text(String),
    Array(Vec<Json>),
    /// Keys and values of an object.
    Object(Vec<(String, Json)>),
}

/// What a [`Json`] value stands for.
pub enum JsonTree {
    Null,
    Bool(bool),
    Number(Option<u64>),
    Text(Seq<char>),
    Array(Seq<JsonTree>),
    Object(Seq<(Seq<char>, JsonTree)>),
}

impl View for Json {
    type V = JsonTree;

    open spec fn view(&self) -> JsonTree {
        tree(*self)
    }
}

/// The tree that `json` stands for.
pub open spec fn tree(json: Json) -> JsonTree
    decreases json,
{
    match json {
        Json::Null => JsonTree::Null,
        Json::Bool(b) => JsonTree::Bool(b),
        Json::Number(n) => JsonTree::Number(n),
        Json::Text(s) => JsonTree::Text(s@),
        Json::Array(items) => JsonTree::Array(
            Seq::new(
                items@.len(),
                |i: int|
                    if 0 <= i < items@.len() {
                        tree(items@[i])
                    } else {
                        JsonTree::Null
                    },
            ),
        ),
        Json::Object(entries) => JsonTree::Object(
            Seq::new(
                entries@.len(),
                |i: int|
                    if 0 <= i < entries@.len() {
                        (entries@[i].0@, tree(entries@[i].1))
                    } else {
                        (Seq::empty(), JsonTree::Null)
                    },
            ),
        ),
    }
}

/// The value that an object's entries hold under `key`.
pub open spec fn entry(entries: Seq<(Seq<char>, JsonTree)>, key: Seq<char>) -> Option<JsonTree>
    decreases entries.len(),
{
    if entries.len() == 0 {
        None
    } else if entries.first().0 == key {
        Some(entries.first().1)
    } else {
        entry(entries.drop_first(), key)
    }
}

impl JsonTree {
    /// The value under `key`, where this is an object that has it.
    pub open spec fn get(self, key: Seq<char>) -> Option<JsonTree> {
        match self {
            JsonTree::Object(entries) => entry(entries, key),
            _ => None,
        }
    }

    /// The text, where this is a text.
    pub open spec fn as_text(self) -> Option<Seq<char>> {
        match self {
            JsonTree::Text(s) => Some(s),
            _ => None,
        }
    }

    /// The text under `key`, where this is an object that has a text there.
    pub open spec fn text_at(self, key: Seq<char>) -> Option<Seq<char>> {
        match self.get(key) {
            Some(value) => value.as_text(),
            None => None,
        }
    }
}

/// A value of serde_json's tree of JSON values.
#[verifier::external_type_specification]
#[verifier::external_body]
pub struct ExValue(serde_json::Value);

/// The reason why serde_json refused a text.
#[verifier::external_type_specification]
#[verifier::external_body]
pub struct ExParseError(serde_json::Error);

/// What a tree of serde_json holds: a number by its value as a `u64` where it
/// has one, an object by its keys and values in the order in which its map is
/// walked, everything else as it is.
pub uninterp spec fn held_by(value: serde_json::Value) -> JsonTree;

/// What `serde_json::from_slice` makes of `bytes`; nothing where it refuses them.
pub uninterp spec fn parsed(bytes: Seq<u8>) -> Option<JsonTree>;

/// Calls `serde_json::from_slice` for a tree of JSON values. Whether `bytes` are
/// accepted, and the tree they stand for, depend on the bytes alone.
#[verifier::external_body]
fn value_from_slice(bytes: &[u8]) -> (r: Result<serde_json::Value, serde_json::Error>)
    ensures
        (match r {
            Ok(value) => parsed(bytes@) == Some(held_by(value)),
            Err(_) => parsed(bytes@) is None,
        }),
{
    serde_json::from_slice(bytes)
}

/// Turns a tree of serde_json into a [`Json`], variant by variant; a number is
/// kept by what `serde_json::Number::as_u64` returns of it. The result holds what
/// the tree holds. The tree comes from parsing, which nests no deeper than
/// serde_json's limit.
#[verifier::external_body]
fn json_from_value(value: serde_json::Value) -> (r: Json)
    requires
        exists|bytes: Seq<u8>| #[trigger] parsed(bytes) == Some(held_by(value)),
    ensures
        r@ == held_by(value),
{
    match value {
        serde_json::Value::Null => Json::Null,
        serde_json::Value::Bool(b) => Json::Bool(b),
        serde_json::Value::Number(n) => Json::Number(n.as_u64()),
        serde_json::Value::String(s) => Json::Text(s),
        serde_json::Value::Array(items) => Json::Array(
            items.into_iter().map(json_from_value).collect(),
        ),
        serde_json::Value::Object(entries) => Json::Object(
            entries.into_iter().map(|(key, item)| (key, json_from_value(item))).collect(),
        ),
    }
}

/// Parses `bytes` as one JSON value; nothing where they are not JSON.
pub fn parse_json(bytes: &[u8]) -> (r: Option<Json>)
    ensures
        (match r {
            Some(json) => parsed(bytes@) == Some(json@),
            None => parsed(bytes@) is None,
        }),
{
    match value_from_slice(bytes) {
        Ok(value) => Some(json_from_value(value)),
        Err(_) => None,
    }
}

impl Json {
    /// The value under `key`, where this is an object that has it.
    pub fn get(&self, key: &str) -> (r: Option<&Json>)
        ensures
            (match r {
                Some(value) => self@.get(key@) == Some(value@),
                None => self@.get(key@) is None,
            }),
    {
        match self {
            Json::Object(entries) => {
                let ghost all = self@->Object_0;
                let mut i: usize = 0;
                assert(all.skip(0) =~= all);
                while i < entries.len()
                    invariant
                        self == Json::Object(*entries),
                        self@ == JsonTree::Object(all),
                        i <= entries.len(),
                        self@.get(key@) == entry(all.skip(i as int), key@),
                    decreases entries.len() - i,
                {
                    assert(all[i as int] == (entries@[i as int].0@, entries@[i as int].1@));
                    if same_text(entries[i].0.as_str(), key) {
                        return Some(&entries[i].1);
                    }
                    assert(all.skip(i as int).drop_first() =~= all.skip(i + 1));
                    i += 1;
                }
                None
            },
            _ => None,
        }
    }

    /// The text, where this is a text.
    pub fn as_text(&self) -> (r: Option<&str>)
        ensures
            (match r {
                Some(text) => self@.as_text() == Some(text@),
                None => self@.as_text() is None,
            }),
    {
        match self {
            Json::Text(text) => Some(text.as_str()),
            _ => None,
        }
    }

    /// The text under `key`, where this is an object that has a text there.
    pub fn text_at(&self, key: &str) -> (r: Option<&str>)
        ensures
            (match r {
                Some(text) => self@.text_at(key@) == Some(text@),
                None => self@.text_at(key@) is None,
            }),
    {
        match self.get(key) {
            Some(value) => value.as_text(),
            None => None,
        }
    }

    /// Whether this is an object that has the text `text` under `key`.
    pub fn has_text_at(&self, key: &str, text: &str) -> (r: bool)
        ensures
            r == (self@.text_at(key@) == Some(text@)),
    {
        match self.text_at(key) {
            Some(found) => same_text(found, text),
            None => false,
        }
    }
}

/// The tree of a value mirrors it: kind by kind, an array item by item and an object
/// entry by entry, in order.
pub proof fn trees_mirror_values(json: Json)
    ensures
        match json {
            Json::Null => json@ == JsonTree::Null,
            Json::Bool(b) => json@ == JsonTree::Bool(b),
            Json::Number(n) => json@ == JsonTree::Number(n),
            Json::Text(s) => json@ == JsonTree::Text(s@),
            Json::Array(items) => {
                &&& json@ is Array
                &&& json@->Array_0.len() == items@.len()
                &&& forall|i: int|
                    0 <= i < items@.len() ==> #[trigger] json@->Array_0[i] == items@[i]@
            },
            Json::Object(entries) => {
                &&& json@ is Object
                &&& json@->Object_0.len() == entries@.len()
                &&& forall|i: int|
                    0 <= i < entries@.len() ==> #[trigger] json@->Object_0[i] == (
                        entries@[i].0@,
                        entries@[i].1@,
                    )
            },
        },
{
}

/// Looking up a key of an object gives the value of the first entry that has the key.
pub proof fn lookup_finds_the_first_entry(
    entries: Seq<(Seq<char>, JsonTree)>,
    key: Seq<char>,
    i: int,
)
    requires
        0 <= i < entries.len(),
        entries[i].0 == key,
        forall|j: int| 0 <= j < i ==> (#[trigger] entries[j]).0 != key,
    ensures
        JsonTree::Object(entries).get(key) == Some(entries[i].1),
    decreases entries.len(),
{
    if i > 0 {
        let rest = entries.drop_first();
        assert(entries[0].0 != key);
        assert forall|j: int| 0 <= j < i - 1 implies (#[trigger] rest[j]).0 != key by {
            assert(rest[j] == entries[j + 1]);
        }
        lookup_finds_the_first_entry(rest, key, i - 1);
        assert(JsonTree::Object(rest).get(key) == entry(rest, key));
    }
}

/// Looking up a key finds nothing in an object that has no entry with it, and nothing in
/// a value that is no object.
pub proof fn lookup_finds_nothing_else(value: JsonTree, key: Seq<char>)
    requires
        value matches JsonTree::Object(entries) ==> forall|i: int|
            0 <= i < entries.len() ==> (#[trigger] entries[i]).0 != key,
    ensures
        value.get(key) is None,
        value.text_at(key) is None,
{
    if let JsonTree::Object(entries) = value {
        no_entry_has_the_key(entries, key);
    }
}

proof fn no_entry_has_the_key(entries: Seq<(Seq<char>, JsonTree)>, key: Seq<char>)
    requires
        forall|i: int| 0 <= i < entries.len() ==> (#[trigger] entries[i]).0 != key,
    ensures
        entry(entries, key) is None,
    decreases entries.len(),
{
    if entries.len() > 0 {
        let rest = entries.drop_first();
        assert(entries[0].0 != key);
        assert forall|i: int| 0 <= i < rest.len() implies (#[trigger] rest[i]).0 != key by {
            assert(rest[i] == entries[i + 1]);
        }
        no_entry_has_the_key(rest, key);
    }
}

/// A text under a key is the text of the value there; a value of another kind is none.
pub proof fn texts_are_looked_up_by_kind(value: JsonTree, key: Seq<char>, text: Seq<char>)
    ensures
        value.text_at(key) == Some(text) <==> value.get(key) == Some(JsonTree::Text(text)),
        value.as_text() == Some(text) <==> value == JsonTree::Text(text),
{
}

} // verus!
