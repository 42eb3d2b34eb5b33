//! JSON documents as the library reads them.

use crate::text::same_text;
use serde_json::Value;
use vstd::prelude::*;
use vstd::string::*;

verus! {

broadcast use vstd::string::group_string_axioms;

/// A parsed JSON value of the `serde_json` crate. What it holds is named by
/// `json_content`.
#[verifier::external_type_specification]
#[verifier::external_body]
pub struct ExValue(serde_json::Value);

/// A JSON value. The digits of numbers are not kept: nothing reads them.
#[derive(Debug)]
pub enum Json {
    Null,
    Bool(bool),
    Number,
    Text(String),
    List(Vec<Json>),
    Object(Vec<(String, Json)>),
}

/// A JSON value, as characters and sequences.
pub enum JsonModel {
    Null,
    Bool(bool),
    Number,
    Text(Seq<char>),
    List(Seq<JsonModel>),
    Object(Seq<(Seq<char>, JsonModel)>),
}

impl Json {
    /// What a value stands for.
    pub open spec fn model(self) -> JsonModel
        decreases self,
    {
        match self {
            Json::Null => JsonModel::Null,
            Json::Bool(b) => JsonModel::Bool(b),
            Json::Number => JsonModel::Number,
            Json::Text(text) => JsonModel::Text(text@),
            Json::List(items) => JsonModel::List(
                Seq::new(
                    items@.len(),
                    |i: int|
                        if 0 <= i < items@.len() {
                            items@[i].model()
                        } else {
                            JsonModel::Null
                        },
                ),
            ),
            Json::Object(entries) => JsonModel::Object(
                Seq::new(
                    entries@.len(),
                    |i: int|
                        if 0 <= i < entries@.len() {
                            (entries@[i].0@, entries@[i].1.model())
                        } else {
                            (Seq::empty(), JsonModel::Null)
                        },
                ),
            ),
        }
    }
}

/// What a parsed value of the `serde_json` crate holds.
pub uninterp spec fn json_content(value: Value) -> JsonModel;

/// What a value holds, one level deep.
enum Node<'a> {
    Null,
    Bool(bool),
    Number,
    Text(&'a str),
    List(Vec<&'a Value>),
    Object(Vec<(&'a String, &'a Value)>),
}

/// Tells the variants of `serde_json::Value` apart and hands out what each
/// holds: the characters of a string, the items of an array in order, the
/// entries of an object in the order in which its map is walked.
#[verifier::external_body]
fn node_of<'a>(value: &'a Value) -> (r: Node<'a>)
    ensures
        match r {
            Node::Null => json_content(*value) == JsonModel::Null,
            Node::Bool(b) => json_content(*value) == JsonModel::Bool(b),
            Node::Number => json_content(*value) == JsonModel::Number,
            Node::Text(text) => json_content(*value) == JsonModel::Text(text@),
            Node::List(items) => json_content(*value) == JsonModel::List(
                items@.map_values(|v: &Value| json_content(*v)),
            ),
            Node::Object(entries) => json_content(*value) == JsonModel::Object(
                entries@.map_values(|e: (&String, &Value)| (e.0@, json_content(*e.1))),
            ),
        },
{
    match value {
        Value::Null => Node::Null,
        Value::Bool(b) => Node::Bool(*b),
        Value::Number(_) => Node::Number,
        Value::String(text) => Node::Text(text),
        Value::Array(items) => Node::List(items.iter().collect()),
        Value::Object(entries) => Node::Object(entries.iter().collect()),
    }
}

/// Reads a parsed value of the `serde_json` crate.
pub fn from_value(value: &Value) -> (r: Json)
    ensures
        r.model() == json_content(*value),
    decreases json_content(*value),
{
    match node_of(value) {
        Node::Null => Json::Null,
        Node::Bool(b) => Json::Bool(b),
        Node::Number => Json::Number,
        Node::Text(text) => Json::Text(text.to_string()),
        Node::List(items) => {
            let mut list: Vec<Json> = Vec::new();
            let mut i: usize = 0;
            let ghost all = items@.map_values(|v: &Value| json_content(*v));
            while i < items.len()
                invariant
                    i <= items.len(),
                    list@.len() == i,
                    all == items@.map_values(|v: &Value| json_content(*v)),
                    json_content(*value) == JsonModel::List(all),
                    forall|k: int| 0 <= k < i ==> (#[trigger] list@[k]).model() == all[k],
                decreases items.len() - i,
            {
                assert(all[i as int] == json_content(*items@[i as int]));
                assert(decreases_to!(json_content(*value) => json_content(*value)->List_0));
                assert(decreases_to!(all => all[i as int]));
                list.push(from_value(items[i]));
                i += 1;
            }
            let r = Json::List(list);
            assert(r.model()->List_0 =~= all);
            r
        },
        Node::Object(entries) => {
            let mut list: Vec<(String, Json)> = Vec::new();
            let mut i: usize = 0;
            let ghost all = entries@.map_values(
                |e: (&String, &Value)| (e.0@, json_content(*e.1)),
            );
            while i < entries.len()
                invariant
                    i <= entries.len(),
                    list@.len() == i,
                    all == entries@.map_values(
                        |e: (&String, &Value)| (e.0@, json_content(*e.1)),
                    ),
                    json_content(*value) == JsonModel::Object(all),
                    forall|k: int|
                        0 <= k < i ==> (#[trigger] list@[k]).0@ == all[k].0 && list@[k].1.model()
                            == all[k].1,
                decreases entries.len() - i,
            {
                assert(all[i as int] == (
                    entries@[i as int].0@,
                    json_content(*entries@[i as int].1),
                ));
                assert(decreases_to!(json_content(*value) => json_content(*value)->Object_0));
                assert(decreases_to!(all => all[i as int]));
                assert(decreases_to!(all[i as int] => all[i as int].1));
                list.push((entries[i].0.clone(), from_value(entries[i].1)));
                i += 1;
            }
            let r = Json::Object(list);
            assert(r.model()->Object_0 =~= all);
            r
        },
    }
}

// ---------------------------------------------------------------------------
// Parsing
// ---------------------------------------------------------------------------
/// What parsing bytes as JSON gives: a value, or the text of the error.
pub uninterp spec fn json_of_bytes(bytes: Seq<u8>) -> Result<JsonModel, Seq<char>>;

/// What parsing a text as JSON gives: a value, or the text of the error.
pub uninterp spec fn json_of_text(text: Seq<char>) -> Result<JsonModel, Seq<char>>;

/// `serde_json::from_slice` parses bytes as one JSON value, or fails with an
/// error whose text is handed on; both depend on the bytes alone.
#[verifier::external_body]
fn value_of_bytes(bytes: &[u8]) -> (r: Result<Value, String>)
    ensures
        match r {
            Ok(value) => json_of_bytes(bytes@) == Ok::<JsonModel, Seq<char>>(json_content(value)),
            Err(error) => json_of_bytes(bytes@) == Err::<JsonModel, Seq<char>>(error@),
        },
{
    serde_json::from_slice(bytes).map_err(|e| e.to_string())
}

/// `serde_json::from_str` parses a text as one JSON value, or fails with an
/// error whose text is handed on; both depend on the text alone.
#[verifier::external_body]
fn value_of_text(text: &str) -> (r: Result<Value, String>)
    ensures
        match r {
            Ok(value) => json_of_text(text@) == Ok::<JsonModel, Seq<char>>(json_content(value)),
            Err(error) => json_of_text(text@) == Err::<JsonModel, Seq<char>>(error@),
        },
{
    serde_json::from_str(text).map_err(|e| e.to_string())
}

/// A parse result, as characters and sequences.
pub open spec fn parse_model(r: Result<Json, String>) -> Result<JsonModel, Seq<char>> {
    match r {
        Ok(json) => Ok(json.model()),
        Err(error) => Err(error@),
    }
}

/// Parses bytes as JSON.
pub fn read_json(bytes: &[u8]) -> (r: Result<Json, String>)
    ensures
        parse_model(r) == json_of_bytes(bytes@),
{
    match value_of_bytes(bytes) {
        Ok(value) => Ok(from_value(&value)),
        Err(error) => Err(error),
    }
}

/// Parses a text as JSON.
pub fn read_json_text(text: &str) -> (r: Result<Json, String>)
    ensures
        parse_model(r) == json_of_text(text@),
{
    match value_of_text(text) {
        Ok(value) => Ok(from_value(&value)),
        Err(error) => Err(error),
    }
}

// ---------------------------------------------------------------------------
// Looking inside
// ---------------------------------------------------------------------------
/// The value under a key, in entries.
pub open spec fn entry_of(entries: Seq<(Seq<char>, JsonModel)>, key: Seq<char>) -> Option<JsonModel>
    decreases entries.len(),
{
    if entries.len() == 0 {
        None
    } else if entries[0].0 == key {
        Some(entries[0].1)
    } else {
        entry_of(entries.drop_first(), key)
    }
}

impl JsonModel {
    /// The value under a key; none where the value is no object.
    pub open spec fn at_key(self, key: Seq<char>) -> Option<JsonModel> {
        match self {
            JsonModel::Object(entries) => entry_of(entries, key),
            _ => None,
        }
    }

    /// The first item; none where the value is no list.
    pub open spec fn first_item(self) -> Option<JsonModel> {
        match self {
            JsonModel::List(items) if items.len() > 0 => Some(items[0]),
            _ => None,
        }
    }

    /// The characters of a string; none where the value is none.
    pub open spec fn characters(self) -> Option<Seq<char>> {
        match self {
            JsonModel::Text(text) => Some(text),
            _ => None,
        }
    }

    /// The items of a list; none where the value is none.
    pub open spec fn items(self) -> Option<Seq<JsonModel>> {
        match self {
            JsonModel::List(items) => Some(items),
            _ => None,
        }
    }
}

/// What a borrowed value stands for.
pub open spec fn opt_model(value: Option<&Json>) -> Option<JsonModel> {
    match value {
        Some(json) => Some(json.model()),
        None => None,
    }
}

impl Json {
    /// The value under a key; none where the value is no object.
    pub fn get(&self, key: &str) -> (r: Option<&Json>)
        ensures
            opt_model(r) == self.model().at_key(key@),
    {
        match self {
            Json::Object(entries) => {
                let ghost all = self.model()->Object_0;
                let mut i: usize = 0;
                assert(all.skip(0) =~= all);
                while i < entries.len()
                    invariant
                        i <= entries.len(),
                        self.model() == JsonModel::Object(all),
                        all.len() == entries.len(),
                        forall|k: int|
                            0 <= k < all.len() ==> #[trigger] all[k] == (
                                entries@[k].0@,
                                entries@[k].1.model(),
                            ),
                        entry_of(all.skip(i as int), key@) == entry_of(all, key@),
                    decreases entries.len() - i,
                {
                    assert(all.skip(i as int)[0] == all[i as int]);
                    if same_text(entries[i].0.as_str(), key) {
                        return Some(&entries[i].1);
                    }
                    assert(all.skip(i as int).drop_first() =~= all.skip(i + 1));
                    i += 1;
                }
                None
            },
            _ => None,
        }
    }

    /// The first item; none where the value is no list.
    pub fn first(&self) -> (r: Option<&Json>)
        ensures
            opt_model(r) == self.model().first_item(),
    {
        match self {
            Json::List(items) => {
                if items.len() > 0 {
                    Some(&items[0])
                } else {
                    None
                }
            },
            _ => None,
        }
    }

    /// The characters of a string; none where the value is none.
    pub fn as_str(&self) -> (r: Option<&str>)
        ensures
            crate::options::opt_view(r) == self.model().characters(),
    {
        match self {
            Json::Text(text) => Some(text.as_str()),
            _ => None,
        }
    }

    /// The items of a list; none where the value is none.
    pub fn as_list(&self) -> (r: Option<&Vec<Json>>)
        ensures
            match r {
                Some(items) => self.model().items() == Some(models(items@)),
                None => self.model().items() is None,
            },
    {
        match self {
            Json::List(items) => {
                assert(self.model()->List_0 =~= models(items@));
                Some(items)
            },
            _ => None,
        }
    }
}

/// What each of several values stands for.
pub open spec fn models(items: Seq<Json>) -> Seq<JsonModel> {
    items.map_values(|item: Json| item.model())
}

// ---------------------------------------------------------------------------
// What is promised of values
// ---------------------------------------------------------------------------
/// In an object, the value under a key is that of the first entry with it.
pub proof fn law_values_are_found_by_their_keys(
    entries: Seq<(Seq<char>, JsonModel)>,
    key: Seq<char>,
    i: int,
)
    requires
        0 <= i < entries.len(),
        entries[i].0 == key,
        forall|j: int| 0 <= j < i ==> (#[trigger] entries[j]).0 != key,
    ensures
        JsonModel::Object(entries).at_key(key) == Some(entries[i].1),
    decreases entries.len(),
{
    if i > 0 {
        assert(entries[0].0 != key);
        let rest = entries.drop_first();
        assert forall|j: int| 0 <= j < i - 1 implies (#[trigger] rest[j]).0 != key by {
            assert(rest[j] == entries[j + 1]);
        }
        law_values_are_found_by_their_keys(rest, key, i - 1);
    }
}

/// An object without a key has nothing under it.
pub proof fn law_missing_keys_are_not_found(
    entries: Seq<(Seq<char>, JsonModel)>,
    key: Seq<char>,
)
    requires
        forall|j: int| 0 <= j < entries.len() ==> (#[trigger] entries[j]).0 != key,
    ensures
        JsonModel::Object(entries).at_key(key) is None,
    decreases entries.len(),
{
    if entries.len() > 0 {
        assert(entries[0].0 != key);
        let rest = entries.drop_first();
        assert forall|j: int| 0 <= j < rest.len() implies (#[trigger] rest[j]).0 != key by {
            assert(rest[j] == entries[j + 1]);
        }
        law_missing_keys_are_not_found(rest, key);
    }
}

/// Strings have characters, lists have items and objects have keys, and no value
/// has what another has.
pub proof fn law_values_have_what_they_hold(
    text: Seq<char>,
    items: Seq<JsonModel>,
    entries: Seq<(Seq<char>, JsonModel)>,
    key: Seq<char>,
)
    ensures
        JsonModel::Text(text).characters() == Some(text),
        JsonModel::List(items).items() == Some(items),
        items.len() > 0 ==> JsonModel::List(items).first_item() == Some(items[0]),
        items.len() == 0 ==> JsonModel::List(items).first_item() is None,
        JsonModel::List(items).characters() is None,
        JsonModel::Object(entries).characters() is None,
        JsonModel::Null.characters() is None,
        JsonModel::Number.characters() is None,
        JsonModel::Text(text).items() is None,
        JsonModel::Object(entries).items() is None,
        JsonModel::Text(text).first_item() is None,
        JsonModel::Object(entries).first_item() is None,
        JsonModel::Text(text).at_key(key) is None,
        JsonModel::List(items).at_key(key) is None,
        JsonModel::Null.at_key(key) is None,
{
}

/// Values stand for what they hold, however deep.
pub proof fn law_values_stand_for_what_they_hold(
    text: String,
    items: Vec<Json>,
    entries: Vec<(String, Json)>,
    i: int,
)
    ensures
        Json::Text(text).model() == JsonModel::Text(text@),
        Json::Null.model() == JsonModel::Null,
        Json::Number.model() == JsonModel::Number,
        Json::List(items).model() == JsonModel::List(models(items@)),
        0 <= i < items@.len() ==> models(items@)[i] == items@[i].model(),
        models(items@).len() == items@.len(),
        Json::Object(entries).model() == JsonModel::Object(
            Seq::new(entries@.len(), |k: int| (entries@[k].0@, entries@[k].1.model())),
        ),
{
    assert(Json::List(items).model()->List_0 =~= models(items@));
    assert(Json::Object(entries).model()->Object_0 =~= Seq::new(
        entries@.len(),
        |k: int| (entries@[k].0@, entries@[k].1.model()),
    ));
}

/// What parsing gives is handed on as it is.
pub proof fn law_parse_results_stand_for_what_they_hold(json: Json, error: String)
    ensures
        parse_model(Ok(json)) == Ok::<JsonModel, Seq<char>>(json.model()),
        parse_model(Err(error)) == Err::<JsonModel, Seq<char>>(error@),
        opt_model(Some(&json)) == Some(json.model()),
        opt_model(None) is None,
{
}

} // verus!
