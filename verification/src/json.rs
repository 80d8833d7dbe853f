//! JSON values as the library reads and builds them.

use crate::strings;
use crate::strings::{same, unsigned};
use vstd::prelude::*;

verus! {

/// A JSON value. A number is kept as its text.
#[derive(Debug, PartialEq, Eq)]
pub enum Json {
    Null,
    Bool(bool),
    Number(String),
    Text(String),
    List(Vec<Json>),
    Object(Vec<(String, Json)>),
}

/// What a JSON value holds.
pub ghost enum JsonView {
    Null,
    Bool(bool),
    Number(Seq<char>),
    Text(Seq<char>),
    List(Seq<JsonView>),
    Object(Seq<(Seq<char>, JsonView)>),
}

impl View for Json {
    type V = JsonView;

    open spec fn view(&self) -> JsonView
        decreases self,
    {
        match self {
            Json::Null => JsonView::Null,
            Json::Bool(value) => JsonView::Bool(*value),
            Json::Number(text) => JsonView::Number(text@),
            Json::Text(text) => JsonView::Text(text@),
            Json::List(items) => JsonView::List(
                Seq::new(
                    items@.len(),
                    |i: int|
                        if 0 <= i < items@.len() {
                            items@[i].view()
                        } else {
                            JsonView::Null
                        },
                ),
            ),
            Json::Object(fields) => JsonView::Object(
                Seq::new(
                    fields@.len(),
                    |i: int|
                        (
                            fields@[i].0@,
                            if 0 <= i < fields@.len() {
                                fields@[i].1.view()
                            } else {
                                JsonView::Null
                            },
                        ),
                ),
            ),
        }
    }
}

/// The value of the first of `fields` that is called `key`.
pub open spec fn member(fields: Seq<(Seq<char>, JsonView)>, key: Seq<char>, from: int) -> Option<
    JsonView,
>
    decreases fields.len() - from,
{
    if from < 0 || from >= fields.len() {
        None
    } else if fields[from].0 == key {
        Some(fields[from].1)
    } else {
        member(fields, key, from + 1)
    }
}

/// A field is found under its name, where none before it has that name, and nothing is found
/// under a name that no field has.
pub proof fn law_a_field_is_found_under_its_name(
    fields: Seq<(Seq<char>, JsonView)>,
    key: Seq<char>,
    i: int,
)
    requires
        0 <= i <= fields.len(),
        forall|j: int| #![trigger fields[j]] 0 <= j < i ==> fields[j].0 != key,
        i < fields.len() ==> fields[i].0 == key,
    ensures
        JsonView::Object(fields).get(key) == if i < fields.len() {
            Some(fields[i].1)
        } else {
            None
        },
{
    lemma_member_from(fields, key, 0, i);
}

proof fn lemma_member_from(fields: Seq<(Seq<char>, JsonView)>, key: Seq<char>, from: int, i: int)
    requires
        0 <= from <= i <= fields.len(),
        forall|j: int| #![trigger fields[j]] 0 <= j < i ==> fields[j].0 != key,
        i < fields.len() ==> fields[i].0 == key,
    ensures
        member(fields, key, from) == if i < fields.len() {
            Some(fields[i].1)
        } else {
            None
        },
    decreases i - from,
{
    if from < i {
        assert(fields[from].0 != key);
        lemma_member_from(fields, key, from + 1, i);
    }
}

impl JsonView {
    pub open spec fn get(self, key: Seq<char>) -> Option<JsonView> {
        match self {
            JsonView::Object(fields) => member(fields, key, 0),
            _ => None,
        }
    }

    /// The field of that name, or null.
    pub open spec fn at(self, key: Seq<char>) -> JsonView {
        match self.get(key) {
            Some(value) => value,
            None => JsonView::Null,
        }
    }

    pub open spec fn text(self) -> Option<Seq<char>> {
        match self {
            JsonView::Text(text) => Some(text),
            _ => None,
        }
    }

    /// The text, or nothing where the value is none.
    pub open spec fn text_or_empty(self) -> Seq<char> {
        match self {
            JsonView::Text(text) => text,
            _ => Seq::empty(),
        }
    }

    pub open spec fn bool(self) -> Option<bool> {
        match self {
            JsonView::Bool(value) => Some(value),
            _ => None,
        }
    }

    pub open spec fn list(self) -> Option<Seq<JsonView>> {
        match self {
            JsonView::List(items) => Some(items),
            _ => None,
        }
    }

    pub open spec fn unsigned(self) -> Option<nat> {
        match self {
            JsonView::Number(text) => strings::unsigned_value(text, u64::MAX as nat),
            _ => None,
        }
    }
}

pub open spec fn views(items: Seq<Json>) -> Seq<JsonView> {
    items.map_values(|item: Json| item@)
}

pub open spec fn field_views(fields: Seq<(String, Json)>) -> Seq<(Seq<char>, JsonView)> {
    fields.map_values(|field: (String, Json)| (field.0@, field.1@))
}

/// The view of a list or an object in terms of its parts.
pub proof fn lemma_views(value: Json)
    ensures
        value matches Json::List(items) ==> value@ == JsonView::List(views(items@)),
        value matches Json::Object(fields) ==> value@ == JsonView::Object(field_views(fields@)),
{
    match value {
        Json::List(items) => {
            assert(value@->List_0 =~= views(items@));
        },
        Json::Object(fields) => {
            let all = value@->Object_0;
            assert forall|i: int| 0 <= i < all.len() implies #[trigger] all[i] == field_views(
                fields@,
            )[i] by {
                assert(fields@[i].1@ == all[i].1);
            }
            assert(all =~= field_views(fields@));
        },
        _ => {},
    }
}

impl Json {
    pub fn get(&self, key: &str) -> (value: Option<&Json>)
        ensures
            match value {
                Some(value) => self@.get(key@) == Some(value@),
                None => self@.get(key@) is None,
            },
    {
        proof {
            lemma_views(*self);
        }
        match self {
            Json::Object(fields) => {
                let ghost all = field_views(fields@);
                let mut at: usize = 0;
                while at < fields.len()
                    invariant
                        at <= fields@.len(),
                        all == field_views(fields@),
                        self@.get(key@) == member(all, key@, 0),
                        member(all, key@, 0) == member(all, key@, at as int),
                    decreases fields@.len() - at,
                {
                    assert(all[at as int] == (fields@[at as int].0@, fields@[at as int].1@));
                    if same(fields[at].0.as_str(), key) {
                        return Some(&fields[at].1);
                    }
                    at += 1;
                }
                None
            },
            _ => None,
        }
    }

    pub fn as_str(&self) -> (text: Option<&str>)
        ensures
            match text {
                Some(text) => self@.text() == Some(text@),
                None => self@.text() is None,
            },
    {
        match self {
            Json::Text(text) => Some(text.as_str()),
            _ => None,
        }
    }

    pub fn as_bool(&self) -> (value: Option<bool>)
        ensures
            value == self@.bool(),
    {
        match self {
            Json::Bool(value) => Some(*value),
            _ => None,
        }
    }

    pub fn as_array(&self) -> (items: Option<&Vec<Json>>)
        ensures
            match items {
                Some(items) => self@.list() == Some(views(items@)),
                None => self@.list() is None,
            },
    {
        proof {
            lemma_views(*self);
        }
        match self {
            Json::List(items) => Some(items),
            _ => None,
        }
    }

    pub fn as_u64(&self) -> (value: Option<u64>)
        ensures
            match value {
                Some(value) => self@.unsigned() == Some(value as nat),
                None => self@.unsigned() is None,
            },
    {
        match self {
            Json::Number(text) => unsigned(text.as_str(), u64::MAX),
            _ => None,
        }
    }

    /// A value of its own that holds the same.
    pub fn copied(&self) -> (copy: Json)
        ensures
            copy@ == self@,
        decreases self,
    {
        proof {
            lemma_views(*self);
        }
        match self {
            Json::Null => Json::Null,
            Json::Bool(value) => Json::Bool(*value),
            Json::Number(text) => Json::Number(text.clone()),
            Json::Text(text) => Json::Text(text.clone()),
            Json::List(items) => {
                let mut copies: Vec<Json> = Vec::new();
                let mut at: usize = 0;
                while at < items.len()
                    invariant
                        at <= items@.len(),
                        self matches Json::List(own) && own == items,
                        views(copies@) == views(items@).take(at as int),
                    decreases items@.len() - at,
                {
                    assert(decreases_to!(*self => items@[at as int]));
                    let ghost before = copies@;
                    let copy = items[at].copied();
                    assert(copy@ == views(items@)[at as int]);
                    copies.push(copy);
                    assert(views(copies@) =~= views(before).push(copy@));
                    assert(views(copies@) =~= views(items@).take(at + 1));
                    at += 1;
                }
                assert(views(items@).take(at as int) =~= views(items@));
                sealed_list(copies)
            },
            Json::Object(fields) => {
                let mut copies: Vec<(String, Json)> = Vec::new();
                let mut at: usize = 0;
                while at < fields.len()
                    invariant
                        at <= fields@.len(),
                        self matches Json::Object(own) && own == fields,
                        field_views(copies@) == field_views(fields@).take(at as int),
                    decreases fields@.len() - at,
                {
                    assert(decreases_to!(*self => fields@[at as int]));
                    let ghost before = copies@;
                    let copy = fields[at].1.copied();
                    let key = fields[at].0.clone();
                    assert((key@, copy@) == field_views(fields@)[at as int]);
                    copies.push((key, copy));
                    assert(field_views(copies@) =~= field_views(before).push((key@, copy@)));
                    assert(field_views(copies@) =~= field_views(fields@).take(at + 1));
                    at += 1;
                }
                assert(field_views(fields@).take(at as int) =~= field_views(fields@));
                sealed(copies)
            },
        }
    }
}

// ---- Building values ----

pub fn text(value: &str) -> (json: Json)
    ensures
        json@ == JsonView::Text(value@),
{
    Json::Text(value.to_owned())
}

pub fn sealed_list(items: Vec<Json>) -> (json: Json)
    ensures
        json@ == JsonView::List(views(items@)),
{
    let json = Json::List(items);
    proof {
        lemma_views(json);
    }
    json
}

pub fn sealed(fields: Vec<(String, Json)>) -> (json: Json)
    ensures
        json@ == JsonView::Object(field_views(fields@)),
{
    let json = Json::Object(fields);
    proof {
        lemma_views(json);
    }
    json
}

/// Appends a field.
pub fn put(fields: &mut Vec<(String, Json)>, key: &str, value: Json)
    ensures
        field_views(final(fields)@) == field_views(old(fields)@).push((key@, value@)),
{
    fields.push((key.to_owned(), value));
    assert(field_views(fields@) =~= field_views(old(fields)@).push((key@, value@)));
}

/// Appends an item.
pub fn put_item(items: &mut Vec<Json>, value: Json)
    ensures
        views(final(items)@) == views(old(items)@).push(value@),
{
    items.push(value);
    assert(views(items@) =~= views(old(items)@).push(value@));
}

pub fn no_fields() -> (fields: Vec<(String, Json)>)
    ensures
        field_views(fields@) == Seq::<(Seq<char>, JsonView)>::empty(),
{
    let fields: Vec<(String, Json)> = Vec::new();
    assert(field_views(fields@) =~= Seq::<(Seq<char>, JsonView)>::empty());
    fields
}

pub fn no_items() -> (items: Vec<Json>)
    ensures
        views(items@) == Seq::<JsonView>::empty(),
{
    let items: Vec<Json> = Vec::new();
    assert(views(items@) =~= Seq::<JsonView>::empty());
    items
}

// ---- Reading text ----

/// What a JSON text holds, or what is wrong with it.
pub uninterp spec fn parsed(text: Seq<char>) -> Result<JsonView, Seq<char>>;

/// `serde_json::from_str` into a `serde_json::Value`: what a text holds as JSON, or the text of
/// the error. Nothing is said here of which texts are JSON.
#[verifier::external_body]
pub(crate) fn parse(text: &str) -> (result: Result<Json, String>)
    ensures
        match result {
            Ok(value) => parsed(text@) == Ok::<JsonView, Seq<char>>(value@),
            Err(error) => parsed(text@) == Err::<JsonView, Seq<char>>(error@),
        },
{
    match serde_json::from_str::<serde_json::Value>(text) {
        Ok(value) => Ok(plain(value)),
        Err(error) => Err(error.to_string()),
    }
}

/// A `serde_json::Value`, opaque here.
#[verifier::external_type_specification]
#[verifier::external_body]
pub struct ExValue(serde_json::Value);

/// The parts of a `serde_json::Value`, one for one; a number becomes the text that
/// `serde_json` prints for it.
#[verifier::external_body]
fn plain(value: serde_json::Value) -> Json {
    match value {
        serde_json::Value::Null => Json::Null,
        serde_json::Value::Bool(value) => Json::Bool(value),
        serde_json::Value::Number(number) => Json::Number(number.to_string()),
        serde_json::Value::String(text) => Json::Text(text),
        serde_json::Value::Array(items) => Json::List(items.into_iter().map(plain).collect()),
        serde_json::Value::Object(fields) => {
            Json::Object(fields.into_iter().map(|field| (field.0, plain(field.1))).collect())
        },
    }
}

} // verus!
