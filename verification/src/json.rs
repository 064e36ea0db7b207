//! JSON values.
//!
//! Values come from `serde_json`. The library holds them in a type of its own,
//! so that what it does with them can be stated.
use vstd::prelude::*;

use crate::text::{opt_text, same_text};

verus! {

/// A JSON value. Integers that fit in 64 bits with sign are kept as such; of
/// any other number only its kind is kept.
#[derive(Debug)]
pub enum Json {
    Null,
    Bool(bool),
    Integer(i64),
    Number,
    Text(String),
    Array(Vec<Json>),
    Object(Vec<(String, Json)>),
}

/// A JSON value together with its compact text.
#[derive(Debug)]
pub struct JsonArg {
    pub text: String,
    pub body: Json,
}

/// A JSON value as plain values.
pub enum JsonView {
    Null,
    Bool(bool),
    Integer(int),
    Number,
    Text(Seq<char>),
    Array(Seq<JsonView>),
    Object(Seq<(Seq<char>, JsonView)>),
}

/// A JSON value with its text, as plain values.
pub struct ArgView {
    pub text: Seq<char>,
    pub body: JsonView,
}

/// The plain value of a JSON value.
pub open spec fn json_view(json: Json) -> JsonView
    decreases json,
{
    match json {
        Json::Null => JsonView::Null,
        Json::Bool(b) => JsonView::Bool(b),
        Json::Integer(n) => JsonView::Integer(n as int),
        Json::Number => JsonView::Number,
        Json::Text(t) => JsonView::Text(t@),
        Json::Array(items) => JsonView::Array(
            Seq::new(
                items@.len(),
                |i: int|
                    if 0 <= i < items@.len() {
                        json_view(items@[i])
                    } else {
                        JsonView::Null
                    },
            ),
        ),
        Json::Object(fields) => JsonView::Object(
            Seq::new(
                fields@.len(),
                |i: int|
                    if 0 <= i < fields@.len() {
                        (fields@[i].0@, json_view(fields@[i].1))
                    } else {
                        (Seq::empty(), JsonView::Null)
                    },
            ),
        ),
    }
}

impl View for Json {
    type V = JsonView;

    open spec fn view(&self) -> JsonView {
        json_view(*self)
    }
}

impl View for JsonArg {
    type V = ArgView;

    open spec fn view(&self) -> ArgView {
        ArgView { text: self.text@, body: self.body@ }
    }
}

/// Arguments as plain values.
pub open spec fn arg_views(args: Seq<JsonArg>) -> Seq<ArgView> {
    Seq::new(args.len(), |i: int| args[i]@)
}

// --- reading values ------------------------------------------------------

/// The text of a JSON string.
pub open spec fn text_of(json: JsonView) -> Option<Seq<char>> {
    match json {
        JsonView::Text(t) => Some(t),
        _ => None,
    }
}

/// The value of a JSON integer.
pub open spec fn integer_of(json: JsonView) -> Option<int> {
    match json {
        JsonView::Integer(n) => Some(n),
        _ => None,
    }
}

/// The first field with a name, from a place on.
pub open spec fn field_from(
    fields: Seq<(Seq<char>, JsonView)>,
    name: Seq<char>,
    from: int,
) -> Option<JsonView>
    decreases fields.len() - from,
{
    if from < 0 || from >= fields.len() {
        None
    } else if fields[from].0 == name {
        Some(fields[from].1)
    } else {
        field_from(fields, name, from + 1)
    }
}

/// A field of a JSON object.
pub open spec fn field_of(json: JsonView, name: Seq<char>) -> Option<JsonView> {
    match json {
        JsonView::Object(fields) => field_from(fields, name, 0),
        _ => None,
    }
}

/// The text in a field of a JSON object.
pub open spec fn text_field(json: JsonView, name: Seq<char>) -> Option<Seq<char>> {
    match field_of(json, name) {
        Some(value) => text_of(value),
        None => None,
    }
}

/// The text of the argument at a place.
pub open spec fn text_arg(args: Seq<ArgView>, at: int) -> Option<Seq<char>> {
    if 0 <= at < args.len() {
        text_of(args[at].body)
    } else {
        None
    }
}

impl Json {
    /// The text of a JSON string.
    pub fn as_str(&self) -> (text: Option<String>)
        ensures
            opt_text(text) == text_of(self@),
    {
        match self {
            Json::Text(t) => Some(t.clone()),
            _ => None,
        }
    }

    /// The value of a JSON integer.
    pub fn as_i64(&self) -> (number: Option<i64>)
        ensures
            match number {
                Some(n) => integer_of(self@) == Some(n as int),
                None => integer_of(self@) is None,
            },
    {
        match self {
            Json::Integer(n) => Some(*n),
            _ => None,
        }
    }

    /// Whether this is `null`.
    pub fn is_null(&self) -> (yes: bool)
        ensures
            yes == (self@ == JsonView::Null),
    {
        match self {
            Json::Null => true,
            _ => false,
        }
    }

    /// The items of a JSON array.
    pub fn as_array(&self) -> (items: Option<&Vec<Json>>)
        ensures
            match items {
                Some(list) => self@ == JsonView::Array(
                    Seq::new(list@.len(), |i: int| list@[i]@),
                ),
                None => !(self@ is Array),
            },
    {
        match self {
            Json::Array(items) => {
                proof {
                    let shown = Seq::new(items@.len(), |i: int| items@[i]@);
                    assert(self@->Array_0 =~= shown);
                }
                Some(items)
            },
            _ => None,
        }
    }

    /// A field of a JSON object.
    pub fn get(&self, name: &str) -> (value: Option<&Json>)
        ensures
            match value {
                Some(v) => field_of(self@, name@) == Some(v@),
                None => field_of(self@, name@) is None,
            },
    {
        match self {
            Json::Object(fields) => {
                let ghost shown = self@->Object_0;
                let mut i: usize = 0;
                while i < fields.len()
                    invariant
                        i <= fields@.len(),
                        self@ == JsonView::Object(shown),
                        shown.len() == fields@.len(),
                        forall|j: int|
                            0 <= j < fields@.len() ==> #[trigger] shown[j] == (
                                fields@[j].0@,
                                json_view(fields@[j].1),
                            ),
                        field_from(shown, name@, i as int) == field_from(shown, name@, 0),
                    decreases fields@.len() - i,
                {
                    assert(shown[i as int].0 == fields@[i as int].0@);
                    if same_text(fields[i].0.as_str(), name) {
                        return Some(&fields[i].1);
                    }
                    i += 1;
                }
                None
            },
            _ => None,
        }
    }

    /// The text in a field of a JSON object.
    pub fn get_str(&self, name: &str) -> (text: Option<String>)
        ensures
            opt_text(text) == text_field(self@, name@),
    {
        match self.get(name) {
            Some(value) => value.as_str(),
            None => None,
        }
    }
}

/// The text of the argument at a place.
pub fn str_arg(args: &Vec<JsonArg>, at: usize) -> (text: Option<String>)
    ensures
        opt_text(text) == text_arg(arg_views(args@), at as int),
{
    if at < args.len() {
        args[at].body.as_str()
    } else {
        None
    }
}

// --- parsing with serde_json ---------------------------------------------

/// A value of `serde_json`.
#[verifier::external_type_specification]
#[verifier::external_body]
pub struct ExValue(serde_json::Value);

/// What `serde_json` reads from a text: a value with its compact text, or the
/// message of the error.
pub uninterp spec fn json_in(text: Seq<char>) -> core::result::Result<ArgView, Seq<char>>;

/// What `serde_json` reads from a text that should hold an array.
pub uninterp spec fn json_list_in(text: Seq<char>) -> core::result::Result<
    Seq<ArgView>,
    Seq<char>,
>;

/// Takes a `serde_json::Value` apart, variant by variant; whether a number is
/// an integer is `Number::as_i64`. Nothing is claimed of the result: it is
/// what the names of the parsing functions stand for.
#[verifier::external_body]
fn taken_apart(value: &serde_json::Value) -> (json: Json)
{
    match value {
        serde_json::Value::Null => Json::Null,
        serde_json::Value::Bool(b) => Json::Bool(*b),
        serde_json::Value::Number(n) => n.as_i64().map_or(Json::Number, Json::Integer),
        serde_json::Value::String(t) => Json::Text(t.clone()),
        serde_json::Value::Array(items) => Json::Array(items.iter().map(taken_apart).collect()),
        serde_json::Value::Object(fields) => Json::Object(
            fields.iter().map(|f| (f.0.clone(), taken_apart(f.1))).collect(),
        ),
    }
}

/// `serde_json::from_str` for a `Value`, taken apart, with the text that its
/// `to_string` gives. The result depends on the text alone and is named
/// `json_in`.
#[verifier::external_body]
fn parse_value(text: &str) -> (parsed: core::result::Result<JsonArg, String>)
    ensures
        match parsed {
            Ok(arg) => json_in(text@) == Ok::<ArgView, Seq<char>>(arg@),
            Err(e) => json_in(text@) == Err::<ArgView, Seq<char>>(e@),
        },
{
    match serde_json::from_str::<serde_json::Value>(text) {
        Ok(v) => Ok(JsonArg { text: v.to_string(), body: taken_apart(&v) }),
        Err(e) => Err(e.to_string()),
    }
}

/// `serde_json::from_str` for a `Vec<Value>`, each value taken apart, with the
/// text that its `to_string` gives. The result depends on the text alone and is
/// named `json_list_in`.
#[verifier::external_body]
fn parse_values(text: &str) -> (parsed: core::result::Result<Vec<JsonArg>, String>)
    ensures
        match parsed {
            Ok(args) => json_list_in(text@) == Ok::<Seq<ArgView>, Seq<char>>(arg_views(args@)),
            Err(e) => json_list_in(text@) == Err::<Seq<ArgView>, Seq<char>>(e@),
        },
{
    match serde_json::from_str::<Vec<serde_json::Value>>(text) {
        Ok(values) => Ok(
            values.iter().map(|v| JsonArg { text: v.to_string(), body: taken_apart(v) }).collect(),
        ),
        Err(e) => Err(e.to_string()),
    }
}

impl JsonArg {
    /// Reads a JSON text.
    pub fn read(text: &str) -> (parsed: core::result::Result<JsonArg, String>)
        ensures
            match parsed {
                Ok(arg) => json_in(text@) == Ok::<ArgView, Seq<char>>(arg@),
                Err(e) => json_in(text@) == Err::<ArgView, Seq<char>>(e@),
            },
    {
        parse_value(text)
    }

    /// Reads a JSON text that holds an array.
    pub fn read_list(text: &str) -> (parsed: core::result::Result<Vec<JsonArg>, String>)
        ensures
            match parsed {
                Ok(args) => json_list_in(text@) == Ok::<Seq<ArgView>, Seq<char>>(arg_views(args@)),
                Err(e) => json_list_in(text@) == Err::<Seq<ArgView>, Seq<char>>(e@),
            },
    {
        parse_values(text)
    }
}

/// A field is that of the first pair with its name. An object without such a
/// pair, and any other value, has no such field.
pub proof fn fields_are_found_by_name(fields: Seq<(Seq<char>, JsonView)>, name: Seq<char>, i: int)
    ensures
        0 <= i < fields.len() && fields[i].0 == name && (forall|j: int|
            0 <= j < i ==> (#[trigger] fields[j]).0 != name) ==> field_of(
            JsonView::Object(fields),
            name,
        ) == Some(fields[i].1),
        (forall|j: int| 0 <= j < fields.len() ==> (#[trigger] fields[j]).0 != name) ==> field_of(
            JsonView::Object(fields),
            name,
        ) is None,
{
    lemma_field_from(fields, name, 0, i);
}

proof fn lemma_field_from(
    fields: Seq<(Seq<char>, JsonView)>,
    name: Seq<char>,
    from: int,
    i: int,
)
    requires
        0 <= from <= fields.len(),
    ensures
        from <= i < fields.len() && fields[i].0 == name && (forall|j: int|
            from <= j < i ==> (#[trigger] fields[j]).0 != name) ==> field_from(fields, name, from)
            == Some(fields[i].1),
        (forall|j: int| from <= j < fields.len() ==> (#[trigger] fields[j]).0 != name)
            ==> field_from(fields, name, from) is None,
    decreases fields.len() - from,
{
    if from < fields.len() {
        lemma_field_from(fields, name, from + 1, i);
        assert(fields[from].0 == fields[from].0);
    }
}

/// Only a string has a text, and only an integer a number, and each is what the
/// value holds. An argument counts by its place.
pub proof fn values_are_read_as_they_are(
    text: Seq<char>,
    number: int,
    args: Seq<ArgView>,
    at: int,
    json: JsonView,
    name: Seq<char>,
)
    ensures
        text_of(JsonView::Text(text)) == Some(text),
        integer_of(JsonView::Integer(number)) == Some(number),
        text_of(json) is Some <==> json is Text,
        integer_of(json) is Some <==> json is Integer,
        0 <= at < args.len() && args[at].body == JsonView::Text(text) ==> text_arg(args, at) == Some(
            text,
        ),
        text_arg(args, at) is Some ==> 0 <= at < args.len() && args[at].body is Text,
        field_of(json, name) is Some ==> json is Object,
        field_of(json, name) == Some(JsonView::Text(text)) ==> text_field(json, name) == Some(text),
        text_field(json, name) matches Some(t) ==> field_of(json, name) == Some(JsonView::Text(t)),
{
}

/// A value is shown as it is: an array item by item, an object pair by pair, in
/// order, and nothing is left out.
pub proof fn values_are_shown_as_they_are(
    text: String,
    number: i64,
    items: Vec<Json>,
    fields: Vec<(String, Json)>,
    i: int,
)
    ensures
        Json::Text(text)@ == JsonView::Text(text@),
        Json::Integer(number)@ == JsonView::Integer(number as int),
        Json::Array(items)@ matches JsonView::Array(shown) && shown.len() == items@.len() && (0 <= i
            < items@.len() ==> shown[i] == items@[i]@),
        Json::Object(fields)@ matches JsonView::Object(shown) && shown.len() == fields@.len() && (0
            <= i < fields@.len() ==> shown[i] == (fields@[i].0@, fields@[i].1@)),
{
}

} // verus!
