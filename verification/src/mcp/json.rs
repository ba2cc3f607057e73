//! JSON values.

use vstd::prelude::*;
use crate::text::{chars_of, copy_text, number_value, read_number, same};

verus! {

/// A JSON value. A number is kept as it is written.
#[derive(Debug)]
pub enum Json {
    Null,
    Bool(bool),
    Number(String),
    Text(String),
    List(Vec<Json>),
    Object(Vec<(String, Json)>),
}

/// A JSON value as a mathematical value.
#[verifier::ext_equal]
pub enum JsonView {
    Null,
    Bool(bool),
    Number(Seq<char>),
    Text(Seq<char>),
    List(Seq<JsonView>),
    Object(Seq<(Seq<char>, JsonView)>),
}

/// The first field with a name, from `i` on.
pub open spec fn field_from(
    fields: Seq<(Seq<char>, JsonView)>,
    name: Seq<char>,
    i: int,
) -> Option<JsonView>
    decreases fields.len() - i,
{
    if i < 0 || i >= fields.len() {
        None
    } else if fields[i].0 == name {
        Some(fields[i].1)
    } else {
        field_from(fields, name, i + 1)
    }
}

impl JsonView {
    /// The field with a name. Only an object has one.
    pub open spec fn field(self, name: Seq<char>) -> Option<JsonView> {
        match self {
            JsonView::Object(fields) => field_from(fields, name, 0),
            _ => None,
        }
    }

    /// The text in a field.
    pub open spec fn text_in(self, name: Seq<char>) -> Option<Seq<char>> {
        match self.field(name) {
            Some(JsonView::Text(s)) => Some(s),
            _ => None,
        }
    }

    /// The natural number in a field, if it fits.
    pub open spec fn natural_in(self, name: Seq<char>) -> Option<int> {
        match self.field(name) {
            Some(JsonView::Number(s)) => match number_value(s) {
                Some(n) => if n <= u64::MAX {
                    Some(n)
                } else {
                    None
                },
                None => None,
            },
            _ => None,
        }
    }

    /// The truth value in a field.
    pub open spec fn bool_in(self, name: Seq<char>) -> Option<bool> {
        match self.field(name) {
            Some(JsonView::Bool(b)) => Some(b),
            _ => None,
        }
    }
}

pub open spec fn json_views(s: Seq<Json>) -> Seq<JsonView> {
    s.map_values(|j: Json| j.view())
}

pub open spec fn entry_views(s: Seq<(String, Json)>) -> Seq<(Seq<char>, JsonView)> {
    s.map_values(|e: (String, Json)| (e.0@, e.1.view()))
}

impl Json {
    pub open spec fn view(&self) -> JsonView
        decreases self,
    {
        match *self {
            Json::Null => JsonView::Null,
            Json::Bool(b) => JsonView::Bool(b),
            Json::Number(s) => JsonView::Number(s@),
            Json::Text(s) => JsonView::Text(s@),
            Json::List(v) => JsonView::List(
                Seq::new(
                    v@.len(),
                    |i: int|
                        if 0 <= i < v@.len() {
                            v@[i].view()
                        } else {
                            JsonView::Null
                        },
                ),
            ),
            Json::Object(v) => JsonView::Object(
                Seq::new(
                    v@.len(),
                    |i: int|
                        if 0 <= i < v@.len() {
                            (v@[i].0@, v@[i].1.view())
                        } else {
                            (Seq::empty(), JsonView::Null)
                        },
                ),
            ),
        }
    }

    /// The field with a name. Only an object has one.
    pub fn get(&self, name: &str) -> (r: Option<&Json>)
        ensures
            match self.view().field(name@) {
                Some(v) => r is Some && r->0.view() == v,
                None => r is None,
            },
    {
        match self {
            Json::Object(fields) => {
                let ghost all = entry_views(fields@);
                proof {
                    assert(self.view()->Object_0 =~= all);
                }
                let mut i: usize = 0;
                while i < fields.len()
                    invariant
                        i <= fields@.len(),
                        all == entry_views(fields@),
                        all.len() == fields@.len(),
                        self.view() == JsonView::Object(all),
                        field_from(all, name@, 0) == field_from(all, name@, i as int),
                    decreases fields@.len() - i,
                {
                    assert(all[i as int] == (fields@[i as int].0@, fields@[i as int].1.view()));
                    if same(&fields[i].0, name) {
                        return Some(&fields[i].1);
                    }
                    i += 1;
                }
                None
            },
            _ => None,
        }
    }

    pub fn text_in(&self, name: &str) -> (r: Option<&str>)
        ensures
            match self.view().text_in(name@) {
                Some(s) => r is Some && r->0@ == s,
                None => r is None,
            },
    {
        match self.get(name) {
            Some(Json::Text(s)) => Some(s.as_str()),
            _ => None,
        }
    }

    pub fn natural_in(&self, name: &str) -> (r: Option<u64>)
        ensures
            match self.view().natural_in(name@) {
                Some(n) => r is Some && r->0 == n,
                None => r is None,
            },
    {
        match self.get(name) {
            Some(Json::Number(s)) => {
                let digits = chars_of(s);
                read_number(&digits, u64::MAX)
            },
            _ => None,
        }
    }

    pub fn bool_in(&self, name: &str) -> (r: Option<bool>)
        ensures
            r == self.view().bool_in(name@),
    {
        match self.get(name) {
            Some(Json::Bool(b)) => Some(*b),
            _ => None,
        }
    }

    /// The same value again.
    pub fn copy(&self) -> (r: Json)
        ensures
            r.view() == self.view(),
        decreases self,
    {
        match self {
            Json::Null => Json::Null,
            Json::Bool(b) => Json::Bool(*b),
            Json::Number(s) => Json::Number(s.clone()),
            Json::Text(s) => Json::Text(s.clone()),
            Json::List(items) => {
                let mut out: Vec<Json> = Vec::new();
                let mut i: usize = 0;
                while i < items.len()
                    invariant
                        i <= items@.len(),
                        *self == Json::List(*items),
                        out@.len() == i,
                        forall|k: int| 0 <= k < i ==> (#[trigger] out@[k]).view() == items@[k].view(),
                    decreases items@.len() - i,
                {
                    assert(decreases_to!(*self => self->List_0@[i as int]));
                    out.push(items[i].copy());
                    i += 1;
                }
                let r = Json::List(out);
                assert(r.view()->List_0 =~= self.view()->List_0);
                r
            },
            Json::Object(fields) => {
                let mut out: Vec<(String, Json)> = Vec::new();
                let mut i: usize = 0;
                while i < fields.len()
                    invariant
                        i <= fields@.len(),
                        *self == Json::Object(*fields),
                        out@.len() == i,
                        forall|k: int|
                            0 <= k < i ==> (#[trigger] out@[k]).0@ == fields@[k].0@
                                && out@[k].1.view() == fields@[k].1.view(),
                    decreases fields@.len() - i,
                {
                    assert(decreases_to!(*self => self->Object_0@[i as int].1));
                    out.push((fields[i].0.clone(), fields[i].1.copy()));
                    i += 1;
                }
                let r = Json::Object(out);
                assert(r.view()->Object_0 =~= self.view()->Object_0);
                r
            },
        }
    }

    pub fn text(s: &str) -> (r: Json)
        ensures
            r.view() == JsonView::Text(s@),
    {
        Json::Text(copy_text(s))
    }

    pub fn list(items: Vec<Json>) -> (r: Json)
        ensures
            r.view() == JsonView::List(json_views(items@)),
    {
        let r = Json::List(items);
        assert(r.view()->List_0 =~= json_views(items@));
        r
    }

    pub fn object(fields: Vec<(String, Json)>) -> (r: Json)
        ensures
            r.view() == JsonView::Object(entry_views(fields@)),
    {
        let r = Json::Object(fields);
        assert(r.view()->Object_0 =~= entry_views(fields@));
        r
    }
}

/// One field of an object.
pub fn entry(name: &str, value: Json) -> (r: (String, Json))
    ensures
        r.0@ == name@,
        r.1 == value,
{
    (copy_text(name), value)
}

/// An object with one field.
pub fn object_of(name: &str, value: Json) -> (r: Json)
    ensures
        r.view() == JsonView::Object(seq![(name@, value.view())]),
{
    let fields: Vec<(String, Json)> = vec![entry(name, value)];
    assert(entry_views(fields@) =~= seq![(name@, value.view())]);
    Json::object(fields)
}

/// An object with two fields.
pub fn object_of_two(name: &str, value: Json, other: &str, second: Json) -> (r: Json)
    ensures
        r.view() == JsonView::Object(seq![(name@, value.view()), (other@, second.view())]),
{
    let fields: Vec<(String, Json)> = vec![entry(name, value), entry(other, second)];
    assert(entry_views(fields@) =~= seq![(name@, value.view()), (other@, second.view())]);
    Json::object(fields)
}

/// An object with three fields.
pub fn object_of_three(
    name: &str,
    value: Json,
    other: &str,
    second: Json,
    last: &str,
    third: Json,
) -> (r: Json)
    ensures
        r.view() == JsonView::Object(
            seq![(name@, value.view()), (other@, second.view()), (last@, third.view())],
        ),
{
    let fields: Vec<(String, Json)> = vec![
        entry(name, value),
        entry(other, second),
        entry(last, third),
    ];
    assert(entry_views(fields@) =~= seq![
        (name@, value.view()),
        (other@, second.view()),
        (last@, third.view()),
    ]);
    Json::object(fields)
}

/// A value that `serde_json` parsed.
#[verifier::external_type_specification]
#[verifier::external_body]
pub struct ExValue(serde_json::Value);

/// What a parsed value holds: its items, or its fields by name, down to the
/// leaves.
pub uninterp spec fn value_holds(value: serde_json::Value) -> JsonView;

/// The value a JSON text stands for, or what is wrong with it.
pub uninterp spec fn parsed_json(text: Seq<char>) -> Result<JsonView, Seq<char>>;

pub open spec fn value_result(r: Result<serde_json::Value, String>) -> Result<JsonView, Seq<char>> {
    match r {
        Ok(value) => Ok(value_holds(value)),
        Err(e) => Err(e@),
    }
}

pub open spec fn json_result(r: Result<Json, String>) -> Result<JsonView, Seq<char>> {
    match r {
        Ok(j) => Ok(j.view()),
        Err(e) => Err(e@),
    }
}

/// `serde_json::from_str` into a `serde_json::Value`. Claims that what the value
/// holds, or the message of the error, depends on the text alone.
#[verifier::external_body]
fn parse_value(text: &str) -> (r: Result<serde_json::Value, String>)
    ensures
        value_result(r) == parsed_json(text@),
{
    serde_json::from_str::<serde_json::Value>(text).map_err(|e| e.to_string())
}

/// The contents of a `serde_json::Value`, taken over variant by variant. A number
/// is written out as its `Display` writes it.
#[verifier::external_body]
fn take_value(value: serde_json::Value) -> (r: Json)
    ensures
        r.view() == value_holds(value),
{
    match value {
        serde_json::Value::Null => Json::Null,
        serde_json::Value::Bool(b) => Json::Bool(b),
        serde_json::Value::Number(n) => Json::Number(n.to_string()),
        serde_json::Value::String(s) => Json::Text(s),
        serde_json::Value::Array(v) => Json::List(v.into_iter().map(take_value).collect()),
        serde_json::Value::Object(m) => {
            Json::Object(m.into_iter().map(|(k, v)| (k, take_value(v))).collect())
        },
    }
}

/// Reads a request out of the line that carries it.
pub fn read_request(line: &str) -> (r: Result<Json, String>)
    ensures
        json_result(r) == parsed_json(line@),
{
    match parse_value(line) {
        Ok(value) => Ok(take_value(value)),
        Err(e) => Err(e),
    }
}

proof fn lemma_field(fields: Seq<(Seq<char>, JsonView)>, name: Seq<char>, i: int, k: int)
    requires
        0 <= i <= k < fields.len(),
        fields[k].0 == name,
        forall|j: int| i <= j < k ==> (#[trigger] fields[j]).0 != name,
    ensures
        field_from(fields, name, i) == Some(fields[k].1),
    decreases k - i,
{
    if i < k {
        assert(fields[i].0 != name);
        lemma_field(fields, name, i + 1, k);
    }
}

/// A field of an object is found by its name, and read only as what it is.
pub proof fn a_field_is_found_by_its_name(
    fields: Seq<(Seq<char>, JsonView)>,
    name: Seq<char>,
    k: int,
)
    requires
        0 <= k < fields.len(),
        fields[k].0 == name,
        forall|j: int| 0 <= j < k ==> (#[trigger] fields[j]).0 != name,
    ensures
        ({
            let j = JsonView::Object(fields);
            &&& j.field(name) == Some(fields[k].1)
            &&& j.text_in(name) is Some <==> fields[k].1 is Text
            &&& fields[k].1 matches JsonView::Text(t) ==> j.text_in(name) == Some(t)
            &&& j.bool_in(name) is Some <==> fields[k].1 is Bool
            &&& fields[k].1 matches JsonView::Bool(b) ==> j.bool_in(name) == Some(b)
            &&& j.natural_in(name) is Some ==> fields[k].1 is Number
        }),
{
    lemma_field(fields, name, 0, k);
}

} // verus!
