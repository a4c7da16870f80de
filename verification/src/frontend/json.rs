//! JSON values, as far as a netlist reader looks into them.

use crate::text;
use vstd::prelude::*;

verus! {

/// A JSON value. A number is kept as an integer where it is one that fits, and
/// else as it was written. The fields of an object are sorted by name.
#[derive(Debug)]
pub enum Json {
    Null,
    Bool(bool),
    Integer(i64),
    Number(String),
    Text(String),
    Array(Vec<Json>),
    Object(Vec<(String, Json)>),
}

/// The value of the first field of a name.
pub open spec fn field_from(fields: Seq<(String, Json)>, name: Seq<char>, from: int) -> Option<Json>
    decreases fields.len() - from,
{
    if from < 0 || from >= fields.len() {
        None
    } else if fields[from].0@ == name {
        Some(fields[from].1)
    } else {
        field_from(fields, name, from + 1)
    }
}

pub open spec fn field(fields: Seq<(String, Json)>, name: Seq<char>) -> Option<Json> {
    field_from(fields, name, 0)
}

/// A field of a value, which only an object has.
pub open spec fn member(value: Json, name: Seq<char>) -> Option<Json> {
    match value {
        Json::Object(fields) => field(fields@, name),
        _ => None,
    }
}

/// What a JSON text comes to: the value it states, or why it states none.
pub uninterp spec fn json_document(written: Seq<char>) -> Result<Json, Seq<char>>;

/// `serde_json::Value`, as it comes from a parse.
#[verifier::external_type_specification]
#[verifier::external_body]
pub struct ExValue(serde_json::Value);

/// Hands over what a `serde_json::Value` holds, variant by variant. A number that
/// fits is handed over as an integer, and any other as `serde_json` writes it.
#[verifier::external_body]
fn from_value(value: serde_json::Value) -> (document: Json) {
    match value {
        serde_json::Value::Null => Json::Null,
        serde_json::Value::Bool(set) => Json::Bool(set),
        serde_json::Value::Number(number) => match number.as_i64() {
            Some(integer) => Json::Integer(integer),
            None => Json::Number(number.to_string()),
        },
        serde_json::Value::String(text) => Json::Text(text),
        serde_json::Value::Array(items) => Json::Array(items.into_iter().map(from_value).collect()),
        serde_json::Value::Object(fields) => Json::Object(
            fields.into_iter().map(|(name, field)| (name, from_value(field))).collect(),
        ),
    }
}

/// `serde_json::from_str` into a `serde_json::Value`. The result is a function of
/// the text alone: the value it states, or the words of the parser's error.
#[verifier::external_body]
pub(crate) fn parse_json(written: &str) -> (found: Result<Json, String>)
    ensures
        match found {
            Ok(value) => json_document(written@) == Ok::<Json, Seq<char>>(value),
            Err(reason) => json_document(written@) == Err::<Json, Seq<char>>(reason@),
        },
{
    match serde_json::from_str::<serde_json::Value>(written) {
        Ok(value) => Ok(from_value(value)),
        Err(error) => Err(error.to_string()),
    }
}

/// A digit of a hexadecimal number.
pub open spec fn hex_digit(n: int) -> char {
    "0123456789abcdef"@[n]
}

/// A character between quotes: quotes, backslashes and control characters are
/// escaped.
pub open spec fn json_char(c: char) -> Seq<char> {
    let code = c as int;
    if c == '"' {
        "\\\""@
    } else if c == '\\' {
        "\\\\"@
    } else if code == 8 {
        "\\b"@
    } else if code == 9 {
        "\\t"@
    } else if code == 10 {
        "\\n"@
    } else if code == 12 {
        "\\f"@
    } else if code == 13 {
        "\\r"@
    } else if code < 32 {
        "\\u00"@ + seq![hex_digit(code / 16), hex_digit(code % 16)]
    } else {
        seq![c]
    }
}

/// Characters between quotes.
pub open spec fn json_chars(written: Seq<char>) -> Seq<char>
    decreases written.len(),
{
    if written.len() == 0 {
        seq![]
    } else {
        json_chars(written.drop_last()) + json_char(written.last())
    }
}

/// A text between quotes, as `serde_json` writes it.
pub open spec fn json_text(written: Seq<char>) -> Seq<char> {
    "\""@ + json_chars(written) + "\""@
}

/// `serde_json::Value`'s `Display` on a string value: the text between quotes, with
/// quotes, backslashes and control characters escaped and nothing else.
#[verifier::external_body]
pub(crate) fn json_quoted(written: &str) -> (quoted: String)
    ensures
        quoted@ == json_text(written@),
{
    serde_json::Value::from(written).to_string()
}

/// A value without spaces, as `serde_json` writes it.
pub open spec fn rendered(value: Json) -> Seq<char>
    decreases value,
{
    match value {
        Json::Null => "null"@,
        Json::Bool(set) => if set {
            "true"@
        } else {
            "false"@
        },
        Json::Integer(n) => text::signed_decimal(n as int),
        Json::Number(written) => written@,
        Json::Text(written) => json_text(written@),
        Json::Array(items) => "["@ + rendered_items(items@) + "]"@,
        Json::Object(fields) => "{"@ + rendered_fields(fields@) + "}"@,
    }
}

/// Values with commas between them.
pub open spec fn rendered_items(items: Seq<Json>) -> Seq<char>
    decreases items,
{
    if items.len() == 0 {
        seq![]
    } else if items.len() == 1 {
        rendered(items[0])
    } else {
        rendered_items(items.drop_last()) + ","@ + rendered(items[items.len() - 1])
    }
}

/// Fields with commas between them.
pub open spec fn rendered_fields(fields: Seq<(String, Json)>) -> Seq<char>
    decreases fields,
{
    if fields.len() == 0 {
        seq![]
    } else {
        let last = fields[fields.len() - 1];
        let written = json_text(last.0@) + ":"@ + rendered(last.1);
        if fields.len() == 1 {
            written
        } else {
            rendered_fields(fields.drop_last()) + ","@ + written
        }
    }
}

impl Json {
    /// The field of this name, if the value is an object that has one.
    pub fn get(&self, name: &str) -> (found: Option<&Json>)
        ensures
            match found {
                Some(value) => member(*self, name@) == Some(*value),
                None => member(*self, name@) is None,
            },
    {
        match self {
            Json::Object(fields) => lookup(fields, name),
            _ => None,
        }
    }

    /// The value without spaces.
    pub fn render(&self) -> (written: String)
        ensures
            written@ == rendered(*self),
        decreases *self,
    {
        match self {
            Json::Null => "null".to_owned(),
            Json::Bool(set) => if *set {
                "true".to_owned()
            } else {
                "false".to_owned()
            },
            Json::Integer(n) => text::signed_text(*n),
            Json::Number(written) => written.as_str().to_owned(),
            Json::Text(written) => json_quoted(written.as_str()),
            Json::Array(items) => {
                let mut inner: String = "".to_owned();
                proof {
                    reveal_strlit("");
                    assert(""@ =~= seq![]);
                }
                let mut at: usize = 0;
                while at < items.len()
                    invariant
                        at <= items@.len(),
                        *self == Json::Array(*items),
                        inner@ == rendered_items(items@.take(at as int)),
                    decreases items@.len() - at,
                {
                    proof {
                        assert(decreases_to!(*self => self->Array_0));
                        assert(decreases_to!(*items => items@));
                        assert(decreases_to!(items@ => items@[at as int]));
                    }
                    let item: String = items[at].render();
                    proof {
                        assert(items@.take(at + 1).drop_last() =~= items@.take(at as int));
                    }
                    if at > 0 {
                        inner.append(",");
                    }
                    inner.append(item.as_str());
                    at = at + 1;
                    assert(inner@ =~= rendered_items(items@.take(at as int)));
                }
                assert(items@.take(at as int) =~= items@);
                text::glue3("[", inner.as_str(), "]")
            },
            Json::Object(fields) => {
                let mut inner: String = "".to_owned();
                proof {
                    reveal_strlit("");
                    assert(""@ =~= seq![]);
                }
                let mut at: usize = 0;
                while at < fields.len()
                    invariant
                        at <= fields@.len(),
                        *self == Json::Object(*fields),
                        inner@ == rendered_fields(fields@.take(at as int)),
                    decreases fields@.len() - at,
                {
                    let key: String = json_quoted(fields[at].0.as_str());
                    proof {
                        assert(decreases_to!(*self => self->Object_0));
                        assert(decreases_to!(*fields => fields@));
                        assert(decreases_to!(fields@ => fields@[at as int]));
                        assert(decreases_to!(fields@[at as int] => fields@[at as int].1));
                    }
                    let value: String = fields[at].1.render();
                    let pair: String = text::glue3(key.as_str(), ":", value.as_str());
                    proof {
                        assert(fields@.take(at + 1).drop_last() =~= fields@.take(at as int));
                    }
                    if at > 0 {
                        inner.append(",");
                    }
                    inner.append(pair.as_str());
                    at = at + 1;
                    assert(inner@ =~= rendered_fields(fields@.take(at as int)));
                }
                assert(fields@.take(at as int) =~= fields@);
                text::glue3("{", inner.as_str(), "}")
            },
        }
    }
}

pub fn lookup<'a>(fields: &'a Vec<(String, Json)>, name: &str) -> (found: Option<&'a Json>)
    ensures
        match found {
            Some(value) => field(fields@, name@) == Some(*value),
            None => field(fields@, name@) is None,
        },
{
    let mut at: usize = 0;
    while at < fields.len()
        invariant
            at <= fields@.len(),
            field(fields@, name@) == field_from(fields@, name@, at as int),
        decreases fields@.len() - at,
    {
        if text::same_text(fields[at].0.as_str(), name) {
            return Some(&fields[at].1);
        }
        at = at + 1;
    }
    None
}

} // verus!
