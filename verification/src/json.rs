//! JSON values as the broker carries them: arguments, results and event
//! payloads.
use vstd::prelude::*;

verus! {

/// A JSON number: a non-negative integer, a negative integer, or a number
/// with a fraction or exponent, held as its text.
#[derive(Debug, PartialEq)]
pub enum JsonNumber {
    PosInt(u64),
    NegInt(i64),
    Float(String),
}

/// A JSON value. An object is a list of key/value entries.
#[derive(Debug, PartialEq)]
pub enum JsonValue {
    Null,
    Bool(bool),
    Number(JsonNumber),
    String(String),
    Array(Vec<JsonValue>),
    Object(Vec<(String, JsonValue)>),
}

/// The model of a JSON number.
pub enum NumberView {
    PosInt(u64),
    NegInt(i64),
    Float(Seq<char>),
}

/// The model of a JSON value.
pub enum JsonView {
    Null,
    Bool(bool),
    Number(NumberView),
    String(Seq<char>),
    Array(Seq<JsonView>),
    Object(Seq<(Seq<char>, JsonView)>),
}

impl View for JsonNumber {
    type V = NumberView;

    open spec fn view(&self) -> NumberView {
        match self {
            JsonNumber::PosInt(n) => NumberView::PosInt(*n),
            JsonNumber::NegInt(n) => NumberView::NegInt(*n),
            JsonNumber::Float(t) => NumberView::Float(t@),
        }
    }
}

/// The models of a sequence of values.
pub open spec fn view_values(s: Seq<JsonValue>) -> Seq<JsonView>
    decreases s,
{
    if s.len() == 0 {
        Seq::empty()
    } else {
        view_values(s.drop_last()).push(s.last().view_value())
    }
}

/// The models of a sequence of object entries.
pub open spec fn view_entries(s: Seq<(String, JsonValue)>) -> Seq<(Seq<char>, JsonView)>
    decreases s,
{
    if s.len() == 0 {
        Seq::empty()
    } else {
        view_entries(s.drop_last()).push((s.last().0@, s.last().1.view_value()))
    }
}

impl JsonValue {
    pub open spec fn view_value(&self) -> JsonView
        decreases self,
    {
        match self {
            JsonValue::Null => JsonView::Null,
            JsonValue::Bool(b) => JsonView::Bool(*b),
            JsonValue::Number(n) => JsonView::Number(n@),
            JsonValue::String(s) => JsonView::String(s@),
            JsonValue::Array(v) => JsonView::Array(view_values(v@)),
            JsonValue::Object(v) => JsonView::Object(view_entries(v@)),
        }
    }
}

impl View for JsonValue {
    type V = JsonView;

    open spec fn view(&self) -> JsonView {
        self.view_value()
    }
}

/// The model of the number a JSON integer `n` becomes.
pub open spec fn int_view(n: int) -> JsonView {
    if n < 0 {
        JsonView::Number(NumberView::NegInt(n as i64))
    } else {
        JsonView::Number(NumberView::PosInt(n as u64))
    }
}

/// The value as a signed 64-bit integer, when it is an integer number in
/// that range.
pub open spec fn as_i64_view(v: JsonView) -> Option<int> {
    match v {
        JsonView::Number(NumberView::PosInt(n)) => if n <= i64::MAX {
            Some(n as int)
        } else {
            None
        },
        JsonView::Number(NumberView::NegInt(n)) => Some(n as int),
        _ => None,
    }
}

/// The element at position `i` of an array; nothing for other values or
/// positions past the end.
pub open spec fn element_view(v: JsonView, i: int) -> Option<JsonView> {
    match v {
        JsonView::Array(items) => if 0 <= i < items.len() {
            Some(items[i])
        } else {
            None
        },
        _ => None,
    }
}

/// `view_values` is taken element by element.
pub proof fn lemma_view_values(s: Seq<JsonValue>)
    ensures
        view_values(s).len() == s.len(),
        forall|i: int| 0 <= i < s.len() ==> #[trigger] view_values(s)[i] == s[i]@,
    decreases s.len(),
{
    if s.len() > 0 {
        lemma_view_values(s.drop_last());
    }
}

/// `view_entries` is taken entry by entry.
pub proof fn lemma_view_entries(s: Seq<(String, JsonValue)>)
    ensures
        view_entries(s).len() == s.len(),
        forall|i: int| 0 <= i < s.len() ==> #[trigger] view_entries(s)[i] == (s[i].0@, s[i].1@),
    decreases s.len(),
{
    if s.len() > 0 {
        lemma_view_entries(s.drop_last());
    }
}

impl JsonValue {
    /// The JSON number for an integer.
    pub fn from_i64(n: i64) -> (v: JsonValue)
        ensures
            v@ == int_view(n as int),
    {
        if n < 0 {
            JsonValue::Number(JsonNumber::NegInt(n))
        } else {
            JsonValue::Number(JsonNumber::PosInt(n as u64))
        }
    }

    /// The value as a signed 64-bit integer, if it is one.
    pub fn as_i64(&self) -> (r: Option<i64>)
        ensures
            match r {
                Some(n) => as_i64_view(self@) == Some(n as int),
                None => as_i64_view(self@) is None,
            },
    {
        match self {
            JsonValue::Number(JsonNumber::PosInt(n)) => if *n <= 9223372036854775807u64 {
                Some(*n as i64)
            } else {
                None
            },
            JsonValue::Number(JsonNumber::NegInt(n)) => Some(*n),
            _ => None,
        }
    }

    /// The element at position `i`, if this is an array that long.
    pub fn get(&self, i: usize) -> (r: Option<&JsonValue>)
        ensures
            match r {
                Some(e) => element_view(self@, i as int) == Some(e@),
                None => element_view(self@, i as int) is None,
            },
    {
        match self {
            JsonValue::Array(items) => {
                proof {
                    lemma_view_values(items@);
                }
                if i < items.len() {
                    Some(&items[i])
                } else {
                    None
                }
            },
            _ => None,
        }
    }
}

} // verus!
