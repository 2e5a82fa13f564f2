//! JSON documents: the states that are asked about, and structured instructions and criteria.

use vstd::prelude::*;

use crate::ordered::{distinct_keys, find_key, lemma_find_key, lemma_find_key_unique, lookup};
use crate::text::same_text;

verus! {

/// A finite floating-point number in decimal: `d.ddd` times ten to the `exponent`, where `d.ddd`
/// are the shortest digits that read back as the same number.
#[derive(Debug)]
pub struct Decimal {
    pub negative: bool,
    pub digits: String,
    pub exponent: i32,
}

/// A JSON number.
#[derive(Debug)]
pub enum Number {
    /// A non-negative integer.
    PosInt(u64),
    /// A negative integer.
    NegInt(i64),
    /// Anything with a fraction or an exponent.
    Float(Decimal),
}

/// A JSON value. An object keeps the order of its keys.
#[derive(Debug)]
pub enum Value {
    Null,
    Bool(bool),
    Number(Number),
    String(String),
    Array(Vec<Value>),
    Object(Vec<(String, Value)>),
}

/// The mathematical content of a [`Number`].
pub enum Numeral {
    PosInt(u64),
    NegInt(i64),
    Float { negative: bool, digits: Seq<char>, exponent: int },
}

/// The mathematical content of a [`Value`].
pub enum Json {
    Null,
    Bool(bool),
    Number(Numeral),
    Text(Seq<char>),
    Array(Seq<Json>),
    Object(Seq<(Seq<char>, Json)>),
}

impl View for Decimal {
    type V = Numeral;

    open spec fn view(&self) -> Numeral {
        Numeral::Float {
            negative: self.negative,
            digits: self.digits@,
            exponent: self.exponent as int,
        }
    }
}

impl View for Number {
    type V = Numeral;

    open spec fn view(&self) -> Numeral {
        match self {
            Number::PosInt(n) => Numeral::PosInt(*n),
            Number::NegInt(n) => Numeral::NegInt(*n),
            Number::Float(d) => d@,
        }
    }
}

impl Value {
    /// The mathematical content of this value.
    pub open spec fn json(&self) -> Json
        decreases self,
    {
        match self {
            Value::Null => Json::Null,
            Value::Bool(b) => Json::Bool(*b),
            Value::Number(n) => Json::Number(n@),
            Value::String(s) => Json::Text(s@),
            Value::Array(items) => Json::Array(
                Seq::new(
                    items@.len(),
                    |i: int|
                        if 0 <= i < items@.len() {
                            items@[i].json()
                        } else {
                            Json::Null
                        },
                ),
            ),
            Value::Object(fields) => Json::Object(
                Seq::new(
                    fields@.len(),
                    |i: int|
                        if 0 <= i < fields@.len() {
                            (fields@[i].0@, fields@[i].1.json())
                        } else {
                            (Seq::empty(), Json::Null)
                        },
                ),
            ),
        }
    }
}

impl View for Value {
    type V = Json;

    open spec fn view(&self) -> Json {
        self.json()
    }
}

/// What an object holds under `key`; nothing for any other value.
pub open spec fn field(j: Json, key: Seq<char>) -> Option<Json> {
    match j {
        Json::Object(fields) => lookup(fields, key),
        _ => None,
    }
}

/// The text of a string; nothing for any other value.
pub open spec fn text_of(j: Json) -> Option<Seq<char>> {
    match j {
        Json::Text(s) => Some(s),
        _ => None,
    }
}

/// A non-negative integer; nothing for any other value.
pub open spec fn unsigned_of(j: Json) -> Option<u64> {
    match j {
        Json::Number(Numeral::PosInt(n)) => Some(n),
        _ => None,
    }
}

/// The number a value is, if it is one.
pub open spec fn number_of(j: Json) -> Option<Numeral> {
    match j {
        Json::Number(n) => Some(n),
        _ => None,
    }
}

/// What a lookup found, as a mathematical value.
pub open spec fn seen(v: Option<&Value>) -> Option<Json> {
    match v {
        Some(v) => Some(v@),
        None => None,
    }
}

impl Clone for Decimal {
    fn clone(&self) -> (r: Decimal)
        ensures
            r@ == self@,
    {
        Decimal {
            negative: self.negative,
            digits: self.digits.clone(),
            exponent: self.exponent,
        }
    }
}

impl Clone for Number {
    fn clone(&self) -> (r: Number)
        ensures
            r@ == self@,
    {
        match self {
            Number::PosInt(n) => Number::PosInt(*n),
            Number::NegInt(n) => Number::NegInt(*n),
            Number::Float(d) => Number::Float(d.clone()),
        }
    }
}

impl Clone for Value {
    fn clone(&self) -> (r: Value)
        ensures
            r@ == self@,
        decreases self,
    {
        match self {
            Value::Null => Value::Null,
            Value::Bool(b) => Value::Bool(*b),
            Value::Number(n) => Value::Number(n.clone()),
            Value::String(s) => Value::String(s.clone()),
            Value::Array(items) => {
                let mut out: Vec<Value> = Vec::new();
                for i in 0..items.len()
                    invariant
                        *self matches Value::Array(v) && v == items,
                        out@.len() == i,
                        forall|j: int| 0 <= j < i ==> (#[trigger] out@[j])@ == items@[j]@,
                {
                    out.push(items[i].clone());
                }
                let r = Value::Array(out);
                assert(r@->Array_0 =~= self@->Array_0);
                r
            },
            Value::Object(fields) => {
                let mut out: Vec<(String, Value)> = Vec::new();
                for i in 0..fields.len()
                    invariant
                        *self matches Value::Object(v) && v == fields,
                        out@.len() == i,
                        forall|j: int|
                            0 <= j < i ==> (#[trigger] out@[j]).0@ == fields@[j].0@ && out@[j].1@
                                == fields@[j].1@,
                {
                    let key = fields[i].0.clone();
                    let value = fields[i].1.clone();
                    out.push((key, value));
                }
                let r = Value::Object(out);
                assert(r@->Object_0 =~= self@->Object_0);
                r
            },
        }
    }
}

impl Value {
    /// What an object holds under `key`.
    pub fn get(&self, key: &str) -> (r: Option<&Value>)
        ensures
            seen(r) == field(self@, key@),
    {
        match self {
            Value::Object(fields) => {
                let ghost all = self@->Object_0;
                for i in 0..fields.len()
                    invariant
                        all == self@->Object_0,
                        *self matches Value::Object(v) && v == fields,
                        forall|j: int| 0 <= j < i ==> (#[trigger] all[j]).0 != key@,
                {
                    assert(all[i as int] == (fields@[i as int].0@, fields@[i as int].1@));
                    if same_text(fields[i].0.as_str(), key) {
                        proof {
                            lemma_find_key_unique(all, key@, i as int);
                        }
                        return Some(&fields[i].1);
                    }
                }
                proof {
                    lemma_find_key_unique(all, key@, all.len() as int);
                }
                None
            },
            _ => None,
        }
    }

    /// The text of a string.
    pub fn as_str(&self) -> (r: Option<&str>)
        ensures
            match r {
                Some(s) => text_of(self@) == Some(s@),
                None => text_of(self@) is None,
            },
    {
        match self {
            Value::String(s) => Some(s.as_str()),
            _ => None,
        }
    }

    /// A non-negative integer.
    pub fn as_u64(&self) -> (r: Option<u64>)
        ensures
            r == unsigned_of(self@),
    {
        match self {
            Value::Number(Number::PosInt(n)) => Some(*n),
            _ => None,
        }
    }

    /// The number, if this is one.
    pub fn as_number(&self) -> (r: Option<&Number>)
        ensures
            match r {
                Some(n) => number_of(self@) == Some(n@),
                None => number_of(self@) is None,
            },
    {
        match self {
            Value::Number(n) => Some(n),
            _ => None,
        }
    }
}

// ----------------------------------------------------------------------- laws

/// A field is found in an object that has it, and nowhere else; a value is read as what it is, and only a
/// whole number that is not negative as an unsigned one.
pub proof fn law_what_a_value_is(
    fields: Seq<(Seq<char>, Json)>,
    i: int,
    key: Seq<char>,
    j: Json,
    s: Seq<char>,
    n: u64,
    num: Numeral,
)
    requires
        distinct_keys(fields),
    ensures
        0 <= i < fields.len() ==> field(Json::Object(fields), fields[i].0) == Some(fields[i].1),
        (forall|k: int| 0 <= k < fields.len() ==> (#[trigger] fields[k]).0 != key) ==> field(
            Json::Object(fields),
            key,
        ) is None,
        !(j is Object) ==> field(j, key) is None,
        text_of(j) == Some(s) <==> j == Json::Text(s),
        unsigned_of(j) == Some(n) <==> j == Json::Number(Numeral::PosInt(n)),
        number_of(j) == Some(num) <==> j == Json::Number(num),
{
    lemma_find_key(fields, key);
    if 0 <= i < fields.len() {
        lemma_find_key(fields, fields[i].0);
        let k = find_key(fields, fields[i].0) as int;
        if k < i {
            assert(fields[k].0 != fields[i].0);
        }
    }
}

} // verus!
