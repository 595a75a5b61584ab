//! The choices made while a target type is filled in from an unwrapped value.

use vstd::prelude::*;
use crate::remap::{special_float, special_of, SpecialFloat};
use crate::value::{JsonNumber, JsonValue};

verus! {

/// Where an integer is read from.
#[derive(Debug, PartialEq)]
pub enum IntegerInput {
    /// A string: the integer is parsed from its text.
    Text(String),
    /// Anything else: it is read as plain JSON reads it.
    Other(JsonValue),
}

/// Where an integer of the target type is read from: the text of a string,
/// or else the value itself.
pub fn integer_input(v: JsonValue) -> (r: IntegerInput)
    ensures
        v matches JsonValue::String(s) ==> r == IntegerInput::Text(s),
        !(v is String) ==> r == IntegerInput::Other(v),
{
    match v {
        JsonValue::String(s) => IntegerInput::Text(s),
        other => IntegerInput::Other(other),
    }
}

/// Where a float is read from.
#[derive(Debug, PartialEq)]
pub enum FloatInput {
    /// A string: the float is parsed from its text.
    Text(String),
    /// A code number: the float is the non-finite value it stands for.
    Special(SpecialFloat),
    /// Anything else: it is read as plain JSON reads it.
    Other(JsonValue),
}

/// Where a float of the target type is read from: the text of a string, the
/// non-finite value that a code number 1, 2 or 3 stands for, or else the
/// value itself.
pub fn float_input(v: JsonValue) -> (r: FloatInput)
    ensures
        v matches JsonValue::String(s) ==> r == FloatInput::Text(s),
        v matches JsonValue::Number(n) ==> r == (match special_of(n) {
            Some(c) => FloatInput::Special(c),
            None => FloatInput::Other(v),
        }),
        !(v is String) && !(v is Number) ==> r == FloatInput::Other(v),
{
    match v {
        JsonValue::String(s) => FloatInput::Text(s),
        JsonValue::Number(n) => match special_float(n) {
            Some(c) => FloatInput::Special(c),
            None => FloatInput::Other(JsonValue::Number(n)),
        },
        other => FloatInput::Other(other),
    }
}

/// A map value was asked for before its key.
#[derive(Debug, Clone, Copy, PartialEq, Eq)]
pub struct MissingValue;

impl MissingValue {
    /// The error text.
    pub fn message(&self) -> (m: &'static str)
        ensures
            m@ == "value is missing for map key"@,
    {
        "value is missing for map key"
    }
}

/// Walks the entries of an object: each key, then the value that goes with
/// it.
pub struct EntryCursor {
    /// The entries not yet handed out, last first.
    rest: Vec<(String, JsonValue)>,
    /// The value of the key handed out last, until it is taken.
    pending: Option<JsonValue>,
}

impl EntryCursor {
    /// The entries not yet handed out, in order.
    pub closed spec fn remaining(&self) -> Seq<(String, JsonValue)> {
        self.rest@.reverse()
    }

    /// The value waiting for `next_value`.
    pub closed spec fn pending(&self) -> Option<JsonValue> {
        self.pending
    }

    /// A cursor before the first of `entries`.
    pub fn new(entries: Vec<(String, JsonValue)>) -> (c: Self)
        ensures
            c.remaining() == entries@,
            c.pending() is None,
    {
        let ghost all = entries@;
        let mut entries = entries;
        let mut rest: Vec<(String, JsonValue)> = Vec::new();
        while entries.len() > 0
            invariant
                entries@.len() + rest@.len() == all.len(),
                entries@ == all.take(entries@.len() as int),
                forall|i: int|
                    0 <= i < rest@.len() ==> #[trigger] rest@[i] == all[all.len() - 1 - i],
            decreases entries.len(),
        {
            let e = entries.pop().unwrap();
            rest.push(e);
        }
        let c = EntryCursor { rest, pending: None };
        assert(c.remaining() =~= all);
        c
    }

    /// Hands out the key of the next entry and holds its value for
    /// `next_value`; `None` when every entry has been handed out.
    pub fn next_key(&mut self) -> (k: Option<String>)
        ensures
            old(self).remaining().len() == 0 ==> {
                &&& k is None
                &&& final(self).remaining() == old(self).remaining()
                &&& final(self).pending() == old(self).pending()
            },
            old(self).remaining().len() > 0 ==> {
                &&& k == Some(old(self).remaining()[0].0)
                &&& final(self).remaining() == old(self).remaining().drop_first()
                &&& final(self).pending() == Some(old(self).remaining()[0].1)
            },
    {
        match self.rest.pop() {
            Some((key, value)) => {
                self.pending = Some(value);
                assert(self.remaining() =~= old(self).remaining().drop_first());
                Some(key)
            },
            None => None,
        }
    }

    /// Takes the value of the key handed out last.
    pub fn next_value(&mut self) -> (r: Result<JsonValue, MissingValue>)
        ensures
            old(self).pending() matches Some(v) ==> r == Ok::<JsonValue, MissingValue>(v),
            old(self).pending() is None ==> r == Err::<JsonValue, MissingValue>(MissingValue),
            final(self).pending() is None,
            final(self).remaining() == old(self).remaining(),
    {
        match self.pending.take() {
            Some(v) => Ok(v),
            None => Err(MissingValue),
        }
    }
}

} // verus!
