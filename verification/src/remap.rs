//! The remap wrapping: its key, how numbers are written inside it, and how a
//! read value is unwrapped again.

use vstd::prelude::*;
use vstd::string::*;
use crate::decimal::decimal_text;
use crate::value::{json_of, Json, JsonNumber, JsonValue};

verus! {

/// The characters of the key that marks a remapped value.
pub open spec fn remap_key_text() -> Seq<char> {
    seq!['$', '$', 'j', 's', 'o', 'n', 'e', '$', 'r', 'e', 'm', 'a', 'p', '$', '$']
}

/// The key of the one-entry object that marks a remapped value.
pub fn remap_key() -> (k: &'static str)
    ensures
        k@ == remap_key_text(),
{
    proof {
        reveal_strlit("$$jsone$remap$$");
    }
    let k = "$$jsone$remap$$";
    assert(k@ =~= remap_key_text());
    k
}

/// Whether `n` is one of the codes 1, 2, 3 that stand for NaN, +infinity and
/// -infinity.
pub open spec fn is_special_code(n: JsonNumber) -> bool {
    n matches JsonNumber::PosInt(k) && 1 <= k <= 3
}

/// Whether `entries` is the one entry of a remap object.
pub open spec fn is_remap_entries(entries: Seq<(Seq<char>, Json)>) -> bool {
    entries.len() == 1 && entries[0].0 == remap_key_text()
}

/// A read value with every remap object replaced by what it wraps: a wrapped
/// special code stays a bare number, any other wrapped number stays wrapped,
/// and anything else wrapped is itself unwrapped.
pub open spec fn unwrap_json(j: Json) -> Json
    decreases j,
{
    match j {
        Json::Array(items) => Json::Array(
            Seq::new(
                items.len(),
                |i: int|
                    if 0 <= i < items.len() {
                        unwrap_json(items[i])
                    } else {
                        Json::Null
                    },
            ),
        ),
        Json::Object(entries) => if is_remap_entries(entries) {
            match entries[0].1 {
                Json::Number(n) => if is_special_code(n) {
                    Json::Number(n)
                } else {
                    j
                },
                inner => unwrap_json(inner),
            }
        } else {
            Json::Object(
                Seq::new(
                    entries.len(),
                    |i: int|
                        if 0 <= i < entries.len() {
                            (entries[i].0, unwrap_json(entries[i].1))
                        } else {
                            (Seq::empty(), Json::Null)
                        },
                ),
            )
        },
        _ => j,
    }
}

/// Replaces every remap object in a read value by what it wraps (see
/// `unwrap_json`), before the value is handed to the target type.
#[verifier::loop_isolation(false)]
pub fn unwrap_remapped_values(value: JsonValue) -> (res: JsonValue)
    ensures
        res@ == unwrap_json(value@),
    decreases value,
{
    let ghost whole = value;
    match value {
        JsonValue::Array(values) => {
            let ghost items = values@;
            proof {
                assert(decreases_to!(whole => values));
                assert(decreases_to!(values => values@));
            }
            let mut out: Vec<JsonValue> = Vec::new();
            for item in it: values.into_iter()
                invariant
                    it.seq() == items,
                    forall|k: int| 0 <= k < items.len() ==> decreases_to!(whole => #[trigger] items[k]),
                    out@.len() == it.index(),
                    forall|k: int|
                        0 <= k < it.index() ==> #[trigger] json_of(out@[k]) == unwrap_json(
                            json_of(items[k]),
                        ),
            {
                assert(item == items[it.index() as int]);
                out.push(unwrap_remapped_values(item));
            }
            let res = JsonValue::Array(out);
            assert(out@.len() == items.len());
            proof {
                let sa = whole@->Array_0;
                assert(whole@ is Array);
                assert(sa.len() == items.len());
                assert(forall|i: int| 0 <= i < items.len() ==> sa[i] == json_of(#[trigger] items[i]));
                let u = unwrap_json(whole@);
                assert(u is Array);
                assert(u->Array_0.len() == sa.len());
                assert(forall|i: int| 0 <= i < sa.len() ==> u->Array_0[i] == unwrap_json(#[trigger] sa[i]));
                let r = res@->Array_0;
                assert(r.len() == out@.len());
                assert forall|i: int| 0 <= i < r.len() implies r[i] == u->Array_0[i] by {
                    assert(r[i] == json_of(out@[i]));
                    assert(json_of(out@[i]) == unwrap_json(json_of(items[i])));
                    assert(sa[i] == json_of(items[i]));
                }
                assert(r =~= u->Array_0);
            }
            assert(res@ =~= unwrap_json(whole@));
            res
        },
        JsonValue::Object(entries) => {
            let ghost es = entries@;
            proof {
                assert(decreases_to!(whole => entries));
                assert(decreases_to!(entries => entries@));
                assert forall|k: int| 0 <= k < es.len() implies decreases_to!(whole => #[trigger] es[k].1) by {
                    assert(decreases_to!(es => es[k]));
                    assert(decreases_to!(es[k] => es[k].1));
                }
            }
            let key = String::from_str(remap_key());
            if entries.len() == 1 && entries[0].0 == key {
                let mut entries = entries;
                let (k, inner) = entries.pop().unwrap();
                match inner {
                    JsonValue::Number(n) => {
                        if is_code(n) {
                            JsonValue::Number(n)
                        } else {
                            let mut kept: Vec<(String, JsonValue)> = Vec::new();
                            kept.push((k, JsonValue::Number(n)));
                            let res = JsonValue::Object(kept);
                            proof {
                                assert(kept@[0] == es[0]);
                                assert(kept@.len() == es.len());
                                assert(res@->Object_0 =~= whole@->Object_0);
                            }
                            assert(res@ =~= whole@);
                            res
                        }
                    },
                    other => unwrap_remapped_values(other),
                }
            } else {
                let mut out: Vec<(String, JsonValue)> = Vec::new();
                for entry in it: entries.into_iter()
                    invariant
                        it.seq() == es,
                        forall|k: int| 0 <= k < es.len() ==> decreases_to!(whole => #[trigger] es[k].1),
                        out@.len() == it.index(),
                        forall|k: int|
                            0 <= k < it.index() ==> #[trigger] out@[k].0 == es[k].0 && json_of(out@[k].1) == unwrap_json(
                                json_of(es[k].1),
                            ),
                {
                    assert(entry == es[it.index() as int]);
                    let (k, v) = entry;
                    out.push((k, unwrap_remapped_values(v)));
                }
                let res = JsonValue::Object(out);
                proof {
                    let sa = whole@->Object_0;
                    assert(sa.len() == es.len());
                    assert(forall|i: int|
                        0 <= i < es.len() ==> sa[i] == (es[i].0@, json_of(#[trigger] es[i].1)));
                    assert(!is_remap_entries(sa));
                    let u = unwrap_json(whole@);
                    assert(u->Object_0.len() == sa.len());
                    let r = res@->Object_0;
                    assert forall|i: int| 0 <= i < r.len() implies r[i] == u->Object_0[i] by {
                        assert(r[i] == (out@[i].0@, json_of(out@[i].1)));
                        assert(out@[i].0 == es[i].0);
                        assert(sa[i] == (es[i].0@, json_of(es[i].1)));
                    }
                    assert(r =~= u->Object_0);
                }
                assert(res@ =~= unwrap_json(whole@));
                res
            }
        },
        _ => value,
    }
}

/// Whether `n` is one of the special codes 1, 2, 3.
pub fn is_code(n: JsonNumber) -> (b: bool)
    ensures
        b == is_special_code(n),
{
    match n {
        JsonNumber::PosInt(k) => 1 <= k && k <= 3,
        _ => false,
    }
}

/// A double that JSON numbers cannot carry.
#[derive(Debug, Clone, Copy, PartialEq, Eq)]
pub enum SpecialFloat {
    Nan,
    Infinity,
    NegInfinity,
}

/// The non-finite value that the double with bit pattern `bits` is, if it is
/// one: all exponent bits set means an infinity when the mantissa is zero and
/// NaN otherwise.
pub open spec fn special_class(bits: u64) -> Option<SpecialFloat> {
    if bits == 0x7ff0_0000_0000_0000u64 {
        Some(SpecialFloat::Infinity)
    } else if bits == 0xfff0_0000_0000_0000u64 {
        Some(SpecialFloat::NegInfinity)
    } else if bits & 0x7ff0_0000_0000_0000u64 == 0x7ff0_0000_0000_0000u64 {
        Some(SpecialFloat::Nan)
    } else {
        None
    }
}

/// The code that stands for a non-finite value.
pub open spec fn code_of(c: SpecialFloat) -> u8 {
    match c {
        SpecialFloat::Nan => 1,
        SpecialFloat::Infinity => 2,
        SpecialFloat::NegInfinity => 3,
    }
}

/// How a double is written inside the remap object.
#[derive(Debug, Clone, Copy, PartialEq, Eq)]
pub enum FloatRemap {
    /// The number code of a non-finite value.
    Code(u8),
    /// The decimal text of a finite value.
    Text,
}

/// How the double with bit pattern `bits` is written: NaN as code 1,
/// +infinity as 2, -infinity as 3, a finite value as its text.
pub fn float_remap(bits: u64) -> (r: FloatRemap)
    ensures
        special_class(bits) matches Some(c) ==> r == FloatRemap::Code(code_of(c)),
        special_class(bits) is None ==> r == FloatRemap::Text,
        (r == FloatRemap::Text) <==> bits & 0x7ff0_0000_0000_0000u64 != 0x7ff0_0000_0000_0000u64,
        (r == FloatRemap::Code(1)) <==> (bits & 0x7ff0_0000_0000_0000u64
            == 0x7ff0_0000_0000_0000u64 && bits & 0x000f_ffff_ffff_ffffu64 != 0),
        (r == FloatRemap::Code(2)) <==> bits == 0x7ff0_0000_0000_0000u64,
        (r == FloatRemap::Code(3)) <==> bits == 0xfff0_0000_0000_0000u64,
{
    proof {
        lemma_special_class_by_bits(bits);
    }
    if bits == 0x7ff0_0000_0000_0000u64 {
        FloatRemap::Code(2)
    } else if bits == 0xfff0_0000_0000_0000u64 {
        FloatRemap::Code(3)
    } else if bits & 0x7ff0_0000_0000_0000u64 == 0x7ff0_0000_0000_0000u64 {
        FloatRemap::Code(1)
    } else {
        FloatRemap::Text
    }
}

/// The non-finite value that a bare number stands for when a float is read.
pub open spec fn special_of(n: JsonNumber) -> Option<SpecialFloat> {
    match n {
        JsonNumber::PosInt(1) => Some(SpecialFloat::Nan),
        JsonNumber::PosInt(2) => Some(SpecialFloat::Infinity),
        JsonNumber::PosInt(3) => Some(SpecialFloat::NegInfinity),
        _ => None,
    }
}

/// The non-finite value that `n` stands for when a float is read: 1 is NaN,
/// 2 is +infinity, 3 is -infinity; any other number stands for none.
pub fn special_float(n: JsonNumber) -> (r: Option<SpecialFloat>)
    ensures
        r == special_of(n),
{
    match n {
        JsonNumber::PosInt(1) => Some(SpecialFloat::Nan),
        JsonNumber::PosInt(2) => Some(SpecialFloat::Infinity),
        JsonNumber::PosInt(3) => Some(SpecialFloat::NegInfinity),
        _ => None,
    }
}

/// Whether no object anywhere in `j` is a remap object.
pub open spec fn no_remap_objects(j: Json) -> bool
    decreases j,
{
    match j {
        Json::Array(items) => forall|i: int|
            0 <= i < items.len() ==> no_remap_objects(#[trigger] items[i]),
        Json::Object(entries) => !is_remap_entries(entries) && forall|i: int|
            0 <= i < entries.len() ==> no_remap_objects(#[trigger] entries[i].1),
        _ => true,
    }
}

/// Whether every number anywhere in `j` is an integer.
pub open spec fn integers_only(j: Json) -> bool
    decreases j,
{
    match j {
        Json::Number(n) => !(n is Float),
        Json::Array(items) => forall|i: int|
            0 <= i < items.len() ==> integers_only(#[trigger] items[i]),
        Json::Object(entries) => forall|i: int|
            0 <= i < entries.len() ==> integers_only(#[trigger] entries[i].1),
        _ => true,
    }
}

/// The remap object that wraps `inner`.
pub open spec fn remap_entry(inner: Json) -> Json {
    Json::Object(seq![(remap_key_text(), inner)])
}

/// The decimal text of an integer number.
pub open spec fn integer_text(n: JsonNumber) -> Seq<char> {
    match n {
        JsonNumber::PosInt(k) => decimal_text(k as int),
        JsonNumber::NegInt(k) => decimal_text(k as int),
        JsonNumber::Float(_) => Seq::empty(),
    }
}

/// What the remapping serializer writes for a value whose numbers are all
/// integers: each integer becomes a remap object around its decimal text,
/// keys and everything else stay. (A float number is outside what this
/// describes and is left as it is.)
pub open spec fn integer_encoding(j: Json) -> Json
    decreases j,
{
    match j {
        Json::Number(n) => if n is Float {
            j
        } else {
            remap_entry(Json::Str(integer_text(n)))
        },
        Json::Array(items) => Json::Array(
            Seq::new(
                items.len(),
                |i: int|
                    if 0 <= i < items.len() {
                        integer_encoding(items[i])
                    } else {
                        Json::Null
                    },
            ),
        ),
        Json::Object(entries) => Json::Object(
            Seq::new(
                entries.len(),
                |i: int|
                    if 0 <= i < entries.len() {
                        (entries[i].0, integer_encoding(entries[i].1))
                    } else {
                        (Seq::empty(), Json::Null)
                    },
            ),
        ),
        _ => j,
    }
}

/// `j` with every integer number replaced by its decimal text: the value
/// that the target type is read from after unwrapping.
pub open spec fn integers_as_text(j: Json) -> Json
    decreases j,
{
    match j {
        Json::Number(n) => if n is Float {
            j
        } else {
            Json::Str(integer_text(n))
        },
        Json::Array(items) => Json::Array(
            Seq::new(
                items.len(),
                |i: int|
                    if 0 <= i < items.len() {
                        integers_as_text(items[i])
                    } else {
                        Json::Null
                    },
            ),
        ),
        Json::Object(entries) => Json::Object(
            Seq::new(
                entries.len(),
                |i: int|
                    if 0 <= i < entries.len() {
                        (entries[i].0, integers_as_text(entries[i].1))
                    } else {
                        (Seq::empty(), Json::Null)
                    },
            ),
        ),
        _ => j,
    }
}

/// Unwrapping twice is unwrapping once.
pub proof fn lemma_unwrap_idempotent(j: Json)
    ensures
        unwrap_json(unwrap_json(j)) == unwrap_json(j),
    decreases j,
{
    match j {
        Json::Array(items) => {
            let u = unwrap_json(j)->Array_0;
            assert forall|i: int| 0 <= i < items.len() implies unwrap_json(#[trigger] u[i]) == u[i] by {
                lemma_unwrap_idempotent(items[i]);
            }
            assert(unwrap_json(unwrap_json(j))->Array_0 =~= u);
        },
        Json::Object(entries) => {
            if is_remap_entries(entries) {
                match entries[0].1 {
                    Json::Number(n) => {},
                    inner => {
                        lemma_unwrap_idempotent(inner);
                    },
                }
            } else {
                let u = unwrap_json(j)->Object_0;
                assert(!is_remap_entries(u));
                assert forall|i: int| 0 <= i < entries.len() implies unwrap_json(#[trigger] u[i].1)
                    == u[i].1 by {
                    lemma_unwrap_idempotent(entries[i].1);
                }
                assert(unwrap_json(unwrap_json(j))->Object_0 =~= u);
            }
        },
        _ => {},
    }
}

/// A value without remap objects is read back unchanged.
pub proof fn lemma_unwrap_plain(j: Json)
    requires
        no_remap_objects(j),
    ensures
        unwrap_json(j) == j,
    decreases j,
{
    match j {
        Json::Array(items) => {
            assert forall|i: int| 0 <= i < items.len() implies unwrap_json(#[trigger] items[i])
                == items[i] by {
                lemma_unwrap_plain(items[i]);
            }
            assert(unwrap_json(j)->Array_0 =~= items);
        },
        Json::Object(entries) => {
            assert forall|i: int| 0 <= i < entries.len() implies unwrap_json(
                #[trigger] entries[i].1,
            ) == entries[i].1 by {
                lemma_unwrap_plain(entries[i].1);
            }
            assert(unwrap_json(j)->Object_0 =~= entries);
        },
        _ => {},
    }
}

/// Reading back what the remapping serializer wrote for a value whose
/// numbers are integers and which holds no remap object of its own gives the
/// value with each integer as its decimal text, at the place where the
/// integer stood.
pub proof fn lemma_integer_encoding_round_trip(j: Json)
    requires
        no_remap_objects(j),
        integers_only(j),
    ensures
        unwrap_json(integer_encoding(j)) == integers_as_text(j),
    decreases j,
{
    match j {
        Json::Number(n) => {
            let t = Json::Str(integer_text(n));
            let e = integer_encoding(j);
            assert(e == remap_entry(t));
            assert(is_remap_entries(e->Object_0));
            assert(e->Object_0[0].1 == t);
            assert(unwrap_json(t) == t);
        },
        Json::Array(items) => {
            let e = integer_encoding(j)->Array_0;
            assert forall|i: int| 0 <= i < items.len() implies unwrap_json(#[trigger] e[i])
                == integers_as_text(items[i]) by {
                lemma_integer_encoding_round_trip(items[i]);
            }
            assert(unwrap_json(integer_encoding(j))->Array_0 =~= integers_as_text(j)->Array_0);
        },
        Json::Object(entries) => {
            let e = integer_encoding(j)->Object_0;
            assert(!is_remap_entries(e));
            assert forall|i: int| 0 <= i < entries.len() implies unwrap_json(#[trigger] e[i].1)
                == integers_as_text(entries[i].1) by {
                lemma_integer_encoding_round_trip(entries[i].1);
            }
            assert(unwrap_json(integer_encoding(j))->Object_0 =~= integers_as_text(j)->Object_0);
        },
        _ => {},
    }
}

/// A non-finite double survives the trip: its code, wrapped and read back,
/// is a bare number, and that number stands for the same non-finite value.
pub proof fn lemma_special_float_round_trip(bits: u64)
    requires
        special_class(bits) is Some,
    ensures
        ({
            let c = special_class(bits)->0;
            let n = JsonNumber::PosInt(code_of(c) as u64);
            &&& unwrap_json(remap_entry(Json::Number(n))) == Json::Number(n)
            &&& special_of(n) == Some(c)
        }),
{
    let n = JsonNumber::PosInt(code_of(special_class(bits)->0) as u64);
    assert(is_remap_entries(remap_entry(Json::Number(n))->Object_0));
}

/// A wrapped number that is not one of the codes 1, 2, 3 is read back still
/// wrapped, so no number type accepts it.
pub proof fn lemma_other_numbers_stay_wrapped(n: JsonNumber)
    requires
        !is_special_code(n),
    ensures
        unwrap_json(remap_entry(Json::Number(n))) == remap_entry(Json::Number(n)),
{
    assert(is_remap_entries(remap_entry(Json::Number(n))->Object_0));
}

/// Whether every object anywhere in `j` holds each key at most once, as a
/// `serde_json` object does.
pub open spec fn keys_distinct(j: Json) -> bool
    decreases j,
{
    match j {
        Json::Array(items) => forall|i: int|
            0 <= i < items.len() ==> keys_distinct(#[trigger] items[i]),
        Json::Object(entries) => (forall|a: int, b: int|
            0 <= a < b < entries.len() ==> #[trigger] entries[a].0 != #[trigger] entries[b].0)
            && forall|i: int| 0 <= i < entries.len() ==> keys_distinct(#[trigger] entries[i].1),
        _ => true,
    }
}

/// Unwrapping keeps every object's keys, each at most once.
pub proof fn lemma_unwrap_keeps_keys_distinct(j: Json)
    requires
        keys_distinct(j),
    ensures
        keys_distinct(unwrap_json(j)),
    decreases j,
{
    match j {
        Json::Array(items) => {
            let u = unwrap_json(j)->Array_0;
            assert forall|i: int| 0 <= i < u.len() implies keys_distinct(#[trigger] u[i]) by {
                lemma_unwrap_keeps_keys_distinct(items[i]);
            }
        },
        Json::Object(entries) => {
            if is_remap_entries(entries) {
                match entries[0].1 {
                    Json::Number(n) => {},
                    inner => {
                        assert(keys_distinct(entries[0].1));
                        lemma_unwrap_keeps_keys_distinct(inner);
                    },
                }
            } else {
                let u = unwrap_json(j)->Object_0;
                assert forall|i: int| 0 <= i < u.len() implies keys_distinct(#[trigger] u[i].1) by {
                    lemma_unwrap_keeps_keys_distinct(entries[i].1);
                }
                assert forall|a: int, b: int| 0 <= a < b < u.len() implies #[trigger] u[a].0
                    != #[trigger] u[b].0 by {
                    assert(u[a].0 == entries[a].0);
                    assert(u[b].0 == entries[b].0);
                }
            }
        },
        _ => {},
    }
}

/// The non-finite classes read off the fields of the double: the exponent
/// field all ones makes a value non-finite; then a non-zero mantissa makes it
/// NaN, and a zero mantissa an infinity whose sign is the sign bit.
pub proof fn lemma_special_class_by_bits(bits: u64)
    ensures
        special_class(bits) is None <==> bits & 0x7ff0_0000_0000_0000u64
            != 0x7ff0_0000_0000_0000u64,
        special_class(bits) == Some(SpecialFloat::Nan) <==> (bits & 0x7ff0_0000_0000_0000u64
            == 0x7ff0_0000_0000_0000u64 && bits & 0x000f_ffff_ffff_ffffu64 != 0),
        special_class(bits) == Some(SpecialFloat::Infinity) <==> (bits & 0x7ff0_0000_0000_0000u64
            == 0x7ff0_0000_0000_0000u64 && bits & 0x000f_ffff_ffff_ffffu64 == 0 && bits
            & 0x8000_0000_0000_0000u64 == 0),
        special_class(bits) == Some(SpecialFloat::NegInfinity) <==> (bits
            & 0x7ff0_0000_0000_0000u64 == 0x7ff0_0000_0000_0000u64 && bits
            & 0x000f_ffff_ffff_ffffu64 == 0 && bits & 0x8000_0000_0000_0000u64 != 0),
        special_class(bits) == Some(SpecialFloat::Infinity) <==> bits == 0x7ff0_0000_0000_0000u64,
        special_class(bits) == Some(SpecialFloat::NegInfinity) <==> bits
            == 0xfff0_0000_0000_0000u64,
{
    assert(bits == 0x7ff0_0000_0000_0000u64 <==> (bits & 0x7ff0_0000_0000_0000u64
        == 0x7ff0_0000_0000_0000u64 && bits & 0x000f_ffff_ffff_ffffu64 == 0 && bits
        & 0x8000_0000_0000_0000u64 == 0)) by (bit_vector);
    assert(bits == 0xfff0_0000_0000_0000u64 <==> (bits & 0x7ff0_0000_0000_0000u64
        == 0x7ff0_0000_0000_0000u64 && bits & 0x000f_ffff_ffff_ffffu64 == 0 && bits
        & 0x8000_0000_0000_0000u64 != 0)) by (bit_vector);
}

/// A number stands for a non-finite value exactly when it is one of the
/// codes 1, 2, 3, and then it stands for the value whose code it is: the
/// codes written and the codes read are inverse to each other.
pub proof fn lemma_special_codes_invert(n: JsonNumber, c: SpecialFloat)
    ensures
        special_of(n) is Some <==> (n matches JsonNumber::PosInt(k) && 1 <= k <= 3),
        special_of(n) == Some(c) <==> n == JsonNumber::PosInt(code_of(c) as u64),
        1 <= code_of(c) <= 3,
{
}

/// Unwrapping an array unwraps each element as unwrapping it alone does.
pub proof fn lemma_unwrap_array_elements(items: Seq<Json>)
    ensures
        unwrap_json(Json::Array(items)) is Array,
        unwrap_json(Json::Array(items))->Array_0.len() == items.len(),
        forall|i: int|
            0 <= i < items.len() ==> #[trigger] unwrap_json(Json::Array(items))->Array_0[i]
                == unwrap_json(items[i]),
{
}

/// Unwrapping an object that is not a one-entry remap object keeps its keys
/// and unwraps each field value as unwrapping that value alone does.
pub proof fn lemma_unwrap_object_fields(entries: Seq<(Seq<char>, Json)>)
    requires
        !is_remap_entries(entries),
    ensures
        unwrap_json(Json::Object(entries)) is Object,
        unwrap_json(Json::Object(entries))->Object_0.len() == entries.len(),
        forall|i: int|
            0 <= i < entries.len() ==> #[trigger] unwrap_json(Json::Object(entries))->Object_0[i]
                == (entries[i].0, unwrap_json(entries[i].1)),
{
}

/// A remap object around any text reads back as that text, whatever it
/// holds: integer text of any size, float text, or other.
pub proof fn lemma_wrapped_text_unwraps(s: Seq<char>)
    ensures
        unwrap_json(remap_entry(Json::Str(s))) == Json::Str(s),
{
    assert(is_remap_entries(remap_entry(Json::Str(s))->Object_0));
    assert(unwrap_json(Json::Str(s)) == Json::Str(s));
}

/// A value as the remapping serializer receives it: integers of any width,
/// non-finite doubles, and finite doubles by the text they are written as.
pub enum Written {
    Null,
    Bool(bool),
    Int(int),
    Special(SpecialFloat),
    FloatText(Seq<char>),
    Str(Seq<char>),
    Array(Seq<Written>),
    Object(Seq<(Seq<char>, Written)>),
}

/// The JSON that the remapping serializer writes for `w`: every integer as a
/// remap object around its decimal text, every non-finite double as a remap
/// object around its code, every finite double as a remap object around its
/// text; strings, booleans, null and keys as they are.
pub open spec fn written_json(w: Written) -> Json
    decreases w,
{
    match w {
        Written::Null => Json::Null,
        Written::Bool(b) => Json::Bool(b),
        Written::Int(v) => remap_entry(Json::Str(decimal_text(v))),
        Written::Special(c) => remap_entry(Json::Number(JsonNumber::PosInt(code_of(c) as u64))),
        Written::FloatText(t) => remap_entry(Json::Str(t)),
        Written::Str(s) => Json::Str(s),
        Written::Array(items) => Json::Array(
            Seq::new(
                items.len(),
                |i: int|
                    if 0 <= i < items.len() {
                        written_json(items[i])
                    } else {
                        Json::Null
                    },
            ),
        ),
        Written::Object(entries) => Json::Object(
            Seq::new(
                entries.len(),
                |i: int|
                    if 0 <= i < entries.len() {
                        (entries[i].0, written_json(entries[i].1))
                    } else {
                        (Seq::empty(), Json::Null)
                    },
            ),
        ),
    }
}

/// The JSON that the target type should be read from for `w`: integers and
/// finite doubles as their text, non-finite doubles as their bare code, the
/// rest as it is, each at the place where it stood.
pub open spec fn read_json(w: Written) -> Json
    decreases w,
{
    match w {
        Written::Null => Json::Null,
        Written::Bool(b) => Json::Bool(b),
        Written::Int(v) => Json::Str(decimal_text(v)),
        Written::Special(c) => Json::Number(JsonNumber::PosInt(code_of(c) as u64)),
        Written::FloatText(t) => Json::Str(t),
        Written::Str(s) => Json::Str(s),
        Written::Array(items) => Json::Array(
            Seq::new(
                items.len(),
                |i: int|
                    if 0 <= i < items.len() {
                        read_json(items[i])
                    } else {
                        Json::Null
                    },
            ),
        ),
        Written::Object(entries) => Json::Object(
            Seq::new(
                entries.len(),
                |i: int|
                    if 0 <= i < entries.len() {
                        (entries[i].0, read_json(entries[i].1))
                    } else {
                        (Seq::empty(), Json::Null)
                    },
            ),
        ),
    }
}

/// Whether no object in `w` is itself a one-entry object under the remap key.
pub open spec fn written_plain(w: Written) -> bool
    decreases w,
{
    match w {
        Written::Array(items) => forall|i: int|
            0 <= i < items.len() ==> written_plain(#[trigger] items[i]),
        Written::Object(entries) => !(entries.len() == 1 && entries[0].0 == remap_key_text())
            && forall|i: int| 0 <= i < entries.len() ==> written_plain(#[trigger] entries[i].1),
        _ => true,
    }
}

/// Reading back what the remapping serializer wrote gives, at every depth,
/// each integer and finite double as its text and each non-finite double as
/// its bare code.
pub proof fn lemma_written_round_trip(w: Written)
    requires
        written_plain(w),
    ensures
        unwrap_json(written_json(w)) == read_json(w),
    decreases w,
{
    match w {
        Written::Int(v) => {
            lemma_wrapped_text_unwraps(decimal_text(v));
        },
        Written::FloatText(t) => {
            lemma_wrapped_text_unwraps(t);
        },
        Written::Special(c) => {
            let n = JsonNumber::PosInt(code_of(c) as u64);
            assert(is_remap_entries(remap_entry(Json::Number(n))->Object_0));
        },
        Written::Array(items) => {
            let e = written_json(w)->Array_0;
            assert forall|i: int| 0 <= i < items.len() implies unwrap_json(#[trigger] e[i])
                == read_json(items[i]) by {
                lemma_written_round_trip(items[i]);
            }
            assert(unwrap_json(written_json(w))->Array_0 =~= read_json(w)->Array_0);
        },
        Written::Object(entries) => {
            let e = written_json(w)->Object_0;
            assert(!is_remap_entries(e));
            assert forall|i: int| 0 <= i < entries.len() implies unwrap_json(#[trigger] e[i].1)
                == read_json(entries[i].1) by {
                lemma_written_round_trip(entries[i].1);
            }
            assert(unwrap_json(written_json(w))->Object_0 =~= read_json(w)->Object_0);
        },
        _ => {},
    }
}

} // verus!
