//! Coercion of values to the declared types of their fields.
//!
//! - Integer fields take floats without their fraction.
//! - Numbers and truth values are read from text that spells them.
//! - Text fields take any scalar as text.
//! - Fields of points and of instants take only what suits them.
//! - Bytes fields take text as Base64.
//! - A field of several values takes a single value as an array of one.

use vstd::prelude::*;
use vstd::utf8::*;

use crate::data;
use crate::data::{DataValue, DataView, DateTimeUtc, GeoEcefPoint, GeoPoint};
use crate::error::{CoercionError, DateTimeFault, FieldError};
use crate::field::{
    BooleanOption, DateTimeOption, FloatOption, Geo3dOption, GeoOption, IntegerOption,
};
use crate::numbers;
use crate::numbers::{Forms, Number};
use crate::outside;
use crate::schema::FieldOption;
use crate::text;

verus! {

/// The pattern of the number one.
pub const FLOAT_ONE: u64 = 0x3ff0_0000_0000_0000;

/// The pattern of a truth value as a number.
pub open spec fn bool_bits(b: bool) -> u64 {
    if b {
        FLOAT_ONE
    } else {
        0
    }
}

/// A truth value as an integer.
pub open spec fn bool_int(b: bool) -> i64 {
    if b {
        1
    } else {
        0
    }
}

/// What the type of a value is called.
pub open spec fn described(v: DataView) -> &'static str {
    match v {
        DataView::Null => "null",
        DataView::Bool(_) => "bool",
        DataView::Int64(_) => "integer",
        DataView::Float64(_) => "float",
        DataView::Text(_) => "text",
        DataView::Bytes(_, _) => "bytes",
        DataView::Vector(_) => "vector",
        DataView::DateTime(_) => "datetime",
        DataView::Geo(_) => "geo",
        DataView::GeoEcef(_) => "geo3d",
        DataView::Int64Array(_) => "integer array",
        DataView::Float64Array(_) => "float array",
        DataView::GeoArray(_) => "geo array",
        DataView::GeoEcefArray(_) => "geo3d array",
        DataView::DateTimeArray(_) => "datetime array",
        DataView::BoolArray(_) => "bool array",
        DataView::TextArray(_) => "text array",
    }
}

/// What a value becomes, or why it does not.
pub type Outcome = Result<DataView, CoercionError>;

/// A value that has no counterpart in a type.
pub open spec fn cannot(v: DataView, to: &'static str) -> Outcome {
    Err(CoercionError::Cannot { from: described(v), to })
}

/// What `forms` may make of the text of a float.
pub open spec fn text_outcome<F: Fn(Number) -> Forms>(forms: F, v: DataView, out: Outcome) -> bool {
    match v {
        DataView::Text(s) => out == Ok::<DataView, CoercionError>(DataView::Text(s)),
        DataView::Int64(i) => out == Ok::<DataView, CoercionError>(
            DataView::Text(numbers::integer_text(i)),
        ),
        DataView::Float64(bits) => match out {
            Ok(DataView::Text(t)) => numbers::gives_text(forms, Number::Float { bits }, t),
            _ => false,
        },
        DataView::Bool(b) => out == Ok::<DataView, CoercionError>(
            DataView::Text(numbers::bool_text(b)),
        ),
        DataView::DateTime(t) => out == Ok::<DataView, CoercionError>(
            DataView::Text(outside::rfc3339_text(t)),
        ),
        DataView::Null => out == Ok::<DataView, CoercionError>(DataView::Text(Seq::empty())),
        _ => out == cannot(v, "a text value"),
    }
}

/// The integer that text spells, white space at its ends left out.
pub open spec fn text_integer(s: Seq<char>) -> Option<i64> {
    numbers::parsed_integer(encode_utf8(text::trimmed(s)))
}

/// What a value becomes in an integer field.
pub open spec fn integer_outcome<F: Fn(Number) -> Forms>(
    forms: F,
    multi_valued: bool,
    v: DataView,
    out: Outcome,
) -> bool {
    if multi_valued {
        match v {
            DataView::Int64Array(_) => out == Ok::<DataView, CoercionError>(v),
            DataView::Float64Array(a) => match out {
                Ok(DataView::Int64Array(o)) => o.len() == a.len() && forall|i: int|
                    0 <= i < a.len() ==> numbers::gives_integer(
                        forms,
                        Number::Float { bits: a[i] },
                        #[trigger] o[i],
                    ),
                _ => false,
            },
            DataView::Int64(i) => out == Ok::<DataView, CoercionError>(
                DataView::Int64Array(seq![i]),
            ),
            DataView::Float64(bits) => match out {
                Ok(DataView::Int64Array(o)) => o.len() == 1 && numbers::gives_integer(
                    forms,
                    Number::Float { bits },
                    o[0],
                ),
                _ => false,
            },
            DataView::Bool(b) => out == Ok::<DataView, CoercionError>(
                DataView::Int64Array(seq![bool_int(b)]),
            ),
            DataView::BoolArray(a) => out == Ok::<DataView, CoercionError>(
                DataView::Int64Array(a.map_values(|b: bool| bool_int(b))),
            ),
            DataView::Text(s) => out == match text_integer(s) {
                Some(n) => Ok::<DataView, CoercionError>(DataView::Int64Array(seq![n])),
                None => Err(CoercionError::NotInteger),
            },
            _ => out == cannot(v, "a multi-valued integer"),
        }
    } else {
        match v {
            DataView::Int64(_) => out == Ok::<DataView, CoercionError>(v),
            DataView::Float64(bits) => match out {
                Ok(DataView::Int64(n)) => numbers::gives_integer(forms, Number::Float { bits }, n),
                _ => false,
            },
            DataView::Bool(b) => out == Ok::<DataView, CoercionError>(
                DataView::Int64(bool_int(b)),
            ),
            DataView::Text(s) => out == match text_integer(s) {
                Some(n) => Ok::<DataView, CoercionError>(DataView::Int64(n)),
                None => Err(CoercionError::NotInteger),
            },
            DataView::Int64Array(_) | DataView::Float64Array(_) | DataView::BoolArray(_) => out
                == Err::<DataView, CoercionError>(CoercionError::SingleValued),
            _ => out == cannot(v, "an integer"),
        }
    }
}

/// Whether `parse` may read `text` as this number, or as none.
pub open spec fn reads_float<P: Fn(&str) -> Option<u64>>(
    parse: P,
    text: Seq<char>,
    bits: Option<u64>,
) -> bool {
    exists|s: &str| s@ == text && #[trigger] call_ensures(parse, (s,), bits)
}

/// What a value becomes in a float field.
pub open spec fn float_outcome<F: Fn(Number) -> Forms, P: Fn(&str) -> Option<u64>>(
    forms: F,
    parse: P,
    multi_valued: bool,
    v: DataView,
    out: Outcome,
) -> bool {
    if multi_valued {
        match v {
            DataView::Float64Array(_) => out == Ok::<DataView, CoercionError>(v),
            DataView::Int64Array(a) => match out {
                Ok(DataView::Float64Array(o)) => o.len() == a.len() && forall|i: int|
                    0 <= i < a.len() ==> numbers::gives_bits(
                        forms,
                        Number::Integer { value: a[i] },
                        #[trigger] o[i],
                    ),
                _ => false,
            },
            DataView::Float64(bits) => out == Ok::<DataView, CoercionError>(
                DataView::Float64Array(seq![bits]),
            ),
            DataView::Int64(value) => match out {
                Ok(DataView::Float64Array(o)) => o.len() == 1 && numbers::gives_bits(
                    forms,
                    Number::Integer { value },
                    o[0],
                ),
                _ => false,
            },
            DataView::Bool(b) => out == Ok::<DataView, CoercionError>(
                DataView::Float64Array(seq![bool_bits(b)]),
            ),
            DataView::BoolArray(a) => out == Ok::<DataView, CoercionError>(
                DataView::Float64Array(a.map_values(|b: bool| bool_bits(b))),
            ),
            DataView::Text(s) => match out {
                Ok(DataView::Float64Array(o)) => o.len() == 1 && reads_float(
                    parse,
                    text::trimmed(s),
                    Some(o[0]),
                ),
                Err(CoercionError::NotFloat) => reads_float(parse, text::trimmed(s), None),
                _ => false,
            },
            _ => out == cannot(v, "a multi-valued float"),
        }
    } else {
        match v {
            DataView::Float64(_) => out == Ok::<DataView, CoercionError>(v),
            DataView::Int64(value) => match out {
                Ok(DataView::Float64(bits)) => numbers::gives_bits(
                    forms,
                    Number::Integer { value },
                    bits,
                ),
                _ => false,
            },
            DataView::Bool(b) => out == Ok::<DataView, CoercionError>(
                DataView::Float64(bool_bits(b)),
            ),
            DataView::Text(s) => match out {
                Ok(DataView::Float64(bits)) => reads_float(
                    parse,
                    text::trimmed(s),
                    Some(bits),
                ),
                Err(CoercionError::NotFloat) => reads_float(parse, text::trimmed(s), None),
                _ => false,
            },
            DataView::Int64Array(_) | DataView::Float64Array(_) | DataView::BoolArray(_) => out
                == Err::<DataView, CoercionError>(CoercionError::SingleValued),
            _ => out == cannot(v, "a float"),
        }
    }
}

/// The truth value of a scalar: one itself, zero or one, or the words `true` and
/// `false` without regard to case and to white space at the ends.
pub open spec fn scalar_bool(v: DataView) -> Result<bool, CoercionError> {
    match v {
        DataView::Bool(b) => Ok(b),
        DataView::Int64(n) => if n == 0 {
            Ok(false)
        } else if n == 1 {
            Ok(true)
        } else {
            Err(CoercionError::BoolInteger { integer: n })
        },
        DataView::Text(s) => {
            let word = encode_utf8(text::trimmed(s));
            if numbers::reads_as(word, encode_utf8("true"@)) {
                Ok(true)
            } else if numbers::reads_as(word, encode_utf8("false"@)) {
                Ok(false)
            } else {
                Err(CoercionError::NotBool)
            }
        },
        _ => Err(CoercionError::Cannot { from: described(v), to: "a bool" }),
    }
}

/// The truth values of the first `n` integers, up to the first that has none.
pub open spec fn integer_bools(a: Seq<i64>, n: nat) -> Result<Seq<bool>, CoercionError>
    decreases n,
{
    if n == 0 {
        Ok(Seq::empty())
    } else {
        match integer_bools(a, (n - 1) as nat) {
            Err(e) => Err(e),
            Ok(bs) => match scalar_bool(DataView::Int64(a[n - 1])) {
                Err(e) => Err(e),
                Ok(b) => Ok(bs.push(b)),
            },
        }
    }
}

/// What a value becomes in a boolean field.
pub open spec fn boolean_outcome(multi_valued: bool, v: DataView) -> Outcome {
    if multi_valued {
        match v {
            DataView::BoolArray(_) => Ok(v),
            DataView::Int64Array(a) => match integer_bools(a, a.len()) {
                Ok(bs) => Ok(DataView::BoolArray(bs)),
                Err(e) => Err(e),
            },
            DataView::Float64Array(a) => if a.len() == 0 {
                Ok(DataView::BoolArray(Seq::empty()))
            } else {
                cannot(v, "a multi-valued bool")
            },
            DataView::Bool(_) | DataView::Int64(_) | DataView::Text(_) => match scalar_bool(v) {
                Ok(b) => Ok(DataView::BoolArray(seq![b])),
                Err(e) => Err(e),
            },
            _ => cannot(v, "a multi-valued bool"),
        }
    } else {
        match v {
            DataView::BoolArray(_) => Err(CoercionError::SingleValued),
            _ => match scalar_bool(v) {
                Ok(b) => Ok(DataView::Bool(b)),
                Err(e) => Err(e),
            },
        }
    }
}

/// What a value becomes in a datetime field.
pub open spec fn datetime_outcome(multi_valued: bool, v: DataView) -> Outcome {
    if multi_valued {
        match v {
            DataView::DateTimeArray(_) => Ok(v),
            DataView::DateTime(t) => Ok(DataView::DateTimeArray(seq![t])),
            DataView::Text(s) => match outside::rfc3339_instant(text::trimmed(s)) {
                Ok(t) => Ok(DataView::DateTimeArray(seq![t])),
                Err(date_time) => Err(CoercionError::NotDateTime { date_time }),
            },
            DataView::Int64Array(a) => if a.len() == 0 {
                Ok(DataView::DateTimeArray(Seq::empty()))
            } else {
                cannot(v, "a multi-valued datetime")
            },
            DataView::Float64Array(a) => if a.len() == 0 {
                Ok(DataView::DateTimeArray(Seq::empty()))
            } else {
                cannot(v, "a multi-valued datetime")
            },
            _ => cannot(v, "a multi-valued datetime"),
        }
    } else {
        match v {
            DataView::DateTime(_) => Ok(v),
            DataView::Text(s) => match outside::rfc3339_instant(text::trimmed(s)) {
                Ok(t) => Ok(DataView::DateTime(t)),
                Err(date_time) => Err(CoercionError::NotDateTime { date_time }),
            },
            DataView::DateTimeArray(_) => Err(CoercionError::SingleValued),
            _ => cannot(v, "a datetime"),
        }
    }
}

/// What a value becomes in a field of points on the earth.
pub open spec fn geo_outcome(multi_valued: bool, v: DataView) -> Outcome {
    if multi_valued {
        match v {
            DataView::GeoArray(_) => Ok(v),
            DataView::Geo(p) => Ok(DataView::GeoArray(seq![p])),
            DataView::Int64Array(a) => if a.len() == 0 {
                Ok(DataView::GeoArray(Seq::empty()))
            } else {
                cannot(v, "a multi-valued geographic point")
            },
            DataView::Float64Array(a) => if a.len() == 0 {
                Ok(DataView::GeoArray(Seq::empty()))
            } else {
                cannot(v, "a multi-valued geographic point")
            },
            _ => cannot(v, "a multi-valued geographic point"),
        }
    } else {
        match v {
            DataView::Geo(_) => Ok(v),
            DataView::GeoArray(_) => Err(CoercionError::SingleValued),
            _ => cannot(v, "a geographic point"),
        }
    }
}

/// What a value becomes in a field of points in earth-centred coordinates.
pub open spec fn geo3d_outcome(multi_valued: bool, v: DataView) -> Outcome {
    if multi_valued {
        match v {
            DataView::GeoEcefArray(_) => Ok(v),
            DataView::GeoEcef(p) => Ok(DataView::GeoEcefArray(seq![p])),
            DataView::Int64Array(a) => if a.len() == 0 {
                Ok(DataView::GeoEcefArray(Seq::empty()))
            } else {
                cannot(v, "a multi-valued 3D ECEF geo point")
            },
            DataView::Float64Array(a) => if a.len() == 0 {
                Ok(DataView::GeoEcefArray(Seq::empty()))
            } else {
                cannot(v, "a multi-valued 3D ECEF geo point")
            },
            _ => cannot(v, "a multi-valued 3D ECEF geo point"),
        }
    } else {
        match v {
            DataView::GeoEcef(_) => Ok(v),
            DataView::GeoEcefArray(_) => Err(CoercionError::SingleValued),
            _ => cannot(v, "a 3D ECEF geo point"),
        }
    }
}

/// What a value becomes in a bytes field.
pub open spec fn bytes_outcome(v: DataView) -> Outcome {
    match v {
        DataView::Bytes(_, _) => Ok(v),
        DataView::Text(s) => match outside::base64_bytes(text::trimmed(s)) {
            Ok(b) => Ok(DataView::Bytes(b, None)),
            Err(base64) => Err(CoercionError::NotBase64 { base64 }),
        },
        _ => cannot(v, "bytes"),
    }
}

/// What a value becomes in a vector field.
pub open spec fn vector_outcome<F: Fn(Number) -> Forms>(forms: F, v: DataView, out: Outcome) -> bool {
    match v {
        DataView::Vector(_) | DataView::Text(_) | DataView::Bytes(_, _) => out == Ok::<
            DataView,
            CoercionError,
        >(v),
        DataView::Float64Array(a) => match out {
            Ok(DataView::Vector(o)) => o.len() == a.len() && forall|i: int|
                0 <= i < a.len() ==> numbers::gives_narrow(
                    forms,
                    Number::Float { bits: a[i] },
                    #[trigger] o[i],
                ),
            _ => false,
        },
        DataView::Int64Array(a) => match out {
            Ok(DataView::Vector(o)) => o.len() == a.len() && forall|i: int|
                0 <= i < a.len() ==> numbers::gives_narrow(
                    forms,
                    Number::Integer { value: a[i] },
                    #[trigger] o[i],
                ),
            _ => false,
        },
        _ => out == Err::<DataView, CoercionError>(CoercionError::NotVector { from: described(v) }),
    }
}

/// What a value becomes in a field of a declared type.
pub open spec fn outcome<F: Fn(Number) -> Forms, P: Fn(&str) -> Option<u64>>(
    forms: F,
    parse: P,
    option: FieldOption,
    v: DataView,
    out: Outcome,
) -> bool {
    match option {
        FieldOption::Text(_) => text_outcome(forms, v, out),
        FieldOption::Integer(o) => integer_outcome(forms, o.multi_valued, v, out),
        FieldOption::Float(o) => float_outcome(forms, parse, o.multi_valued, v, out),
        FieldOption::Boolean(o) => out == boolean_outcome(o.multi_valued, v),
        FieldOption::DateTime(o) => out == datetime_outcome(o.multi_valued, v),
        FieldOption::Geo(o) => out == geo_outcome(o.multi_valued, v),
        FieldOption::Geo3d(o) => out == geo3d_outcome(o.multi_valued, v),
        FieldOption::Bytes(_) => out == bytes_outcome(v),
        FieldOption::Hnsw(_) | FieldOption::Flat(_) | FieldOption::Ivf(_) => vector_outcome(
            forms,
            v,
            out,
        ),
    }
}

/// What the type of a value is called.
fn describe(value: &DataValue) -> (r: &'static str)
    ensures
        r == described(value@),
{
    match value {
        DataValue::Null => "null",
        DataValue::Bool(_) => "bool",
        DataValue::Int64(_) => "integer",
        DataValue::Float64(_) => "float",
        DataValue::Text(_) => "text",
        DataValue::Bytes(_, _) => "bytes",
        DataValue::Vector(_) => "vector",
        DataValue::DateTime(_) => "datetime",
        DataValue::Geo(_) => "geo",
        DataValue::GeoEcef(_) => "geo3d",
        DataValue::Int64Array(_) => "integer array",
        DataValue::Float64Array(_) => "float array",
        DataValue::GeoArray(_) => "geo array",
        DataValue::GeoEcefArray(_) => "geo3d array",
        DataValue::DateTimeArray(_) => "datetime array",
        DataValue::BoolArray(_) => "bool array",
        DataValue::TextArray(_) => "text array",
    }
}

/// What came of a value.
pub open spec fn shown(r: Result<DataValue, CoercionError>) -> Outcome {
    match r {
        Ok(v) => Ok(v@),
        Err(e) => Err(e),
    }
}

fn refuse(value: &DataValue, to: &'static str) -> (r: Result<DataValue, CoercionError>)
    ensures
        shown(r) == cannot(value@, to),
{
    Err(CoercionError::Cannot { from: describe(value), to })
}

fn coerce_to_text<F: Fn(Number) -> Forms>(value: DataValue, forms: &F) -> (r: Result<
    DataValue,
    CoercionError,
>)
    requires
        forall|n: Number| call_requires(*forms, (n,)),
    ensures
        text_outcome(*forms, value@, shown(r)),
{
    match value {
        DataValue::Text(s) => Ok(DataValue::Text(s)),
        DataValue::Int64(i) => Ok(DataValue::Text(numbers::integer_to_text(i))),
        DataValue::Float64(bits) => {
            let f: Forms = (*forms)(Number::Float { bits });
            assert(numbers::gives(*forms, Number::Float { bits }, f));
            Ok(DataValue::Text(f.text))
        },
        DataValue::Bool(b) => Ok(DataValue::Text(numbers::bool_to_text(b))),
        DataValue::DateTime(t) => {
            let (secs, nanos) = t.parts();
            Ok(DataValue::Text(outside::to_rfc3339(secs, nanos)))
        },
        DataValue::Null => {
            let r: String = String::new();
            assert(r@ =~= Seq::empty());
            Ok(DataValue::Text(r))
        },
        other => refuse(&other, "a text value"),
    }
}

/// The integers that `forms` makes of floats.
fn truncated<F: Fn(Number) -> Forms>(a: &Vec<u64>, forms: &F) -> (r: Vec<i64>)
    requires
        forall|n: Number| call_requires(*forms, (n,)),
    ensures
        r@.len() == a@.len(),
        forall|i: int|
            0 <= i < a@.len() ==> numbers::gives_integer(
                *forms,
                Number::Float { bits: a@[i] },
                #[trigger] r@[i],
            ),
{
    let mut r: Vec<i64> = Vec::new();
    let n: usize = a.len();
    let mut k: usize = 0;
    while k < n
        invariant
            n == a@.len(),
            k <= n,
            r@.len() == k,
            forall|n: Number| call_requires(*forms, (n,)),
            forall|i: int|
                0 <= i < k ==> numbers::gives_integer(
                    *forms,
                    Number::Float { bits: a@[i] },
                    #[trigger] r@[i],
                ),
        decreases n - k,
    {
        let bits: u64 = a[k];
        let f: Forms = (*forms)(Number::Float { bits });
        assert(numbers::gives(*forms, Number::Float { bits }, f));
        r.push(f.integer);
        k = k + 1;
    }
    r
}

/// The floats that `forms` makes of integers.
fn widened<F: Fn(Number) -> Forms>(a: &Vec<i64>, forms: &F) -> (r: Vec<u64>)
    requires
        forall|n: Number| call_requires(*forms, (n,)),
    ensures
        r@.len() == a@.len(),
        forall|i: int|
            0 <= i < a@.len() ==> numbers::gives_bits(
                *forms,
                Number::Integer { value: a@[i] },
                #[trigger] r@[i],
            ),
{
    let mut r: Vec<u64> = Vec::new();
    let n: usize = a.len();
    let mut k: usize = 0;
    while k < n
        invariant
            n == a@.len(),
            k <= n,
            r@.len() == k,
            forall|n: Number| call_requires(*forms, (n,)),
            forall|i: int|
                0 <= i < k ==> numbers::gives_bits(
                    *forms,
                    Number::Integer { value: a@[i] },
                    #[trigger] r@[i],
                ),
        decreases n - k,
    {
        let value: i64 = a[k];
        let f: Forms = (*forms)(Number::Integer { value });
        assert(numbers::gives(*forms, Number::Integer { value }, f));
        r.push(f.bits);
        k = k + 1;
    }
    r
}

fn coerce_to_integer<F: Fn(Number) -> Forms>(multi_valued: bool, value: DataValue, forms: &F) -> (r:
    Result<DataValue, CoercionError>)
    requires
        forall|n: Number| call_requires(*forms, (n,)),
    ensures
        integer_outcome(*forms, multi_valued, value@, shown(r)),
{
    if multi_valued {
        match value {
            DataValue::Int64Array(a) => Ok(DataValue::Int64Array(a)),
            DataValue::Float64Array(a) => Ok(DataValue::Int64Array(truncated(&a, forms))),
            DataValue::Int64(i) => {
                let r: Vec<i64> = vec![i];
                assert(r@ =~= seq![i]);
                Ok(DataValue::Int64Array(r))
            },
            DataValue::Float64(bits) => {
                let f: Forms = (*forms)(Number::Float { bits });
                assert(numbers::gives(*forms, Number::Float { bits }, f));
                Ok(DataValue::Int64Array(vec![f.integer]))
            },
            DataValue::Bool(b) => {
                let n: i64 = if b {
                    1
                } else {
                    0
                };
                let r: Vec<i64> = vec![n];
                assert(r@ =~= seq![bool_int(b)]);
                Ok(DataValue::Int64Array(r))
            },
            DataValue::BoolArray(a) => {
                let mut r: Vec<i64> = Vec::new();
                let n: usize = a.len();
                let mut k: usize = 0;
                while k < n
                    invariant
                        n == a@.len(),
                        k <= n,
                        r@.len() == k,
                        forall|i: int| 0 <= i < k ==> #[trigger] r@[i] == bool_int(a@[i]),
                    decreases n - k,
                {
                    r.push(
                        if a[k] {
                            1
                        } else {
                            0
                        },
                    );
                    k = k + 1;
                }
                assert(r@ =~= a@.map_values(|b: bool| bool_int(b)));
                Ok(DataValue::Int64Array(r))
            },
            DataValue::Text(s) => match numbers::parse_integer(text::trim(s.as_str())) {
                Some(n) => {
                    let r: Vec<i64> = vec![n];
                    assert(r@ =~= seq![n]);
                    Ok(DataValue::Int64Array(r))
                },
                None => Err(CoercionError::NotInteger),
            },
            other => refuse(&other, "a multi-valued integer"),
        }
    } else {
        match value {
            DataValue::Int64(i) => Ok(DataValue::Int64(i)),
            DataValue::Float64(bits) => {
                let f: Forms = (*forms)(Number::Float { bits });
                assert(numbers::gives(*forms, Number::Float { bits }, f));
                Ok(DataValue::Int64(f.integer))
            },
            DataValue::Bool(b) => Ok(
                DataValue::Int64(
                    if b {
                        1
                    } else {
                        0
                    },
                ),
            ),
            DataValue::Text(s) => match numbers::parse_integer(text::trim(s.as_str())) {
                Some(n) => Ok(DataValue::Int64(n)),
                None => Err(CoercionError::NotInteger),
            },
            DataValue::Int64Array(_) | DataValue::Float64Array(_) | DataValue::BoolArray(_) => Err(
                CoercionError::SingleValued,
            ),
            other => refuse(&other, "an integer"),
        }
    }
}

fn coerce_to_float<F: Fn(Number) -> Forms, P: Fn(&str) -> Option<u64>>(
    multi_valued: bool,
    value: DataValue,
    forms: &F,
    parse: &P,
) -> (r: Result<DataValue, CoercionError>)
    requires
        forall|n: Number| call_requires(*forms, (n,)),
        forall|s: &str| call_requires(*parse, (s,)),
    ensures
        float_outcome(*forms, *parse, multi_valued, value@, shown(r)),
{
    if multi_valued {
        match value {
            DataValue::Float64Array(a) => Ok(DataValue::Float64Array(a)),
            DataValue::Int64Array(a) => Ok(DataValue::Float64Array(widened(&a, forms))),
            DataValue::Float64(bits) => {
                let r: Vec<u64> = vec![bits];
                assert(r@ =~= seq![bits]);
                Ok(DataValue::Float64Array(r))
            },
            DataValue::Int64(value) => {
                let f: Forms = (*forms)(Number::Integer { value });
                assert(numbers::gives(*forms, Number::Integer { value }, f));
                Ok(DataValue::Float64Array(vec![f.bits]))
            },
            DataValue::Bool(b) => {
                let bits: u64 = if b {
                    FLOAT_ONE
                } else {
                    0
                };
                let r: Vec<u64> = vec![bits];
                assert(r@ =~= seq![bool_bits(b)]);
                Ok(DataValue::Float64Array(r))
            },
            DataValue::BoolArray(a) => {
                let mut r: Vec<u64> = Vec::new();
                let n: usize = a.len();
                let mut k: usize = 0;
                while k < n
                    invariant
                        n == a@.len(),
                        k <= n,
                        r@.len() == k,
                        forall|i: int| 0 <= i < k ==> #[trigger] r@[i] == bool_bits(a@[i]),
                    decreases n - k,
                {
                    r.push(
                        if a[k] {
                            FLOAT_ONE
                        } else {
                            0
                        },
                    );
                    k = k + 1;
                }
                assert(r@ =~= a@.map_values(|b: bool| bool_bits(b)));
                Ok(DataValue::Float64Array(r))
            },
            DataValue::Text(s) => {
                let part: &str = text::trim(s.as_str());
                match (*parse)(part) {
                    Some(bits) => Ok(DataValue::Float64Array(vec![bits])),
                    None => Err(CoercionError::NotFloat),
                }
            },
            other => refuse(&other, "a multi-valued float"),
        }
    } else {
        match value {
            DataValue::Float64(bits) => Ok(DataValue::Float64(bits)),
            DataValue::Int64(value) => {
                let f: Forms = (*forms)(Number::Integer { value });
                assert(numbers::gives(*forms, Number::Integer { value }, f));
                Ok(DataValue::Float64(f.bits))
            },
            DataValue::Bool(b) => Ok(
                DataValue::Float64(
                    if b {
                        FLOAT_ONE
                    } else {
                        0
                    },
                ),
            ),
            DataValue::Text(s) => {
                let part: &str = text::trim(s.as_str());
                match (*parse)(part) {
                    Some(bits) => Ok(DataValue::Float64(bits)),
                    None => Err(CoercionError::NotFloat),
                }
            },
            DataValue::Int64Array(_) | DataValue::Float64Array(_) | DataValue::BoolArray(_) => Err(
                CoercionError::SingleValued,
            ),
            other => refuse(&other, "a float"),
        }
    }
}

fn parse_bool_scalar(value: &DataValue) -> (r: Result<bool, CoercionError>)
    ensures
        r == scalar_bool(value@),
{
    match value {
        DataValue::Bool(b) => Ok(*b),
        DataValue::Int64(n) => {
            if *n == 0 {
                Ok(false)
            } else if *n == 1 {
                Ok(true)
            } else {
                Err(CoercionError::BoolInteger { integer: *n })
            }
        },
        DataValue::Text(s) => {
            let word: &str = text::trim(s.as_str());
            if numbers::is_word(word, "true") {
                Ok(true)
            } else if numbers::is_word(word, "false") {
                Ok(false)
            } else {
                Err(CoercionError::NotBool)
            }
        },
        other => Err(CoercionError::Cannot { from: describe(other), to: "a bool" }),
    }
}

proof fn lemma_integer_bools_fail(a: Seq<i64>, k: nat, n: nat)
    requires
        k <= n <= a.len(),
        integer_bools(a, k) is Err,
    ensures
        integer_bools(a, n) == integer_bools(a, k),
    decreases n,
{
    if k < n {
        lemma_integer_bools_fail(a, k, (n - 1) as nat);
    }
}

fn coerce_to_boolean(multi_valued: bool, value: DataValue) -> (r: Result<DataValue, CoercionError>)
    ensures
        shown(r) == boolean_outcome(multi_valued, value@),
{
    if multi_valued {
        match value {
            DataValue::BoolArray(a) => Ok(DataValue::BoolArray(a)),
            DataValue::Int64Array(a) => {
                let mut r: Vec<bool> = Vec::new();
                let n: usize = a.len();
                let mut k: usize = 0;
                while k < n
                    invariant
                        n == a@.len(),
                        k <= n,
                        value@ == DataView::Int64Array(a@),
                        multi_valued,
                        integer_bools(a@, k as nat) == Ok::<Seq<bool>, CoercionError>(r@),
                    decreases n - k,
                {
                    match parse_bool_scalar(&DataValue::Int64(a[k])) {
                        Ok(b) => {
                            r.push(b);
                        },
                        Err(e) => {
                            proof {
                                lemma_integer_bools_fail(a@, (k + 1) as nat, n as nat);
                            }
                            return Err(e);
                        },
                    }
                    k = k + 1;
                }
                Ok(DataValue::BoolArray(r))
            },
            DataValue::Float64Array(a) => {
                if a.len() == 0 {
                    let r: Vec<bool> = Vec::new();
                    assert(r@ =~= Seq::empty());
                    Ok(DataValue::BoolArray(r))
                } else {
                    refuse(&DataValue::Float64Array(a), "a multi-valued bool")
                }
            },
            DataValue::Bool(_) | DataValue::Int64(_) | DataValue::Text(_) => {
                match parse_bool_scalar(&value) {
                    Ok(b) => {
                        let r: Vec<bool> = vec![b];
                        assert(r@ =~= seq![b]);
                        Ok(DataValue::BoolArray(r))
                    },
                    Err(e) => Err(e),
                }
            },
            other => refuse(&other, "a multi-valued bool"),
        }
    } else {
        match value {
            DataValue::BoolArray(_) => Err(CoercionError::SingleValued),
            other => match parse_bool_scalar(&other) {
                Ok(b) => Ok(DataValue::Bool(b)),
                Err(e) => Err(e),
            },
        }
    }
}

fn no_instants() -> (r: Vec<DateTimeUtc>)
    ensures
        data::instants(r@) == Seq::<(i64, u32)>::empty(),
{
    let r: Vec<DateTimeUtc> = Vec::new();
    assert(data::instants(r@) =~= Seq::<(i64, u32)>::empty());
    r
}

fn one_instant(t: DateTimeUtc) -> (r: Vec<DateTimeUtc>)
    ensures
        data::instants(r@) == seq![t@],
{
    let r: Vec<DateTimeUtc> = vec![t];
    assert(data::instants(r@) =~= seq![t@]);
    r
}

/// Reads the instant that RFC 3339 text names, white space at its ends left out.
fn read_instant(s: &str) -> (r: Result<DateTimeUtc, CoercionError>)
    ensures
        match outside::rfc3339_instant(text::trimmed(s@)) {
            Ok(t) => r is Ok && r->Ok_0@ == t,
            Err(date_time) => r == Err::<DateTimeUtc, CoercionError>(
                CoercionError::NotDateTime { date_time },
            ),
        },
{
    match outside::parse_rfc3339(text::trim(s)) {
        Ok((secs, nanos)) => match DateTimeUtc::from_timestamp(secs, nanos) {
            Some(t) => Ok(t),
            None => Err(CoercionError::NotDateTime { date_time: DateTimeFault::OutOfRange }),
        },
        Err(date_time) => Err(CoercionError::NotDateTime { date_time }),
    }
}

fn coerce_to_datetime(multi_valued: bool, value: DataValue) -> (r: Result<DataValue, CoercionError>)
    ensures
        shown(r) == datetime_outcome(multi_valued, value@),
{
    if multi_valued {
        match value {
            DataValue::DateTimeArray(a) => Ok(DataValue::DateTimeArray(a)),
            DataValue::DateTime(t) => Ok(DataValue::DateTimeArray(one_instant(t))),
            DataValue::Text(s) => match read_instant(s.as_str()) {
                Ok(t) => Ok(DataValue::DateTimeArray(one_instant(t))),
                Err(e) => Err(e),
            },
            DataValue::Int64Array(a) => {
                if a.len() == 0 {
                    Ok(DataValue::DateTimeArray(no_instants()))
                } else {
                    refuse(&DataValue::Int64Array(a), "a multi-valued datetime")
                }
            },
            DataValue::Float64Array(a) => {
                if a.len() == 0 {
                    Ok(DataValue::DateTimeArray(no_instants()))
                } else {
                    refuse(&DataValue::Float64Array(a), "a multi-valued datetime")
                }
            },
            other => refuse(&other, "a multi-valued datetime"),
        }
    } else {
        match value {
            DataValue::DateTime(t) => Ok(DataValue::DateTime(t)),
            DataValue::Text(s) => match read_instant(s.as_str()) {
                Ok(t) => Ok(DataValue::DateTime(t)),
                Err(e) => Err(e),
            },
            DataValue::DateTimeArray(_) => Err(CoercionError::SingleValued),
            other => refuse(&other, "a datetime"),
        }
    }
}

fn coerce_to_geo(multi_valued: bool, value: DataValue) -> (r: Result<DataValue, CoercionError>)
    ensures
        shown(r) == geo_outcome(multi_valued, value@),
{
    if multi_valued {
        match value {
            DataValue::GeoArray(a) => Ok(DataValue::GeoArray(a)),
            DataValue::Geo(p) => {
                let r: Vec<GeoPoint> = vec![p];
                assert(r@ =~= seq![p]);
                Ok(DataValue::GeoArray(r))
            },
            DataValue::Int64Array(a) => {
                if a.len() == 0 {
                    Ok(DataValue::GeoArray(Vec::new()))
                } else {
                    refuse(&DataValue::Int64Array(a), "a multi-valued geographic point")
                }
            },
            DataValue::Float64Array(a) => {
                if a.len() == 0 {
                    Ok(DataValue::GeoArray(Vec::new()))
                } else {
                    refuse(&DataValue::Float64Array(a), "a multi-valued geographic point")
                }
            },
            other => refuse(&other, "a multi-valued geographic point"),
        }
    } else {
        match value {
            DataValue::Geo(p) => Ok(DataValue::Geo(p)),
            DataValue::GeoArray(_) => Err(CoercionError::SingleValued),
            other => refuse(&other, "a geographic point"),
        }
    }
}

fn coerce_to_geo3d(multi_valued: bool, value: DataValue) -> (r: Result<DataValue, CoercionError>)
    ensures
        shown(r) == geo3d_outcome(multi_valued, value@),
{
    if multi_valued {
        match value {
            DataValue::GeoEcefArray(a) => Ok(DataValue::GeoEcefArray(a)),
            DataValue::GeoEcef(p) => {
                let r: Vec<GeoEcefPoint> = vec![p];
                assert(r@ =~= seq![p]);
                Ok(DataValue::GeoEcefArray(r))
            },
            DataValue::Int64Array(a) => {
                if a.len() == 0 {
                    Ok(DataValue::GeoEcefArray(Vec::new()))
                } else {
                    refuse(&DataValue::Int64Array(a), "a multi-valued 3D ECEF geo point")
                }
            },
            DataValue::Float64Array(a) => {
                if a.len() == 0 {
                    Ok(DataValue::GeoEcefArray(Vec::new()))
                } else {
                    refuse(&DataValue::Float64Array(a), "a multi-valued 3D ECEF geo point")
                }
            },
            other => refuse(&other, "a multi-valued 3D ECEF geo point"),
        }
    } else {
        match value {
            DataValue::GeoEcef(p) => Ok(DataValue::GeoEcef(p)),
            DataValue::GeoEcefArray(_) => Err(CoercionError::SingleValued),
            other => refuse(&other, "a 3D ECEF geo point"),
        }
    }
}

fn coerce_to_bytes(value: DataValue) -> (r: Result<DataValue, CoercionError>)
    ensures
        shown(r) == bytes_outcome(value@),
{
    match value {
        DataValue::Bytes(data, mime) => Ok(DataValue::Bytes(data, mime)),
        DataValue::Text(s) => match outside::base64_decode(text::trim(s.as_str())) {
            Ok(data) => Ok(DataValue::Bytes(data, None)),
            Err(base64) => Err(CoercionError::NotBase64 { base64 }),
        },
        other => refuse(&other, "bytes"),
    }
}

fn coerce_to_vector<F: Fn(Number) -> Forms>(value: DataValue, forms: &F) -> (r: Result<
    DataValue,
    CoercionError,
>)
    requires
        forall|n: Number| call_requires(*forms, (n,)),
    ensures
        vector_outcome(*forms, value@, shown(r)),
{
    match value {
        DataValue::Vector(v) => Ok(DataValue::Vector(v)),
        DataValue::Text(s) => Ok(DataValue::Text(s)),
        DataValue::Bytes(data, mime) => Ok(DataValue::Bytes(data, mime)),
        DataValue::Float64Array(a) => {
            let mut r: Vec<u32> = Vec::new();
            let n: usize = a.len();
            let mut k: usize = 0;
            while k < n
                invariant
                    n == a@.len(),
                    k <= n,
                    r@.len() == k,
                    forall|n: Number| call_requires(*forms, (n,)),
                    forall|i: int|
                        0 <= i < k ==> numbers::gives_narrow(
                            *forms,
                            Number::Float { bits: a@[i] },
                            #[trigger] r@[i],
                        ),
                decreases n - k,
            {
                let bits: u64 = a[k];
                let f: Forms = (*forms)(Number::Float { bits });
                assert(numbers::gives(*forms, Number::Float { bits }, f));
                r.push(f.narrow);
                k = k + 1;
            }
            Ok(DataValue::Vector(r))
        },
        DataValue::Int64Array(a) => {
            let mut r: Vec<u32> = Vec::new();
            let n: usize = a.len();
            let mut k: usize = 0;
            while k < n
                invariant
                    n == a@.len(),
                    k <= n,
                    r@.len() == k,
                    forall|n: Number| call_requires(*forms, (n,)),
                    forall|i: int|
                        0 <= i < k ==> numbers::gives_narrow(
                            *forms,
                            Number::Integer { value: a@[i] },
                            #[trigger] r@[i],
                        ),
                decreases n - k,
            {
                let value: i64 = a[k];
                let f: Forms = (*forms)(Number::Integer { value });
                assert(numbers::gives(*forms, Number::Integer { value }, f));
                r.push(f.narrow);
                k = k + 1;
            }
            Ok(DataValue::Vector(r))
        },
        other => Err(CoercionError::NotVector { from: describe(&other) }),
    }
}

/// The text that a value is, and for other values none.
pub open spec fn given_text(v: DataView) -> Seq<char> {
    match v {
        DataView::Text(s) => s,
        _ => Seq::empty(),
    }
}

/// What is answered where a value was coerced, or could not be.
pub open spec fn answered(
    r: Result<DataValue, FieldError>,
    field: Seq<char>,
    value: DataView,
    out: Outcome,
) -> bool {
    match out {
        Ok(v) => r is Ok && r->Ok_0@ == v,
        Err(e) => r is Err && r->Err_0.field@ == field && r->Err_0.text@ == given_text(value)
            && r->Err_0.cause == e,
    }
}

/// Coerces a value to the declared type of its field.
///
/// `forms` writes numbers in the forms that need floating-point arithmetic;
/// `parse_float` reads a float from text.
pub fn coerce_value<F: Fn(Number) -> Forms, P: Fn(&str) -> Option<u64>>(
    field_name: &str,
    option: &FieldOption,
    value: DataValue,
    forms: &F,
    parse_float: &P,
) -> (r: Result<DataValue, FieldError>)
    requires
        forall|n: Number| call_requires(*forms, (n,)),
        forall|s: &str| call_requires(*parse_float, (s,)),
    ensures
        exists|out: Outcome| #[trigger]
            outcome(*forms, *parse_float, *option, value@, out) && answered(
                r,
                field_name@,
                value@,
                out,
            ),
{
    let text: String = match &value {
        DataValue::Text(s) => s.clone(),
        _ => String::new(),
    };
    let coerced: Result<DataValue, CoercionError> = match option {
        FieldOption::Text(_) => coerce_to_text(value, forms),
        FieldOption::Integer(o) => coerce_to_integer(o.multi_valued, value, forms),
        FieldOption::Float(o) => coerce_to_float(o.multi_valued, value, forms, parse_float),
        FieldOption::Boolean(o) => coerce_to_boolean(o.multi_valued, value),
        FieldOption::DateTime(o) => coerce_to_datetime(o.multi_valued, value),
        FieldOption::Geo(o) => coerce_to_geo(o.multi_valued, value),
        FieldOption::Geo3d(o) => coerce_to_geo3d(o.multi_valued, value),
        FieldOption::Bytes(_) => coerce_to_bytes(value),
        FieldOption::Hnsw(_) | FieldOption::Flat(_) | FieldOption::Ivf(_) => coerce_to_vector(
            value,
            forms,
        ),
    };
    assert(outcome(*forms, *parse_float, *option, value@, shown(coerced)));
    match coerced {
        Ok(v) => Ok(v),
        Err(cause) => Err(FieldError { field: field_name.to_string(), text, cause }),
    }
}

/// An integer that a text field took as text is read back by an integer field.
pub proof fn lemma_integer_through_text<F: Fn(Number) -> Forms, P: Fn(&str) -> Option<u64>>(
    forms: F,
    parse: P,
    text_field: FieldOption,
    integer_field: FieldOption,
    i: i64,
    written: Outcome,
    read: Outcome,
)
    requires
        text_field is Text,
        integer_field matches FieldOption::Integer(o) && !o.multi_valued,
        outcome(forms, parse, text_field, DataView::Int64(i), written),
        written is Ok,
        outcome(forms, parse, integer_field, written->Ok_0, read),
    ensures
        read == Ok::<DataView, CoercionError>(DataView::Int64(i)),
{
    numbers::lemma_integer_text_reads_back(i);
}

/// A truth value that a text field took as text is read back by a boolean field.
pub proof fn lemma_bool_through_text<F: Fn(Number) -> Forms, P: Fn(&str) -> Option<u64>>(
    forms: F,
    parse: P,
    text_field: FieldOption,
    boolean_field: FieldOption,
    b: bool,
    written: Outcome,
    read: Outcome,
)
    requires
        text_field is Text,
        boolean_field matches FieldOption::Boolean(o) && !o.multi_valued,
        outcome(forms, parse, text_field, DataView::Bool(b), written),
        written is Ok,
        outcome(forms, parse, boolean_field, written->Ok_0, read),
    ensures
        read == Ok::<DataView, CoercionError>(DataView::Bool(b)),
{
    let word = numbers::bool_text(b);
    reveal_strlit("true");
    reveal_strlit("false");
    assert(text::trimmed(word) == word);
    assert(is_ascii_chars("true"@));
    assert(is_ascii_chars("false"@));
    is_ascii_chars_encode_utf8("true"@);
    is_ascii_chars_encode_utf8("false"@);
    assert(encode_utf8("true"@).len() == 4);
    assert(encode_utf8("false"@).len() == 5);
    assert forall|i: int| 0 <= i < 4 implies 97 <= #[trigger] encode_utf8("true"@)[i] <= 122 by {
        assert("true"@[i] as u8 == encode_utf8("true"@)[i]);
    }
    assert forall|i: int| 0 <= i < 5 implies 97 <= #[trigger] encode_utf8("false"@)[i] <= 122 by {
        assert("false"@[i] as u8 == encode_utf8("false"@)[i]);
    }
}

/// Coercion is idempotent: a value that was coerced to a field's type is taken
/// unchanged by the same field.
pub proof fn lemma_coercion_idempotent<F: Fn(Number) -> Forms, P: Fn(&str) -> Option<u64>>(
    forms: F,
    parse: P,
    option: FieldOption,
    v: DataView,
    w: DataView,
    again: Outcome,
)
    requires
        outcome(forms, parse, option, v, Ok(w)),
        outcome(forms, parse, option, w, again),
    ensures
        again == Ok::<DataView, CoercionError>(w),
{
}

// ---------------------------------------------------------------------------
// One value and several
// ---------------------------------------------------------------------------

/// Whether a value is a single one of the types that fields of several values have.
pub open spec fn is_single(v: DataView) -> bool {
    match v {
        DataView::Null
        | DataView::Bool(_)
        | DataView::Int64(_)
        | DataView::Float64(_)
        | DataView::Text(_)
        | DataView::DateTime(_)
        | DataView::Geo(_)
        | DataView::GeoEcef(_) => true,
        _ => false,
    }
}

/// The array of one value.
pub open spec fn wrapped(v: DataView) -> DataView {
    match v {
        DataView::Bool(b) => DataView::BoolArray(seq![b]),
        DataView::Int64(n) => DataView::Int64Array(seq![n]),
        DataView::Float64(bits) => DataView::Float64Array(seq![bits]),
        DataView::DateTime(t) => DataView::DateTimeArray(seq![t]),
        DataView::Geo(p) => DataView::GeoArray(seq![p]),
        DataView::GeoEcef(p) => DataView::GeoEcefArray(seq![p]),
        _ => v,
    }
}

/// Whether two declarations say the same, but that the one is of a single value and the
/// other of several.
pub open spec fn differ_in_number(single: FieldOption, multi: FieldOption) -> bool {
    match (single, multi) {
        (FieldOption::Integer(s), FieldOption::Integer(m)) => !s.multi_valued && m == (
        IntegerOption { multi_valued: true, ..s }),
        (FieldOption::Float(s), FieldOption::Float(m)) => !s.multi_valued && m == (FloatOption {
            multi_valued: true,
            ..s
        }),
        (FieldOption::Boolean(s), FieldOption::Boolean(m)) => !s.multi_valued && m == (
        BooleanOption { multi_valued: true, ..s }),
        (FieldOption::DateTime(s), FieldOption::DateTime(m)) => !s.multi_valued && m == (
        DateTimeOption { multi_valued: true, ..s }),
        (FieldOption::Geo(s), FieldOption::Geo(m)) => !s.multi_valued && m == (GeoOption {
            multi_valued: true,
            ..s
        }),
        (FieldOption::Geo3d(s), FieldOption::Geo3d(m)) => !s.multi_valued && m == (Geo3dOption {
            multi_valued: true,
            ..s
        }),
        _ => false,
    }
}

/// Whether a value may be refused.
pub open spec fn may_refuse<F: Fn(Number) -> Forms, P: Fn(&str) -> Option<u64>>(
    forms: F,
    parse: P,
    option: FieldOption,
    v: DataView,
) -> bool {
    exists|e: CoercionError| #[trigger] outcome(forms, parse, option, v, Err(e))
}

/// A field of several values takes a single value exactly where the field of one value
/// does, and makes an array of one of what the other makes of it.
pub proof fn lemma_several_wrap_one<F: Fn(Number) -> Forms, P: Fn(&str) -> Option<u64>>(
    forms: F,
    parse: P,
    single: FieldOption,
    multi: FieldOption,
    v: DataView,
)
    requires
        is_single(v),
        differ_in_number(single, multi),
    ensures
        forall|x: DataView| #[trigger]
            outcome(forms, parse, single, v, Ok(x)) ==> outcome(
                forms,
                parse,
                multi,
                v,
                Ok(wrapped(x)),
            ),
        forall|y: DataView| #[trigger]
            outcome(forms, parse, multi, v, Ok(y)) ==> exists|x: DataView|
                y == wrapped(x) && #[trigger] outcome(forms, parse, single, v, Ok(x)),
        may_refuse(forms, parse, single, v) <==> may_refuse(forms, parse, multi, v),
{
    assert forall|y: DataView| #[trigger] outcome(forms, parse, multi, v, Ok(y)) implies exists|
        x: DataView,
    | y == wrapped(x) && #[trigger] outcome(forms, parse, single, v, Ok(x)) by {
        let x = match y {
            DataView::BoolArray(a) => DataView::Bool(a[0]),
            DataView::Int64Array(a) => DataView::Int64(a[0]),
            DataView::Float64Array(a) => DataView::Float64(a[0]),
            DataView::DateTimeArray(a) => DataView::DateTime(a[0]),
            DataView::GeoArray(a) => DataView::Geo(a[0]),
            DataView::GeoEcefArray(a) => DataView::GeoEcef(a[0]),
            _ => y,
        };
        match y {
            DataView::Int64Array(a) => {
                assert(a =~= seq![a[0]]);
            },
            DataView::Float64Array(a) => {
                assert(a =~= seq![a[0]]);
            },
            _ => {},
        }
        assert(y == wrapped(x));
        assert(outcome(forms, parse, single, v, Ok(x)));
    }
    if may_refuse(forms, parse, single, v) {
        let e = choose|e: CoercionError| #[trigger] outcome(forms, parse, single, v, Err(e));
        lemma_refused_alike(forms, parse, single, multi, v, e);
    }
    if may_refuse(forms, parse, multi, v) {
        let e = choose|e: CoercionError| #[trigger] outcome(forms, parse, multi, v, Err(e));
        lemma_refused_alike(forms, parse, multi, single, v, e);
    }
}

/// Whether `forms` gives one answer to each number, and `parse` one to each text.
pub open spec fn one_answer_each<F: Fn(Number) -> Forms, P: Fn(&str) -> Option<u64>>(
    forms: F,
    parse: P,
) -> bool {
    &&& forall|n: Number, f: Forms, g: Forms| #[trigger]
        numbers::gives(forms, n, f) && #[trigger] numbers::gives(forms, n, g) ==> f.bits == g.bits
            && f.narrow == g.narrow && f.integer == g.integer && f.text@ == g.text@
    &&& forall|t: Seq<char>, a: Option<u64>, b: Option<u64>| #[trigger]
        reads_float(parse, t, a) && #[trigger] reads_float(parse, t, b) ==> a == b
}

/// What a field of several values makes of a single one, from what the field of one value
/// makes of it: an array of that; a refusal stays one.
pub open spec fn is_wrapped(one: Outcome, several: Outcome) -> bool {
    match one {
        Ok(x) => several == Ok::<DataView, CoercionError>(wrapped(x)),
        Err(_) => several is Err,
    }
}

/// A field of several values makes of a single value the array of one of exactly that
/// which the field of one value makes of it, and refuses it exactly where the other does,
/// as long as numbers have one form each and texts one reading.
pub proof fn lemma_several_are_one_wrapped<F: Fn(Number) -> Forms, P: Fn(&str) -> Option<u64>>(
    forms: F,
    parse: P,
    single: FieldOption,
    multi: FieldOption,
    v: DataView,
    one: Outcome,
    several: Outcome,
)
    requires
        is_single(v),
        differ_in_number(single, multi),
        one_answer_each(forms, parse),
        outcome(forms, parse, single, v, one),
        outcome(forms, parse, multi, v, several),
    ensures
        is_wrapped(one, several),
{
    match several {
        Ok(DataView::Int64Array(a)) => {
            assert(a =~= seq![a[0]]);
        },
        Ok(DataView::Float64Array(a)) => {
            assert(a =~= seq![a[0]]);
        },
        _ => {},
    }
}

/// What two calls of [`coerce_value`] make of the same single value, the one for a field
/// of one value and the other for the same field of several.
pub proof fn lemma_coerced_several_are_one_wrapped<
    F: Fn(Number) -> Forms,
    P: Fn(&str) -> Option<u64>,
>(
    field_name: &str,
    single: FieldOption,
    multi: FieldOption,
    value: DataValue,
    again: DataValue,
    forms: F,
    parse: P,
    one: Result<DataValue, FieldError>,
    several: Result<DataValue, FieldError>,
)
    requires
        is_single(value@),
        again@ == value@,
        differ_in_number(single, multi),
        one_answer_each(forms, parse),
        call_ensures(coerce_value::<F, P>, (field_name, &single, value, &forms, &parse), one),
        call_ensures(coerce_value::<F, P>, (field_name, &multi, again, &forms, &parse), several),
    ensures
        match one {
            Ok(x) => several is Ok && several->Ok_0@ == wrapped(x@),
            Err(_) => several is Err,
        },
{
    let a = choose|out: Outcome| #[trigger]
        outcome(forms, parse, single, value@, out) && answered(one, field_name@, value@, out);
    let b = choose|out: Outcome| #[trigger]
        outcome(forms, parse, multi, again@, out) && answered(several, field_name@, again@, out);
    lemma_several_are_one_wrapped(forms, parse, single, multi, value@, a, b);
}

proof fn lemma_refused_alike<F: Fn(Number) -> Forms, P: Fn(&str) -> Option<u64>>(
    forms: F,
    parse: P,
    a: FieldOption,
    b: FieldOption,
    v: DataView,
    e: CoercionError,
)
    requires
        is_single(v),
        differ_in_number(a, b) || differ_in_number(b, a),
        outcome(forms, parse, a, v, Err(e)),
    ensures
        may_refuse(forms, parse, b, v),
{
    let to = match b {
        FieldOption::Integer(o) => if o.multi_valued {
            "a multi-valued integer"
        } else {
            "an integer"
        },
        FieldOption::Float(o) => if o.multi_valued {
            "a multi-valued float"
        } else {
            "a float"
        },
        FieldOption::Boolean(o) => if o.multi_valued {
            "a multi-valued bool"
        } else {
            "a bool"
        },
        FieldOption::DateTime(o) => if o.multi_valued {
            "a multi-valued datetime"
        } else {
            "a datetime"
        },
        FieldOption::Geo(o) => if o.multi_valued {
            "a multi-valued geographic point"
        } else {
            "a geographic point"
        },
        _ => if b->Geo3d_0.multi_valued {
            "a multi-valued 3D ECEF geo point"
        } else {
            "a 3D ECEF geo point"
        },
    };
    let refused = CoercionError::Cannot { from: described(v), to };
    assert(outcome(forms, parse, b, v, Err(e)) || outcome(forms, parse, b, v, Err(refused)));
}

} // verus!
