//! What coercion makes of the elements of arrays, and of single values.

use vstd::prelude::*;

use crate::data::{DataValue, DataView};
use crate::error::{CoercionError, FieldError};
use crate::numbers;
use crate::numbers::{Forms, Number};
use crate::outside;
use crate::schema::FieldOption;
use crate::text;
use crate::type_coercion;
use crate::type_coercion::Outcome;
use crate::value_laws;

verus! {

// ---------------------------------------------------------------------------
// Arrays
// ---------------------------------------------------------------------------

/// Whether a value is an array of values that fields of several values have.
pub open spec fn is_array(v: DataView) -> bool {
    v is Int64Array || v is Float64Array || v is BoolArray || v is DateTimeArray || v is GeoArray
        || v is GeoEcefArray
}

/// How many elements an array has.
pub open spec fn count(v: DataView) -> nat {
    match v {
        DataView::Int64Array(a) => a.len(),
        DataView::Float64Array(a) => a.len(),
        DataView::BoolArray(a) => a.len(),
        DataView::DateTimeArray(a) => a.len(),
        DataView::GeoArray(a) => a.len(),
        DataView::GeoEcefArray(a) => a.len(),
        _ => 0,
    }
}

/// Element `i` of an array, as a value of its own.
pub open spec fn member(v: DataView, i: int) -> DataView {
    match v {
        DataView::Int64Array(a) => DataView::Int64(a[i]),
        DataView::Float64Array(a) => DataView::Float64(a[i]),
        DataView::BoolArray(a) => DataView::Bool(a[i]),
        DataView::DateTimeArray(a) => DataView::DateTime(a[i]),
        DataView::GeoArray(a) => DataView::Geo(a[i]),
        DataView::GeoEcefArray(a) => DataView::GeoEcef(a[i]),
        _ => DataView::Null,
    }
}

/// Whether element `i` of `w` is what a field of one value makes of element `i` of `v`.
pub open spec fn made_of<F: Fn(Number) -> Forms, P: Fn(&str) -> Option<u64>>(
    forms: F,
    parse: P,
    single: FieldOption,
    v: DataView,
    w: DataView,
    i: int,
) -> bool {
    type_coercion::outcome(forms, parse, single, member(v, i), Ok(member(w, i)))
}

/// Whether a field of one value refuses element `i` of an array.
pub open spec fn is_refused<F: Fn(Number) -> Forms, P: Fn(&str) -> Option<u64>>(
    forms: F,
    parse: P,
    single: FieldOption,
    v: DataView,
    i: int,
) -> bool {
    exists|e: CoercionError| #[trigger]
        type_coercion::outcome(forms, parse, single, member(v, i), Err(e))
}

proof fn lemma_integer_bools(a: Seq<i64>, n: nat)
    requires
        n <= a.len(),
    ensures
        match type_coercion::integer_bools(a, n) {
            Ok(bs) => bs.len() == n && forall|i: int|
                0 <= i < n ==> type_coercion::scalar_bool(DataView::Int64(a[i])) == Ok::<
                    bool,
                    CoercionError,
                >(#[trigger] bs[i]),
            Err(e) => exists|i: int|
                0 <= i < n && type_coercion::scalar_bool(DataView::Int64(#[trigger] a[i])) == Err::<
                    bool,
                    CoercionError,
                >(e),
        },
    decreases n,
{
    if n > 0 {
        lemma_integer_bools(a, (n - 1) as nat);
        if type_coercion::integer_bools(a, (n - 1) as nat) is Ok {
            assert(a[n - 1] == a[n - 1]);
        }
    }
}

/// A field of several values takes an array element by element: where it takes it, it
/// keeps the number of elements, and element `i` becomes what the field of one value makes
/// of it. Where it refuses an array that has elements, the field of one value refuses one
/// of them. An empty array of numbers becomes an empty array.
pub proof fn lemma_array_by_elements<F: Fn(Number) -> Forms, P: Fn(&str) -> Option<u64>>(
    forms: F,
    parse: P,
    single: FieldOption,
    multi: FieldOption,
    v: DataView,
    several: Outcome,
)
    requires
        is_array(v),
        type_coercion::differ_in_number(single, multi),
        type_coercion::outcome(forms, parse, multi, v, several),
    ensures
        match several {
            Ok(w) => is_array(w) && count(w) == count(v) && forall|i: int|
                0 <= i < count(v) ==> #[trigger] made_of(forms, parse, single, v, w, i),
            Err(_) => count(v) > 0 ==> exists|i: int|
                0 <= i < count(v) && #[trigger] is_refused(forms, parse, single, v, i),
        },
        count(v) == 0 && (v is Int64Array || v is Float64Array) ==> several is Ok,
{
    if let DataView::Int64Array(a) = v {
        lemma_integer_bools(a, a.len());
    }
    match several {
        Ok(w) => {
            assert forall|i: int| 0 <= i < count(v) implies #[trigger] made_of(
                forms,
                parse,
                single,
                v,
                w,
                i,
            ) by {
                match w {
                    DataView::Int64Array(o) => {
                        assert(o[i] == o[i]);
                    },
                    DataView::Float64Array(o) => {
                        assert(o[i] == o[i]);
                    },
                    DataView::BoolArray(o) => {
                        assert(o[i] == o[i]);
                    },
                    _ => {},
                }
            }
        },
        Err(e) => {
            if count(v) > 0 {
                let i = if multi is Boolean && v is Int64Array {
                    let a = v->Int64Array_0;
                    choose|i: int|
                        0 <= i < a.len() && type_coercion::scalar_bool(
                            DataView::Int64(#[trigger] a[i]),
                        ) == Err::<bool, CoercionError>(e)
                } else {
                    0
                };
                lemma_element_refused(forms, parse, single, multi, v, e, i);
                assert(is_refused(forms, parse, single, v, i));
            }
        },
    }
}

proof fn lemma_element_refused<F: Fn(Number) -> Forms, P: Fn(&str) -> Option<u64>>(
    forms: F,
    parse: P,
    single: FieldOption,
    multi: FieldOption,
    v: DataView,
    e: CoercionError,
    i: int,
)
    requires
        is_array(v),
        0 <= i < count(v),
        type_coercion::differ_in_number(single, multi),
        type_coercion::outcome(forms, parse, multi, v, Err(e)),
        multi is Boolean && v is Int64Array ==> type_coercion::scalar_bool(member(v, i)) == Err::<
            bool,
            CoercionError,
        >(e),
    ensures
        is_refused(forms, parse, single, v, i),
{
    let m = member(v, i);
    let f = match single {
        FieldOption::Integer(_) => type_coercion::cannot(m, "an integer"),
        FieldOption::Float(_) => type_coercion::cannot(m, "a float"),
        FieldOption::DateTime(_) => type_coercion::cannot(m, "a datetime"),
        FieldOption::Geo(_) => type_coercion::cannot(m, "a geographic point"),
        FieldOption::Geo3d(_) => type_coercion::cannot(m, "a 3D ECEF geo point"),
        _ => match type_coercion::scalar_bool(m) {
            Ok(_) => type_coercion::cannot(m, "a bool"),
            Err(g) => Err::<DataView, CoercionError>(g),
        },
    };
    assert(type_coercion::outcome(forms, parse, single, m, Err(f->Err_0)));
}

/// What a call of `coerce_value` makes of an array for a field of several values, and what
/// another makes of one of its elements for the same field of one value: the array keeps
/// its number of elements, and has at that place what the other call gave.
pub proof fn lemma_coerced_array_by_elements<
    F: Fn(Number) -> Forms,
    P: Fn(&str) -> Option<u64>,
>(
    field_name: &str,
    single: FieldOption,
    multi: FieldOption,
    value: DataValue,
    element: DataValue,
    i: int,
    forms: F,
    parse: P,
    one: Result<DataValue, FieldError>,
    several: Result<DataValue, FieldError>,
)
    requires
        is_array(value@),
        0 <= i < count(value@),
        element@ == member(value@, i),
        type_coercion::differ_in_number(single, multi),
        type_coercion::one_answer_each(forms, parse),
        call_ensures(
            type_coercion::coerce_value::<F, P>,
            (field_name, &multi, value, &forms, &parse),
            several,
        ),
        call_ensures(
            type_coercion::coerce_value::<F, P>,
            (field_name, &single, element, &forms, &parse),
            one,
        ),
    ensures
        several is Ok ==> is_array(several->Ok_0@) && count(several->Ok_0@) == count(value@) && one
            is Ok && one->Ok_0@ == member(several->Ok_0@, i),
        one is Err ==> several is Err,
{
    let s = choose|out: Outcome| #[trigger]
        type_coercion::outcome(forms, parse, multi, value@, out) && type_coercion::answered(
            several,
            field_name@,
            value@,
            out,
        );
    let o = choose|out: Outcome| #[trigger]
        type_coercion::outcome(forms, parse, single, element@, out) && type_coercion::answered(
            one,
            field_name@,
            element@,
            out,
        );
    lemma_array_by_elements(forms, parse, single, multi, value@, s);
    if s is Ok {
        assert(made_of(forms, parse, single, value@, s->Ok_0, i));
        lemma_one_outcome(forms, parse, single, element@, o, Ok(member(s->Ok_0, i)));
    }
}

proof fn lemma_one_outcome<F: Fn(Number) -> Forms, P: Fn(&str) -> Option<u64>>(
    forms: F,
    parse: P,
    single: FieldOption,
    v: DataView,
    a: Outcome,
    b: Outcome,
)
    requires
        type_coercion::one_answer_each(forms, parse),
        v is Int64 || v is Float64 || v is Bool || v is DateTime || v is Geo || v is GeoEcef,
        !(single is Hnsw || single is Flat || single is Ivf),
        type_coercion::outcome(forms, parse, single, v, a),
        type_coercion::outcome(forms, parse, single, v, b),
    ensures
        a == b,
{
    match (a, b) {
        (Ok(DataView::Text(s)), Ok(DataView::Text(t))) => {
            assert(s =~= t);
        },
        (Ok(DataView::Int64Array(s)), Ok(DataView::Int64Array(t))) => {
            assert(s =~= t);
        },
        (Ok(DataView::Float64Array(s)), Ok(DataView::Float64Array(t))) => {
            assert(s =~= t);
        },
        _ => {},
    }
}

/// A vector field takes an array of numbers element by element, each as the nearest 32-bit
/// number, and keeps their number.
pub proof fn lemma_vector_by_elements<F: Fn(Number) -> Forms, P: Fn(&str) -> Option<u64>>(
    forms: F,
    parse: P,
    option: FieldOption,
    v: DataView,
    out: Outcome,
)
    requires
        option is Hnsw || option is Flat || option is Ivf,
        v is Int64Array || v is Float64Array,
        type_coercion::outcome(forms, parse, option, v, out),
    ensures
        out matches Ok(DataView::Vector(o)) && o.len() == count(v) && forall|i: int|
            0 <= i < count(v) ==> numbers::gives_narrow(
                forms,
                match member(v, i) {
                    DataView::Int64(value) => Number::Integer { value },
                    m => Number::Float { bits: m->Float64_0 },
                },
                #[trigger] o[i],
            ),
{
}

// ---------------------------------------------------------------------------
// Single values
// ---------------------------------------------------------------------------

/// What fields of numbers make of single numbers and truth values: an integer field keeps
/// integers and takes floats without their fraction, a float field keeps floats and takes
/// integers as the nearest float, and both take false as zero and true as one.
pub proof fn lemma_single_numbers<F: Fn(Number) -> Forms, P: Fn(&str) -> Option<u64>>(
    forms: F,
    parse: P,
    option: FieldOption,
    n: i64,
    bits: u64,
    of_integer: Outcome,
    of_float: Outcome,
    of_false: Outcome,
    of_true: Outcome,
)
    requires
        option matches FieldOption::Integer(o) ==> !o.multi_valued,
        option matches FieldOption::Float(o) ==> !o.multi_valued,
        option is Integer || option is Float,
        type_coercion::outcome(forms, parse, option, DataView::Int64(n), of_integer),
        type_coercion::outcome(forms, parse, option, DataView::Float64(bits), of_float),
        type_coercion::outcome(forms, parse, option, DataView::Bool(false), of_false),
        type_coercion::outcome(forms, parse, option, DataView::Bool(true), of_true),
    ensures
        option is Integer ==> {
            &&& of_integer == Ok::<DataView, CoercionError>(DataView::Int64(n))
            &&& of_float matches Ok(DataView::Int64(i)) && numbers::gives_integer(
                forms,
                Number::Float { bits },
                i,
            )
            &&& of_false == Ok::<DataView, CoercionError>(DataView::Int64(0))
            &&& of_true == Ok::<DataView, CoercionError>(DataView::Int64(1))
        },
        option is Float ==> {
            &&& of_integer matches Ok(DataView::Float64(b)) && numbers::gives_bits(
                forms,
                Number::Integer { value: n },
                b,
            )
            &&& of_float == Ok::<DataView, CoercionError>(DataView::Float64(bits))
            &&& of_false == Ok::<DataView, CoercionError>(DataView::Float64(0))
            &&& of_true == Ok::<DataView, CoercionError>(
                DataView::Float64(0x3ff0_0000_0000_0000),
            )
        },
{
}

/// A boolean field reads back the integer of a truth value, and refuses every other.
pub proof fn lemma_bool_through_integer<F: Fn(Number) -> Forms, P: Fn(&str) -> Option<u64>>(
    forms: F,
    parse: P,
    boolean_field: FieldOption,
    n: i64,
    read: Outcome,
)
    requires
        boolean_field matches FieldOption::Boolean(o) && !o.multi_valued,
        type_coercion::outcome(forms, parse, boolean_field, DataView::Int64(n), read),
    ensures
        read == Ok::<DataView, CoercionError>(DataView::Bool(true)) <==> n == 1,
        read == Ok::<DataView, CoercionError>(DataView::Bool(false)) <==> n == 0,
        read is Ok <==> n == 0 || n == 1,
{
}

/// A field of one value refuses arrays of the values that it has.
pub proof fn lemma_single_refuses_arrays<F: Fn(Number) -> Forms, P: Fn(&str) -> Option<u64>>(
    forms: F,
    parse: P,
    single: FieldOption,
    multi: FieldOption,
    v: DataView,
    out: Outcome,
)
    requires
        is_array(v),
        type_coercion::differ_in_number(single, multi),
        type_coercion::outcome(forms, parse, single, v, out),
    ensures
        out is Err,
{
}

/// What a value was is what it stays in a field of its own type, single or an array.
pub proof fn lemma_own_type_is_kept<F: Fn(Number) -> Forms, P: Fn(&str) -> Option<u64>>(
    forms: F,
    parse: P,
    option: FieldOption,
    v: DataView,
    out: Outcome,
)
    requires
        type_coercion::outcome(forms, parse, option, v, out),
        match option {
            FieldOption::Text(_) => v is Text,
            FieldOption::Integer(o) => if o.multi_valued {
                v is Int64Array
            } else {
                v is Int64
            },
            FieldOption::Float(o) => if o.multi_valued {
                v is Float64Array
            } else {
                v is Float64
            },
            FieldOption::Boolean(o) => if o.multi_valued {
                v is BoolArray
            } else {
                v is Bool
            },
            FieldOption::DateTime(o) => if o.multi_valued {
                v is DateTimeArray
            } else {
                v is DateTime
            },
            FieldOption::Geo(o) => if o.multi_valued {
                v is GeoArray
            } else {
                v is Geo
            },
            FieldOption::Geo3d(o) => if o.multi_valued {
                v is GeoEcefArray
            } else {
                v is GeoEcef
            },
            FieldOption::Bytes(_) => v is Bytes,
            _ => v is Vector,
        },
    ensures
        out == Ok::<DataView, CoercionError>(v),
{
}

/// A null is empty text to a text field, and nothing to any other.
pub proof fn lemma_null<F: Fn(Number) -> Forms, P: Fn(&str) -> Option<u64>>(
    forms: F,
    parse: P,
    option: FieldOption,
    out: Outcome,
)
    requires
        type_coercion::outcome(forms, parse, option, DataView::Null, out),
    ensures
        option is Text ==> out == Ok::<DataView, CoercionError>(DataView::Text(Seq::empty())),
        !(option is Text) ==> out is Err,
{
}

/// A refusal names the field and, where the value was text, that text.
pub proof fn lemma_refusal_names_field<F: Fn(Number) -> Forms, P: Fn(&str) -> Option<u64>>(
    field_name: &str,
    option: FieldOption,
    value: DataValue,
    forms: F,
    parse: P,
    r: Result<DataValue, FieldError>,
)
    requires
        call_ensures(
            type_coercion::coerce_value::<F, P>,
            (field_name, &option, value, &forms, &parse),
            r,
        ),
        r is Err,
    ensures
        r->Err_0.field@ == field_name@,
        value@ matches DataView::Text(s) ==> r->Err_0.text@ == s,
        !(value@ is Text) ==> r->Err_0.text@.len() == 0,
        type_coercion::outcome(forms, parse, option, value@, Err(r->Err_0.cause)),
{
    let o = choose|out: Outcome| #[trigger]
        type_coercion::outcome(forms, parse, option, value@, out) && type_coercion::answered(
            r,
            field_name@,
            value@,
            out,
        );
    assert(o == Err::<DataView, CoercionError>(r->Err_0.cause));
}

// ---------------------------------------------------------------------------
// Text, and what fields take
// ---------------------------------------------------------------------------

/// White space around text does not matter where the text is to spell a number, a truth
/// value, an instant or bytes: what comes of it is what comes of the text alone. Text alone
/// gives a field of instants the instant that it spells, and a field of bytes the bytes.
pub proof fn lemma_white_space_around<F: Fn(Number) -> Forms, P: Fn(&str) -> Option<u64>>(
    forms: F,
    parse: P,
    option: FieldOption,
    before: Seq<char>,
    s: Seq<char>,
    after: Seq<char>,
    out: Outcome,
)
    requires
        forall|i: int| 0 <= i < before.len() ==> text::white_space(#[trigger] before[i]),
        forall|i: int| 0 <= i < after.len() ==> text::white_space(#[trigger] after[i]),
        s.len() > 0 ==> !text::white_space(s.first()) && !text::white_space(s.last()),
        option is Integer || option is Float || option is Boolean || option is DateTime || option
            is Bytes,
        type_coercion::outcome(forms, parse, option, DataView::Text(before + s + after), out),
    ensures
        type_coercion::outcome(forms, parse, option, DataView::Text(s), out),
        option is DateTime && out is Ok ==> outside::rfc3339_instant(s) is Ok && (out->Ok_0
            == DataView::DateTime(outside::rfc3339_instant(s)->Ok_0) || out->Ok_0
            == DataView::DateTimeArray(seq![outside::rfc3339_instant(s)->Ok_0])),
        option is DateTime && out is Err ==> outside::rfc3339_instant(s) is Err,
        option is Bytes && out is Ok ==> outside::base64_bytes(s) is Ok && out->Ok_0
            == DataView::Bytes(outside::base64_bytes(s)->Ok_0, None),
        option is Bytes && out is Err ==> outside::base64_bytes(s) is Err,
{
    value_laws::lemma_padding(before, s, after);
    value_laws::lemma_padding(Seq::empty(), s, Seq::empty());
    assert(Seq::<char>::empty() + s + Seq::<char>::empty() =~= s);
}

/// Whether a value is of the type of a field.
pub open spec fn has_type(option: FieldOption, v: DataView) -> bool {
    match option {
        FieldOption::Text(_) => v is Text,
        FieldOption::Integer(o) => if o.multi_valued {
            v is Int64Array
        } else {
            v is Int64
        },
        FieldOption::Float(o) => if o.multi_valued {
            v is Float64Array
        } else {
            v is Float64
        },
        FieldOption::Boolean(o) => if o.multi_valued {
            v is BoolArray
        } else {
            v is Bool
        },
        FieldOption::DateTime(o) => if o.multi_valued {
            v is DateTimeArray
        } else {
            v is DateTime
        },
        FieldOption::Geo(o) => if o.multi_valued {
            v is GeoArray
        } else {
            v is Geo
        },
        FieldOption::Geo3d(o) => if o.multi_valued {
            v is GeoEcefArray
        } else {
            v is GeoEcef
        },
        FieldOption::Bytes(_) => v is Bytes,
        _ => v is Vector || v is Text || v is Bytes,
    }
}

/// Whatever a field takes becomes a value of its type; a field of vectors leaves text and
/// bytes, of which vectors are made later, as they are.
pub proof fn lemma_taken_has_type<F: Fn(Number) -> Forms, P: Fn(&str) -> Option<u64>>(
    forms: F,
    parse: P,
    option: FieldOption,
    v: DataView,
    out: Outcome,
)
    requires
        type_coercion::outcome(forms, parse, option, v, out),
        out is Ok,
    ensures
        has_type(option, out->Ok_0),
        (option is Hnsw || option is Flat || option is Ivf) && (v is Text || v is Bytes)
            ==> out->Ok_0 == v,
{
}

/// Fields take what has a counterpart in their type and refuse all else: text fields take
/// every single value but points, bytes and vectors; fields of numbers take numbers and
/// truth values, and text that spells a number; boolean fields take truth values, integers
/// and text; fields of instants take instants and text; fields of points take points, and
/// fields of bytes take bytes and text.
pub proof fn lemma_what_fields_take<F: Fn(Number) -> Forms, P: Fn(&str) -> Option<u64>>(
    forms: F,
    parse: P,
    option: FieldOption,
    v: DataView,
    out: Outcome,
)
    requires
        type_coercion::outcome(forms, parse, option, v, out),
        !is_array(v),
    ensures
        option is Text ==> (out is Ok <==> v is Text || v is Int64 || v is Float64 || v is Bool || v
            is DateTime || v is Null),
        option is Integer || option is Float ==> {
            &&& v is Int64 || v is Float64 || v is Bool ==> out is Ok
            &&& out is Ok ==> v is Int64 || v is Float64 || v is Bool || v is Text
        },
        option is Boolean ==> {
            &&& v is Bool ==> out is Ok
            &&& out is Ok ==> v is Bool || v is Int64 || v is Text
        },
        option is DateTime ==> {
            &&& v is DateTime ==> out is Ok
            &&& out is Ok ==> v is DateTime || v is Text
        },
        option is Geo ==> (out is Ok <==> v is Geo),
        option is Geo3d ==> (out is Ok <==> v is GeoEcef),
        option is Bytes ==> {
            &&& v is Bytes ==> out is Ok
            &&& out is Ok ==> v is Bytes || v is Text
        },
        option is Hnsw || option is Flat || option is Ivf ==> (out is Ok <==> v is Vector || v
            is Text || v is Bytes),
{
}

} // verus!
