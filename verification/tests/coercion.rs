//! Coercion of values to the declared types of fields.

use chrono::TimeZone;

use laurus::data::{DataValue, DateTimeUtc, GeoEcefPoint, GeoPoint};
use laurus::error::{Base64Fault, CoercionError, DateTimeFault, FieldError};
use laurus::field::{
    BooleanOption, BytesOption, DateTimeOption, FloatOption, Geo3dOption, GeoOption, IntegerOption,
    TextOption,
};
use laurus::numbers::{Forms, Number};
use laurus::schema::{FieldOption, FlatOption, HnswOption, IvfOption};
use laurus::type_coercion;

fn bits(v: f64) -> u64 {
    v.to_bits()
}

fn forms(n: Number) -> Forms {
    let v = match n {
        Number::Integer { value } => value as f64,
        Number::Float { bits } => f64::from_bits(bits),
        Number::Micros { micros } => micros as f64 / 1_000_000.0,
    };
    let narrow = match n {
        Number::Integer { value } => value as f32,
        _ => v as f32,
    };
    Forms {
        bits: v.to_bits(),
        narrow: narrow.to_bits(),
        integer: v as i64,
        text: v.to_string(),
    }
}

fn parse_float(s: &str) -> Option<u64> {
    s.parse::<f64>().ok().map(f64::to_bits)
}

fn coerce_value(
    field_name: &str,
    option: &FieldOption,
    value: DataValue,
) -> Result<DataValue, FieldError> {
    type_coercion::coerce_value(field_name, option, value, &forms, &parse_float)
}

fn geo_point(lat: f64, lon: f64) -> GeoPoint {
    GeoPoint {
        lat: lat.to_bits(),
        lon: lon.to_bits(),
    }
}

fn ecef_point(x: f64, y: f64, z: f64) -> GeoEcefPoint {
    GeoEcefPoint {
        x: x.to_bits(),
        y: y.to_bits(),
        z: z.to_bits(),
    }
}

fn instant(year: i32, month: u32, day: u32, hour: u32, minute: u32, second: u32) -> DateTimeUtc {
    let t = chrono::Utc
        .with_ymd_and_hms(year, month, day, hour, minute, second)
        .unwrap();
    DateTimeUtc::from_timestamp(t.timestamp(), t.timestamp_subsec_nanos()).unwrap()
}

fn integer() -> FieldOption {
    FieldOption::Integer(IntegerOption::default())
}

fn float() -> FieldOption {
    FieldOption::Float(FloatOption::default())
}

fn boolean() -> FieldOption {
    FieldOption::Boolean(BooleanOption::default())
}

fn text() -> FieldOption {
    FieldOption::Text(TextOption::default())
}

fn geo() -> FieldOption {
    FieldOption::Geo(GeoOption::default())
}

fn geo3d() -> FieldOption {
    FieldOption::Geo3d(Geo3dOption::default())
}

fn geo_multi() -> FieldOption {
    FieldOption::Geo(GeoOption {
        multi_valued: true,
        ..Default::default()
    })
}

fn geo3d_multi() -> FieldOption {
    FieldOption::Geo3d(Geo3dOption {
        multi_valued: true,
        ..Default::default()
    })
}

fn dt_single() -> FieldOption {
    FieldOption::DateTime(DateTimeOption::default())
}

fn dt_multi() -> FieldOption {
    FieldOption::DateTime(DateTimeOption {
        multi_valued: true,
        ..Default::default()
    })
}

// ---- Multi-valued datetime ----

#[test]
fn datetime_multi_valued_accepts_array_and_wraps_single() {
    let a = instant(2024, 1, 1, 0, 0, 0);
    let b = instant(2024, 6, 15, 12, 0, 0);
    assert_eq!(
        coerce_value("t", &dt_multi(), DataValue::DateTimeArray(vec![a, b])).unwrap(),
        DataValue::DateTimeArray(vec![a, b])
    );
    assert_eq!(
        coerce_value("t", &dt_multi(), DataValue::DateTime(a)).unwrap(),
        DataValue::DateTimeArray(vec![a])
    );
    // RFC 3339 text is parsed like the single-valued path, then wrapped.
    assert_eq!(
        coerce_value(
            "t",
            &dt_multi(),
            DataValue::Text("2024-06-15T21:00:00+09:00".to_string())
        )
        .unwrap(),
        DataValue::DateTimeArray(vec![b])
    );
    assert!(coerce_value("t", &dt_multi(), DataValue::Text("yesterday".to_string())).is_err());
}

#[test]
fn datetime_multi_valued_accepts_empty_numeric_array_only() {
    // Bindings turn `[]` into an empty numeric array before the field
    // type is known; that must read as "no instants".
    assert_eq!(
        coerce_value("t", &dt_multi(), DataValue::Int64Array(Vec::new())).unwrap(),
        DataValue::DateTimeArray(Vec::new())
    );
    assert_eq!(
        coerce_value("t", &dt_multi(), DataValue::Float64Array(Vec::new())).unwrap(),
        DataValue::DateTimeArray(Vec::new())
    );
    assert!(
        coerce_value("t", &dt_multi(), DataValue::Int64Array(vec![1_700_000_000])).is_err(),
        "a non-empty numeric array is not an instant list"
    );
    assert!(coerce_value("t", &dt_multi(), DataValue::Bool(true)).is_err());
}

#[test]
fn datetime_single_valued_rejects_arrays() {
    let a = instant(2024, 1, 1, 0, 0, 0);
    let err = coerce_value("t", &dt_single(), DataValue::DateTimeArray(vec![a])).unwrap_err();
    assert!(err.message().contains("multi_valued = true"), "{err:?}");
    // The single-valued contract is otherwise untouched.
    assert_eq!(
        coerce_value("t", &dt_single(), DataValue::DateTime(a)).unwrap(),
        DataValue::DateTime(a)
    );
    assert_eq!(
        coerce_value(
            "t",
            &dt_single(),
            DataValue::Text("2024-01-01T00:00:00Z".to_string())
        )
        .unwrap(),
        DataValue::DateTime(a)
    );
}

// ---- Multi-valued boolean ----

fn multi_boolean() -> FieldOption {
    FieldOption::Boolean(BooleanOption {
        multi_valued: true,
        ..Default::default()
    })
}

fn multi_integer() -> FieldOption {
    FieldOption::Integer(IntegerOption {
        multi_valued: true,
        ..Default::default()
    })
}

fn multi_float() -> FieldOption {
    FieldOption::Float(FloatOption {
        multi_valued: true,
        ..Default::default()
    })
}

#[test]
fn boolean_multi_valued_accepts_array_and_wraps_single() {
    assert_eq!(
        coerce_value(
            "f",
            &multi_boolean(),
            DataValue::BoolArray(vec![true, false])
        )
        .unwrap(),
        DataValue::BoolArray(vec![true, false])
    );
    // Every scalar the single-valued path accepts is wrapped.
    assert_eq!(
        coerce_value("f", &multi_boolean(), DataValue::Bool(true)).unwrap(),
        DataValue::BoolArray(vec![true])
    );
    assert_eq!(
        coerce_value("f", &multi_boolean(), DataValue::Int64(1)).unwrap(),
        DataValue::BoolArray(vec![true])
    );
    assert_eq!(
        coerce_value("f", &multi_boolean(), DataValue::Text(" TRUE ".to_string())).unwrap(),
        DataValue::BoolArray(vec![true])
    );
    assert!(coerce_value("f", &multi_boolean(), DataValue::Text("yes".to_string())).is_err());
    assert!(coerce_value("f", &multi_boolean(), DataValue::Float64(bits(1.0))).is_err());
}

#[test]
fn boolean_multi_valued_accepts_int_array_of_zero_one() {
    assert_eq!(
        coerce_value("f", &multi_boolean(), DataValue::Int64Array(vec![0, 1, 1])).unwrap(),
        DataValue::BoolArray(vec![false, true, true])
    );
    let err =
        coerce_value("f", &multi_boolean(), DataValue::Int64Array(vec![0, 2])).unwrap_err();
    assert!(err.message().contains("only 0 and 1"), "{err:?}");
    // Bindings turn `[]` into an empty numeric array before the field
    // type is known; that must read as "no flags".
    assert_eq!(
        coerce_value("f", &multi_boolean(), DataValue::Int64Array(Vec::new())).unwrap(),
        DataValue::BoolArray(Vec::new())
    );
    assert_eq!(
        coerce_value("f", &multi_boolean(), DataValue::Float64Array(Vec::new())).unwrap(),
        DataValue::BoolArray(Vec::new())
    );
    assert!(
        coerce_value("f", &multi_boolean(), DataValue::Float64Array(vec![bits(1.0)])).is_err(),
        "a non-empty float array is not a flag list (the scalar rule rejects floats too)"
    );
}

#[test]
fn boolean_single_valued_rejects_arrays() {
    let err = coerce_value("f", &boolean(), DataValue::BoolArray(vec![true])).unwrap_err();
    assert!(err.message().contains("multi_valued = true"), "{err:?}");
    // The single-valued contract is otherwise untouched.
    assert_eq!(
        coerce_value("f", &boolean(), DataValue::Bool(false)).unwrap(),
        DataValue::Bool(false)
    );
    assert_eq!(
        coerce_value("f", &boolean(), DataValue::Int64(0)).unwrap(),
        DataValue::Bool(false)
    );
    assert_eq!(
        coerce_value("f", &boolean(), DataValue::Text("false".to_string())).unwrap(),
        DataValue::Bool(false)
    );
    let err = coerce_value("f", &boolean(), DataValue::Int64(2)).unwrap_err();
    assert!(err.message().contains("only 0 and 1"), "{err:?}");
}

/// A `BoolArray` arriving at a multi-valued numeric field is widened
/// element-wise, exactly like a scalar `Bool` is today.
#[test]
fn numeric_multi_valued_widens_bool_array() {
    assert_eq!(
        coerce_value(
            "n",
            &multi_integer(),
            DataValue::BoolArray(vec![true, false])
        )
        .unwrap(),
        DataValue::Int64Array(vec![1, 0])
    );
    assert_eq!(
        coerce_value("n", &multi_float(), DataValue::BoolArray(vec![true, false])).unwrap(),
        DataValue::Float64Array(vec![bits(1.0), bits(0.0)])
    );
}

#[test]
fn numeric_single_valued_rejects_bool_array_with_hint() {
    for opt in [integer(), float()] {
        let err = coerce_value("n", &opt, DataValue::BoolArray(vec![true])).unwrap_err();
        assert!(err.message().contains("multi_valued = true"), "{err:?}");
    }
}

fn bytes() -> FieldOption {
    FieldOption::Bytes(BytesOption::default())
}

#[test]
fn integer_passthrough() {
    assert_eq!(
        coerce_value("n", &integer(), DataValue::Int64(5)).unwrap(),
        DataValue::Int64(5)
    );
}

#[test]
fn integer_truncates_float() {
    assert_eq!(
        coerce_value("n", &integer(), DataValue::Float64(bits(4.7))).unwrap(),
        DataValue::Int64(4)
    );
    assert_eq!(
        coerce_value("n", &integer(), DataValue::Float64(bits(-3.9))).unwrap(),
        DataValue::Int64(-3)
    );
}

#[test]
fn integer_parses_text() {
    assert_eq!(
        coerce_value("n", &integer(), DataValue::Text("42".into())).unwrap(),
        DataValue::Int64(42)
    );
}

#[test]
fn integer_rejects_unparseable_text() {
    assert!(coerce_value("n", &integer(), DataValue::Text("abc".into())).is_err());
}

#[test]
fn integer_from_bool() {
    assert_eq!(
        coerce_value("n", &integer(), DataValue::Bool(true)).unwrap(),
        DataValue::Int64(1)
    );
}

#[test]
fn float_from_integer() {
    assert_eq!(
        coerce_value("x", &float(), DataValue::Int64(42)).unwrap(),
        DataValue::Float64(bits(42.0))
    );
}

#[test]
fn float_parses_text() {
    assert_eq!(
        coerce_value("x", &float(), DataValue::Text("4.5".into())).unwrap(),
        DataValue::Float64(bits(4.5))
    );
}

#[test]
fn float_rejects_unparseable_text() {
    assert!(coerce_value("x", &float(), DataValue::Text("abc".into())).is_err());
}

#[test]
fn boolean_from_int_zero_one() {
    assert_eq!(
        coerce_value("b", &boolean(), DataValue::Int64(0)).unwrap(),
        DataValue::Bool(false)
    );
    assert_eq!(
        coerce_value("b", &boolean(), DataValue::Int64(1)).unwrap(),
        DataValue::Bool(true)
    );
}

#[test]
fn boolean_rejects_other_ints() {
    assert!(coerce_value("b", &boolean(), DataValue::Int64(2)).is_err());
}

#[test]
fn boolean_from_text() {
    assert_eq!(
        coerce_value("b", &boolean(), DataValue::Text("true".into())).unwrap(),
        DataValue::Bool(true)
    );
    assert_eq!(
        coerce_value("b", &boolean(), DataValue::Text("False".into())).unwrap(),
        DataValue::Bool(false)
    );
}

#[test]
fn boolean_rejects_yes() {
    assert!(coerce_value("b", &boolean(), DataValue::Text("yes".into())).is_err());
}

#[test]
fn text_stringifies_any_scalar() {
    assert_eq!(
        coerce_value("t", &text(), DataValue::Int64(42)).unwrap(),
        DataValue::Text("42".into())
    );
    assert_eq!(
        coerce_value("t", &text(), DataValue::Float64(bits(4.5))).unwrap(),
        DataValue::Text("4.5".into())
    );
    assert_eq!(
        coerce_value("t", &text(), DataValue::Bool(true)).unwrap(),
        DataValue::Text("true".into())
    );
}

#[test]
fn geo_passthrough_only() {
    assert_eq!(
        coerce_value(
            "g",
            &geo(),
            DataValue::Geo(geo_point(35.1, 139.0))
        )
        .unwrap(),
        DataValue::Geo(geo_point(35.1, 139.0))
    );
    assert!(coerce_value("g", &geo(), DataValue::Int64(35)).is_err());
}

#[test]
fn geo3d_passthrough_only() {
    let p = ecef_point(1_234_567.0, 2_345_678.0, 3_456_789.0);
    assert_eq!(
        coerce_value("g3", &geo3d(), DataValue::GeoEcef(p)).unwrap(),
        DataValue::GeoEcef(p)
    );
    // 2D geo cannot coerce to 3D ECEF: the schema declared the field
    // as Geo3d, so the writer must reject a 2D value rather than
    // silently lose the altitude dimension.
    let p2d = geo_point(35.1, 139.0);
    assert!(coerce_value("g3", &geo3d(), DataValue::Geo(p2d)).is_err());
    assert!(coerce_value("g3", &geo3d(), DataValue::Int64(35)).is_err());
}

// ---- Multi-valued geo ----

#[test]
fn multi_valued_geo_accepts_arrays_and_wraps_singles() {
    let pts = vec![geo_point(35.1, 139.0), geo_point(-33.9, 151.2)];
    assert_eq!(
        coerce_value("g", &geo_multi(), DataValue::GeoArray(pts.clone())).unwrap(),
        DataValue::GeoArray(pts)
    );
    // A single point is auto-wrapped, mirroring Integer/Float.
    assert_eq!(
        coerce_value(
            "g",
            &geo_multi(),
            DataValue::Geo(geo_point(35.1, 139.0))
        )
        .unwrap(),
        DataValue::GeoArray(vec![geo_point(35.1, 139.0)])
    );
    // Bindings turn `[]` into an empty numeric array before the field
    // type is known; that must read as "no points", not an error.
    assert_eq!(
        coerce_value("g", &geo_multi(), DataValue::Int64Array(Vec::new())).unwrap(),
        DataValue::GeoArray(Vec::new())
    );
    assert_eq!(
        coerce_value("g", &geo_multi(), DataValue::Float64Array(Vec::new())).unwrap(),
        DataValue::GeoArray(Vec::new())
    );
    // ...but a non-empty numeric array is not a point list.
    assert!(coerce_value("g", &geo_multi(), DataValue::Int64Array(vec![35, 139])).is_err());
    assert!(coerce_value("g", &geo_multi(), DataValue::Text("x".into())).is_err());
    // Dimension mismatch is rejected rather than truncated.
    assert!(
        coerce_value(
            "g",
            &geo_multi(),
            DataValue::GeoEcefArray(vec![ecef_point(1.0, 2.0, 3.0)])
        )
        .is_err()
    );
}

#[test]
fn single_valued_geo_rejects_arrays() {
    let err = coerce_value(
        "g",
        &geo(),
        DataValue::GeoArray(vec![geo_point(35.1, 139.0)]),
    )
    .unwrap_err();
    assert!(err.message().contains("multi_valued = true"), "{err:?}");
}

#[test]
fn multi_valued_geo3d_accepts_arrays_and_wraps_singles() {
    let pts = vec![
        ecef_point(1.0, 2.0, 3.0),
        ecef_point(-4.0, 5.0, -6.0),
    ];
    assert_eq!(
        coerce_value("g3", &geo3d_multi(), DataValue::GeoEcefArray(pts.clone())).unwrap(),
        DataValue::GeoEcefArray(pts)
    );
    assert_eq!(
        coerce_value(
            "g3",
            &geo3d_multi(),
            DataValue::GeoEcef(ecef_point(1.0, 2.0, 3.0))
        )
        .unwrap(),
        DataValue::GeoEcefArray(vec![ecef_point(1.0, 2.0, 3.0)])
    );
    assert_eq!(
        coerce_value("g3", &geo3d_multi(), DataValue::Int64Array(Vec::new())).unwrap(),
        DataValue::GeoEcefArray(Vec::new())
    );
    assert_eq!(
        coerce_value("g3", &geo3d_multi(), DataValue::Float64Array(Vec::new())).unwrap(),
        DataValue::GeoEcefArray(Vec::new())
    );
    assert!(
        coerce_value(
            "g3",
            &geo3d_multi(),
            DataValue::Float64Array(vec![bits(1.0), bits(2.0), bits(3.0)])
        )
        .is_err()
    );
    assert!(
        coerce_value(
            "g3",
            &geo3d_multi(),
            DataValue::GeoArray(vec![geo_point(35.1, 139.0)])
        )
        .is_err()
    );
}

#[test]
fn single_valued_geo3d_rejects_arrays() {
    let err = coerce_value(
        "g3",
        &geo3d(),
        DataValue::GeoEcefArray(vec![ecef_point(1.0, 2.0, 3.0)]),
    )
    .unwrap_err();
    assert!(err.message().contains("multi_valued = true"), "{err:?}");
}

#[test]
fn bytes_passthrough() {
    assert_eq!(
        coerce_value("f", &bytes(), DataValue::Bytes(b"hi".to_vec(), None)).unwrap(),
        DataValue::Bytes(b"hi".to_vec(), None)
    );
    assert_eq!(
        coerce_value(
            "f",
            &bytes(),
            DataValue::Bytes(b"hi".to_vec(), Some("image/jpeg".to_string()))
        )
        .unwrap(),
        DataValue::Bytes(b"hi".to_vec(), Some("image/jpeg".to_string()))
    );
}

#[test]
fn bytes_decodes_base64_text() {
    // base64("hi") == "aGk="
    assert_eq!(
        coerce_value("f", &bytes(), DataValue::Text("aGk=".to_string())).unwrap(),
        DataValue::Bytes(b"hi".to_vec(), None)
    );
}

#[test]
fn bytes_rejects_invalid_base64_text() {
    assert!(
        coerce_value(
            "f",
            &bytes(),
            DataValue::Text("not valid base64!!".to_string())
        )
        .is_err()
    );
}

#[test]
fn bytes_rejects_other_types() {
    assert!(coerce_value("f", &bytes(), DataValue::Int64(42)).is_err());
    assert!(coerce_value("f", &bytes(), DataValue::Bool(true)).is_err());
}

fn hnsw() -> FieldOption {
    FieldOption::Hnsw(HnswOption { dimension: 3 })
}

#[test]
fn vector_fields_take_vectors_text_bytes_and_numeric_arrays() {
    let narrow = |v: f32| v.to_bits();
    assert_eq!(
        coerce_value("v", &hnsw(), DataValue::Float64Array(vec![bits(1.5), bits(-2.0)])).unwrap(),
        DataValue::Vector(vec![narrow(1.5), narrow(-2.0)])
    );
    assert_eq!(
        coerce_value("v", &hnsw(), DataValue::Int64Array(vec![1, 2])).unwrap(),
        DataValue::Vector(vec![narrow(1.0), narrow(2.0)])
    );
    for option in [
        FieldOption::Flat(FlatOption { dimension: 3 }),
        FieldOption::Ivf(IvfOption { dimension: 3 }),
    ] {
        assert_eq!(
            coerce_value("v", &option, DataValue::Text("a cat".to_string())).unwrap(),
            DataValue::Text("a cat".to_string())
        );
        let err = coerce_value("v", &option, DataValue::Bool(true)).unwrap_err();
        assert_eq!(err.cause, CoercionError::NotVector { from: "bool" });
    }
}

#[test]
fn every_cause_is_told_apart() {
    let cause = |option: &FieldOption, value: DataValue| {
        coerce_value("f", option, value).unwrap_err().cause
    };
    let word = || DataValue::Text("word".to_string());
    assert_eq!(cause(&integer(), word()), CoercionError::NotInteger);
    assert_eq!(cause(&float(), word()), CoercionError::NotFloat);
    assert_eq!(cause(&boolean(), word()), CoercionError::NotBool);
    assert_eq!(
        cause(&dt_single(), word()),
        CoercionError::NotDateTime {
            date_time: DateTimeFault::TooShort
        }
    );
    assert_eq!(
        cause(&bytes(), DataValue::Text("?".to_string())),
        CoercionError::NotBase64 {
            base64: Base64Fault::InvalidByte { offset: 0, byte: 63 }
        }
    );
    assert_eq!(
        cause(&boolean(), DataValue::Int64(-7)),
        CoercionError::BoolInteger { integer: -7 }
    );
    assert_eq!(
        cause(&integer(), DataValue::Int64Array(vec![1])),
        CoercionError::SingleValued
    );
    let err = coerce_value("height", &integer(), DataValue::Geo(geo_point(1.0, 2.0))).unwrap_err();
    assert_eq!(err.field, "height");
    assert_eq!(err.message(), "field 'height': cannot coerce geo to an integer");
    for (option, words) in [
        (integer(), "cannot parse ' tall ' as an integer"),
        (float(), "cannot parse ' tall ' as a float"),
        (
            boolean(),
            "cannot parse ' tall ' as a bool (expected 'true' or 'false')",
        ),
        (
            dt_single(),
            "cannot parse ' tall ' as an RFC 3339 datetime: premature end of input",
        ),
    ] {
        let err =
            coerce_value("height", &option, DataValue::Text(" tall ".to_string())).unwrap_err();
        assert_eq!(err.message(), format!("field 'height': {words}"));
    }
}

#[test]
fn coercion_is_idempotent() {
    let options = [
        integer(),
        float(),
        boolean(),
        dt_single(),
        dt_multi(),
        multi_boolean(),
        multi_integer(),
        multi_float(),
        text(),
    ];
    let values = || {
        vec![
            DataValue::Int64(1),
            DataValue::Float64(bits(0.5)),
            DataValue::Bool(true),
            DataValue::Text("1".to_string()),
            DataValue::Text("2024-01-01T00:00:00Z".to_string()),
        ]
    };
    for option in &options {
        for value in values() {
            if let Ok(once) = coerce_value("f", option, value) {
                let twice = coerce_value("f", option, once.clone()).unwrap();
                assert_eq!(twice, once);
            }
        }
    }
}

#[test]
fn integers_keep_their_limits() {
    for (text, value) in [
        ("9223372036854775807", i64::MAX),
        ("-9223372036854775808", i64::MIN),
        ("+12", 12),
    ] {
        assert_eq!(
            coerce_value("n", &integer(), DataValue::Text(text.to_string())).unwrap(),
            DataValue::Int64(value)
        );
    }
    for text in ["9223372036854775808", "-", "", "1 2"] {
        assert!(coerce_value("n", &integer(), DataValue::Text(text.to_string())).is_err());
    }
}

#[test]
fn what_became_text_is_read_back() {
    for i in [0, 7, -7, 1234567890, i64::MAX, i64::MIN] {
        let written = coerce_value("f", &text(), DataValue::Int64(i)).unwrap();
        assert_eq!(written, DataValue::Text(i.to_string()));
        assert_eq!(
            coerce_value("f", &integer(), written).unwrap(),
            DataValue::Int64(i)
        );
    }
    for b in [true, false] {
        let written = coerce_value("f", &text(), DataValue::Bool(b)).unwrap();
        assert_eq!(written, DataValue::Text(b.to_string()));
        assert_eq!(
            coerce_value("f", &boolean(), written).unwrap(),
            DataValue::Bool(b)
        );
    }
}

#[test]
fn the_words_of_parsers_are_handed_on() {
    for text in [
        "",
        "noon",
        "2024-13-01T00:00:00Z",
        "2024-02-30T00:00:00Z",
        "2024-01-01T00:00:00",
        "2024-01-01T00:00:00Zzz",
        "2024-01-01",
        "2024-01-01T25:00:00Z",
        "2024-01-01T00:00:00+99:00",
    ] {
        let words = chrono::DateTime::parse_from_rfc3339(text).unwrap_err();
        let err =
            coerce_value("when", &dt_multi(), DataValue::Text(text.to_string())).unwrap_err();
        assert_eq!(
            err.message(),
            format!("field 'when': cannot parse '{text}' as an RFC 3339 datetime: {words}")
        );
    }
    for text in ["?", "ab", "abc", "abcde", "ab==cd", "abcd=", "YWJj\u{e9}", "YWJjZB=="] {
        let engine = &base64::engine::general_purpose::STANDARD;
        let words = base64::Engine::decode(engine, text).unwrap_err();
        let err = coerce_value("raw", &bytes(), DataValue::Text(text.to_string())).unwrap_err();
        assert_eq!(
            err.message(),
            format!("field 'raw': cannot decode '{text}' as base64: {words}")
        );
    }
}

#[test]
fn several_values_are_one_wrapped() {
    let wrapped = |value: DataValue| match value {
        DataValue::Bool(b) => DataValue::BoolArray(vec![b]),
        DataValue::Int64(n) => DataValue::Int64Array(vec![n]),
        DataValue::Float64(bits) => DataValue::Float64Array(vec![bits]),
        DataValue::DateTime(t) => DataValue::DateTimeArray(vec![t]),
        DataValue::Geo(p) => DataValue::GeoArray(vec![p]),
        DataValue::GeoEcef(p) => DataValue::GeoEcefArray(vec![p]),
        other => panic!("{other:?}"),
    };
    let fields = [
        (integer(), multi_integer()),
        (float(), multi_float()),
        (boolean(), multi_boolean()),
        (dt_single(), dt_multi()),
        (geo(), geo_multi()),
        (geo3d(), geo3d_multi()),
    ];
    let values = || {
        vec![
            DataValue::Null,
            DataValue::Bool(true),
            DataValue::Int64(1),
            DataValue::Int64(1 << 60),
            DataValue::Float64(bits(2.75)),
            DataValue::Text(" 1.5 ".to_string()),
            DataValue::Text("TRUE".to_string()),
            DataValue::Text("2024-01-01T00:00:00Z".to_string()),
            DataValue::DateTime(instant(2024, 1, 1, 0, 0, 0)),
            DataValue::Geo(geo_point(1.0, 2.0)),
            DataValue::GeoEcef(ecef_point(1.0, 2.0, 3.0)),
        ]
    };
    for (single, several) in &fields {
        for value in values() {
            let one = coerce_value("f", single, value.clone());
            let many = coerce_value("f", several, value);
            match one {
                Ok(v) => assert_eq!(many.unwrap(), wrapped(v)),
                Err(_) => assert!(many.is_err()),
            }
        }
    }
}
